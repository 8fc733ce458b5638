use fotoleine::errors::DirLoadError;
use fotoleine::image::{rotated_size, rotation_from_orientation, ImageRotation};
use fotoleine::names::{file_name_is_relevant, name_less, sort_names};
use fotoleine::policy::ImageLoadingPolicy;
use fotoleine::rating::Rating;
use fotoleine::session::{offset_idx, LoadedDir, Receipt};

fn numbered(n: usize) -> Vec<String> {
    (0..n).map(|i| format!("img{:02}.jpg", i)).collect()
}

fn open(n: usize, policy: &ImageLoadingPolicy) -> LoadedDir<String> {
    LoadedDir::new(numbered(n), None, policy).unwrap()
}

fn assert_disjoint(d: &LoadedDir<String>, n: usize) {
    for i in 0..n {
        assert!(!(d.image_at(i).is_some() && d.is_pending(i)));
    }
}

#[test]
fn relevant_file_names() {
    assert!(file_name_is_relevant("a.jpg"));
    assert!(file_name_is_relevant("B.JPG"));
    assert!(file_name_is_relevant("c.JpEg"));
    assert!(file_name_is_relevant("..jpg"));
    assert!(!file_name_is_relevant(".jpg"));
    assert!(!file_name_is_relevant("._a.jpg"));
    assert!(!file_name_is_relevant("a.png"));
    assert!(!file_name_is_relevant("a.jpg.txt"));
    assert!(!file_name_is_relevant("jpg"));
    assert!(!file_name_is_relevant(""));
}

#[test]
fn names_sort_by_code_point() {
    assert!(name_less("a", "b"));
    assert!(name_less("a", "ab"));
    assert!(!name_less("ab", "a"));
    assert!(!name_less("a", "a"));
    assert!(name_less("B", "a"));
    let mut v: Vec<String> = vec!["c.jpg", "a.jpg", "B.jpg", "ä.jpg", "a.jpg"]
        .into_iter()
        .map(String::from)
        .collect();
    sort_names(&mut v);
    assert_eq!(v, vec!["B.jpg", "a.jpg", "a.jpg", "c.jpg", "ä.jpg"]);
}

#[test]
fn offset_idx_clamps() {
    assert_eq!(offset_idx(3, 10, 1), 4);
    assert_eq!(offset_idx(3, 10, -1), 2);
    assert_eq!(offset_idx(0, 10, -1), 0);
    assert_eq!(offset_idx(9, 10, 1), 9);
    assert_eq!(offset_idx(2, 10, -50), 0);
    assert_eq!(offset_idx(2, 10, i32::MAX), 9);
    assert_eq!(offset_idx(2, 10, i32::MIN), 0);
    assert_eq!(offset_idx(0, 1, 1), 0);
}

#[test]
fn orientation_to_rotation() {
    assert_eq!(rotation_from_orientation(Some(1)), ImageRotation::Upright);
    assert_eq!(rotation_from_orientation(Some(3)), ImageRotation::OneEighty);
    assert_eq!(rotation_from_orientation(Some(6)), ImageRotation::NinetyCW);
    assert_eq!(rotation_from_orientation(Some(8)), ImageRotation::NinetyCCW);
    assert_eq!(rotation_from_orientation(Some(2)), ImageRotation::Upright);
    assert_eq!(rotation_from_orientation(None), ImageRotation::Upright);
    assert_eq!(rotated_size([4, 3], ImageRotation::NinetyCW), [3, 4]);
    assert_eq!(rotated_size([4, 3], ImageRotation::OneEighty), [4, 3]);
}

#[test]
fn no_relevant_images_is_an_error() {
    let policy = ImageLoadingPolicy::new(1, 1, 2);
    let names = vec!["a.png".to_string(), "._b.jpg".to_string()];
    let res: Result<LoadedDir<String>, DirLoadError> = LoadedDir::new(names, None, &policy);
    assert!(matches!(res, Err(DirLoadError::NoRelevantImages)));
}

#[test]
fn bad_sidecar_fails_session_creation() {
    let policy = ImageLoadingPolicy::new(1, 1, 2);
    let res: Result<LoadedDir<String>, DirLoadError> =
        LoadedDir::new(numbered(3), Some("[1, 2"), &policy);
    assert!(matches!(res, Err(DirLoadError::RatingsLoadError(_))));
}

#[test]
fn collection_is_filtered_and_sorted() {
    let policy = ImageLoadingPolicy::new(1, 1, 2);
    let names: Vec<String> = vec!["z.jpg", "notes.txt", "a.JPEG", "._a.jpg", "m.jpg"]
        .into_iter()
        .map(String::from)
        .collect();
    let d: LoadedDir<String> = LoadedDir::new(names, None, &policy).unwrap();
    assert_eq!(d.collection_image_count(), 3);
    assert_eq!(d.file_name(0), "a.JPEG");
    assert_eq!(d.file_name(1), "m.jpg");
    assert_eq!(d.file_name(2), "z.jpg");
    assert_eq!(d.current_file_name(), "a.JPEG");
}

#[test]
fn opening_requests_the_first_window() {
    let policy = ImageLoadingPolicy::new(1, 1, 2);
    let mut d = open(10, &policy);
    assert_eq!(d.current_collection_idx(), 0);
    assert_eq!(d.take_load_requests(), vec![0, 1, 2, 3]);
    assert!(d.take_load_requests().is_empty());
    for i in 0..4 {
        assert!(d.is_pending(i));
    }
    assert!(!d.is_pending(4));
    assert!(d.current_image().is_none());
}

#[test]
fn showing_the_middle_requests_by_priority() {
    let policy = ImageLoadingPolicy::new(1, 1, 2);
    let mut d = open(10, &policy);
    d.take_load_requests();
    d.set_shown(5, &policy);
    assert_eq!(d.shown_idx(), 5);
    assert_eq!(d.take_load_requests(), vec![5, 6, 7, 8, 4]);
    assert!(d.is_pending(3));
    assert!(!d.is_pending(0));
    assert!(!d.is_pending(1));
}

#[test]
fn set_shown_clamps_the_index() {
    let policy = ImageLoadingPolicy::new(1, 1, 2);
    let mut d = open(10, &policy);
    d.set_shown(42, &policy);
    assert_eq!(d.shown_idx(), 9);
}

#[test]
fn received_image_is_cached() {
    let policy = ImageLoadingPolicy::new(1, 1, 2);
    let mut d = open(10, &policy);
    assert_eq!(d.receive_image(0, Some("zero".to_string())), Receipt::Stored);
    assert_eq!(d.current_image(), Some(&"zero".to_string()));
    assert!(!d.is_pending(0));
    assert_eq!(d.receive_image(0, Some("again".to_string())), Receipt::Discarded);
    assert_eq!(d.current_image(), Some(&"zero".to_string()));
}

#[test]
fn failed_load_is_requested_again_only_on_the_next_update() {
    let policy = ImageLoadingPolicy::new(1, 1, 2);
    let mut d = open(10, &policy);
    d.take_load_requests();
    assert_eq!(d.receive_image(1, None), Receipt::Failed);
    assert!(!d.is_pending(1));
    assert!(d.image_at(1).is_none());
    assert!(d.take_load_requests().is_empty());
    d.offset_current(1, &policy);
    assert_eq!(d.take_load_requests(), vec![1]);
}

#[test]
fn cache_and_pending_stay_disjoint_under_any_delivery_order() {
    let policy = ImageLoadingPolicy::new(1, 1, 2);
    let n = 12;
    let mut d = open(n, &policy);
    let mut inflight: Vec<usize> = d.take_load_requests();
    let steps: [usize; 6] = [5, 6, 11, 2, 0, 7];
    for (step, shown) in steps.iter().enumerate() {
        d.set_shown(*shown, &policy);
        inflight.extend(d.take_load_requests());
        let deliver: Vec<usize> = if step % 2 == 0 {
            inflight.drain(..).rev().collect()
        } else {
            inflight.drain(..inflight.len() / 2).collect()
        };
        for idx in deliver {
            d.receive_image(idx, Some(format!("img{}", idx)));
            assert_disjoint(&d, n);
        }
        assert_disjoint(&d, n);
    }
}

#[test]
fn late_result_for_evicted_index_is_discarded() {
    let policy = ImageLoadingPolicy::new(1, 1, 2);
    let mut d = open(10, &policy);
    d.take_load_requests();
    d.set_shown(5, &policy);
    assert!(d.is_pending(4));
    d.set_shown(9, &policy);
    assert!(!d.is_pending(4));
    assert!(d.image_at(4).is_none());
    assert_eq!(d.receive_image(4, Some("late".to_string())), Receipt::Discarded);
    assert!(d.image_at(4).is_none());
    assert!(!d.is_pending(4));
}

#[test]
fn moving_away_evicts_cached_images() {
    let policy = ImageLoadingPolicy::new(1, 1, 2);
    let mut d = open(10, &policy);
    assert_eq!(d.receive_image(2, Some("two".to_string())), Receipt::Stored);
    d.set_shown(9, &policy);
    assert!(d.image_at(2).is_none());
    d.set_shown(0, &policy);
    assert_eq!(d.take_load_requests().contains(&2), true);
}

#[test]
fn offset_current_holds_at_the_ends() {
    let policy = ImageLoadingPolicy::new(1, 1, 2);
    let mut d = open(3, &policy);
    d.offset_current(-1, &policy);
    assert_eq!(d.current_collection_idx(), 0);
    d.offset_current(1, &policy);
    d.offset_current(1, &policy);
    d.offset_current(1, &policy);
    assert_eq!(d.current_collection_idx(), 2);
}

#[test]
fn rating_the_shown_image() {
    let policy = ImageLoadingPolicy::new(1, 1, 2);
    let mut d = open(5, &policy);
    d.set_shown(2, &policy);
    assert_eq!(d.get_current_rating(), Rating::Low);
    let text = d.set_current_rating(Rating::High).unwrap();
    assert!(text.contains("img02.jpg: 2"));
    assert_eq!(d.get_current_rating(), Rating::High);
}

#[test]
fn rating_filter_narrows_the_positions() {
    let policy = ImageLoadingPolicy::new(1, 1, 2);
    let sidecar = "img01.jpg: 2\nimg03.jpg: 2\nimg04.jpg: 1\n";
    let mut d: LoadedDir<String> = LoadedDir::new(numbered(6), Some(sidecar), &policy).unwrap();
    d.set_shown(2, &policy);
    d.set_rating_filter(Some(Rating::High), &policy);
    assert_eq!(d.get_rating_filter(), Some(Rating::High));
    assert_eq!(d.current_collection_idx(), 3);
    d.offset_current(-1, &policy);
    assert_eq!(d.current_collection_idx(), 1);
    d.offset_current(-1, &policy);
    assert_eq!(d.current_collection_idx(), 1);
    d.set_rating_filter(None, &policy);
    assert_eq!(d.get_rating_filter(), None);
    assert_eq!(d.current_collection_idx(), 1);
}

#[test]
fn filter_that_nothing_passes_changes_nothing() {
    let policy = ImageLoadingPolicy::new(1, 1, 2);
    let mut d = open(4, &policy);
    d.set_shown(2, &policy);
    d.set_rating_filter(Some(Rating::Medium), &policy);
    assert_eq!(d.get_rating_filter(), None);
    assert_eq!(d.current_collection_idx(), 2);
}

#[test]
fn filter_past_the_last_match_shows_the_last() {
    let policy = ImageLoadingPolicy::new(1, 1, 2);
    let mut d: LoadedDir<String> =
        LoadedDir::new(numbered(6), Some("img01.jpg: 1\n"), &policy).unwrap();
    d.set_shown(4, &policy);
    d.set_rating_filter(Some(Rating::Medium), &policy);
    assert_eq!(d.current_collection_idx(), 1);
}
