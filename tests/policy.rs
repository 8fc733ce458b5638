use fotoleine::policy::ImageLoadingPolicy;

fn small_policy() -> ImageLoadingPolicy {
    ImageLoadingPolicy::new(1, 1, 2)
}

#[test]
fn window_around_middle_is_ordered_by_priority() {
    let policy = small_policy();
    let (pivot, idxs) = policy.get_load_set(5, 5, 10);
    assert_eq!(pivot, 5);
    assert_eq!(idxs, vec![5, 6, 7, 8, 4, 3]);
}

#[test]
fn window_is_clamped_at_start() {
    let policy = small_policy();
    let (pivot, idxs) = policy.get_load_set(0, 0, 10);
    assert_eq!(pivot, 0);
    assert_eq!(idxs, vec![0, 1, 2, 3]);
}

#[test]
fn window_is_clamped_at_end() {
    let policy = small_policy();
    let (pivot, idxs) = policy.get_load_set(9, 9, 10);
    assert_eq!(pivot, 9);
    assert_eq!(idxs, vec![9, 8, 7]);
}

#[test]
fn single_image_collection() {
    let policy = ImageLoadingPolicy::new(2, 2, 5);
    let (pivot, idxs) = policy.get_load_set(0, 0, 1);
    assert_eq!(pivot, 0);
    assert_eq!(idxs, vec![0]);
}

#[test]
fn pivot_stays_inside_buffer_zone() {
    let policy = small_policy();
    let (pivot, idxs) = policy.get_load_set(5, 6, 10);
    assert_eq!(pivot, 5);
    assert_eq!(idxs, vec![5, 6, 7, 8, 4, 3]);
    let (pivot, _) = policy.get_load_set(5, 4, 10);
    assert_eq!(pivot, 5);
}

#[test]
fn pivot_resets_outside_buffer_zone() {
    let policy = small_policy();
    let (pivot, idxs) = policy.get_load_set(5, 7, 10);
    assert_eq!(pivot, 7);
    assert_eq!(idxs, vec![7, 8, 9, 6, 5]);
    let (pivot, idxs) = policy.get_load_set(5, 3, 10);
    assert_eq!(pivot, 3);
    assert_eq!(idxs, vec![3, 4, 5, 6, 2, 1]);
}

#[test]
fn pivot_never_moves_across_calls_within_zone() {
    let policy = ImageLoadingPolicy::new(2, 2, 5);
    let mut pivot = 10;
    for shown in [10usize, 11, 12, 11, 9, 8, 10, 12] {
        let (p, _) = policy.get_load_set(pivot, shown, 40);
        pivot = p;
        assert_eq!(pivot, 10);
    }
}

#[test]
fn resident_set_contains_shown_and_is_bounded() {
    let policy = ImageLoadingPolicy::new(2, 2, 5);
    let n = 30;
    for pivot in 0..n {
        for shown in 0..n {
            let (_, idxs) = policy.get_load_set(pivot, shown, n);
            assert!(idxs.contains(&shown));
            assert!(idxs.len() <= policy.max_loaded_image_count());
        }
    }
}

#[test]
fn ahead_precedes_behind_and_nearer_precedes_farther() {
    let policy = ImageLoadingPolicy::new(2, 3, 4);
    let (pivot, idxs) = policy.get_load_set(12, 12, 30);
    let first_behind = idxs.iter().position(|&i| i < pivot).unwrap();
    assert!(idxs[..first_behind].iter().all(|&i| i >= pivot));
    assert!(idxs[first_behind..].iter().all(|&i| i < pivot));
    for w in idxs[..first_behind].windows(2) {
        assert!(w[0] < w[1]);
    }
    for w in idxs[first_behind..].windows(2) {
        assert!(w[0] > w[1]);
    }
}

#[test]
fn max_loaded_image_count_sums_the_window() {
    assert_eq!(ImageLoadingPolicy::new(2, 2, 5).max_loaded_image_count(), 12);
    assert_eq!(ImageLoadingPolicy::new(0, 0, 0).max_loaded_image_count(), 1);
}

#[test]
fn buffer_zone_range_is_cut_to_usize() {
    let policy = ImageLoadingPolicy::new(3, 0, 0);
    assert_eq!(policy.buffer_zone_range(10), (7, 13));
    assert_eq!(policy.buffer_zone_range(1), (0, 4));
    assert_eq!(policy.buffer_zone_range(usize::MAX - 1), (usize::MAX - 4, usize::MAX));
}

#[test]
fn load_set_around_pivot_past_the_end() {
    let policy = small_policy();
    assert_eq!(policy.load_set_around_pivot(12, 10), vec![9]);
    assert_eq!(policy.load_set_around_pivot(10, 10), vec![9, 8]);
}
