use fotoleine::errors::RatingsLoadError;
use fotoleine::rating::{ImageRatings, Rating};

fn names(list: &[&str]) -> Vec<String> {
    list.iter().map(|s| s.to_string()).collect()
}

#[test]
fn rating_levels() {
    assert_eq!(Rating::from_u8(0), Rating::Low);
    assert_eq!(Rating::from_u8(1), Rating::Medium);
    assert_eq!(Rating::from_u8(2), Rating::High);
    assert_eq!(Rating::from_u8(7), Rating::High);
    assert_eq!(Rating::Low.to_u8(), 0);
    assert_eq!(Rating::Medium.to_u8(), 1);
    assert_eq!(Rating::High.to_u8(), 2);
    assert_eq!(Rating::max(), 2);
}

#[test]
fn missing_sidecar_rates_everything_low() {
    let known = names(&["a.jpg", "b.jpg"]);
    let ratings = ImageRatings::new(&known, None).unwrap();
    assert_eq!(ratings.get_rating(&"a.jpg".to_string()), Rating::Low);
    assert_eq!(ratings.get_rating(&"b.jpg".to_string()), Rating::Low);
    assert!(ratings.document().is_empty());
}

#[test]
fn medium_rating_survives_save_and_reload() {
    let known = names(&["a.jpg", "b.jpg"]);
    let mut ratings = ImageRatings::new(&known, None).unwrap();
    let text = ratings.set_rating("a.jpg".to_string(), Rating::Medium).unwrap();
    assert!(text.contains("a.jpg: 1"));
    let reloaded = ImageRatings::new(&known, Some(text.as_str())).unwrap();
    assert_eq!(reloaded.get_rating(&"a.jpg".to_string()), Rating::Medium);
    assert_eq!(reloaded.get_rating(&"b.jpg".to_string()), Rating::Low);
}

#[test]
fn low_rating_removes_the_entry() {
    let known = names(&["a.jpg"]);
    let mut ratings = ImageRatings::new(&known, None).unwrap();
    ratings.set_rating("a.jpg".to_string(), Rating::High).unwrap();
    assert_eq!(ratings.document(), vec![("a.jpg".to_string(), 2u8)]);
    let text = ratings.set_rating("a.jpg".to_string(), Rating::Low).unwrap();
    assert!(ratings.document().is_empty());
    assert!(!text.contains("a.jpg"));
    assert_eq!(ratings.get_rating(&"a.jpg".to_string()), Rating::Low);
}

#[test]
fn orphaned_rating_is_written_back() {
    let known = names(&["a.jpg"]);
    let ratings = ImageRatings::new(&known, Some("gone.jpg: 2\na.jpg: 1\n")).unwrap();
    assert_eq!(ratings.get_rating(&"a.jpg".to_string()), Rating::Medium);
    assert_eq!(ratings.get_rating(&"gone.jpg".to_string()), Rating::Low);
    let mut doc = ratings.document();
    doc.sort();
    assert_eq!(doc, vec![("a.jpg".to_string(), 1u8), ("gone.jpg".to_string(), 2u8)]);
    let text = ratings.save_ratings().unwrap();
    assert!(text.contains("gone.jpg: 2"));
    assert!(text.find("a.jpg").unwrap() < text.find("gone.jpg").unwrap());
}

#[test]
fn out_of_range_level_is_clamped() {
    let known = names(&["a.jpg"]);
    let ratings = ImageRatings::new(&known, Some("a.jpg: 5\nx.jpg: 9\n")).unwrap();
    assert_eq!(ratings.get_rating(&"a.jpg".to_string()), Rating::High);
    let mut doc = ratings.document();
    doc.sort();
    assert_eq!(doc, vec![("a.jpg".to_string(), 2u8), ("x.jpg".to_string(), 2u8)]);
}

#[test]
fn stored_low_entry_is_not_kept() {
    let known = names(&["a.jpg"]);
    let ratings = ImageRatings::new(&known, Some("a.jpg: 0\n")).unwrap();
    assert!(ratings.document().is_empty());
}

#[test]
fn malformed_sidecar_is_a_deserialize_error() {
    let known = names(&["a.jpg"]);
    let res = ImageRatings::new(&known, Some("- just\n- a list\n"));
    assert!(matches!(res, Err(RatingsLoadError::DeserializeError(_))));
    let res = ImageRatings::new(&known, Some("a.jpg: 1e400000\n"));
    assert!(matches!(res, Err(RatingsLoadError::DeserializeError(_))));
}

#[test]
fn setting_an_orphaned_name_takes_it_over() {
    let known = names(&["a.jpg"]);
    let mut ratings = ImageRatings::new(&known, Some("gone.jpg: 2\n")).unwrap();
    ratings.set_rating("gone.jpg".to_string(), Rating::Low).unwrap();
    assert!(ratings.document().is_empty());
}

#[test]
fn entries_load_in_order() {
    let known = names(&["a.jpg"]);
    let entries = vec![("a.jpg".to_string(), 2i64), ("a.jpg".to_string(), 1i64)];
    let ratings = ImageRatings::from_entries(&known, &entries);
    assert_eq!(ratings.get_rating(&"a.jpg".to_string()), Rating::Medium);
}

#[test]
fn document_is_in_name_order() {
    let known = names(&["b.jpg", "a.jpg", "c.jpg"]);
    let mut ratings = ImageRatings::new(&known, Some("zz.jpg: 1\n0.jpg: 2\n")).unwrap();
    ratings.set_rating("c.jpg".to_string(), Rating::High).unwrap();
    let text = ratings.set_rating("a.jpg".to_string(), Rating::Medium).unwrap();
    assert_eq!(
        ratings.document(),
        vec![
            ("0.jpg".to_string(), 2u8),
            ("a.jpg".to_string(), 1u8),
            ("c.jpg".to_string(), 2u8),
            ("zz.jpg".to_string(), 1u8),
        ]
    );
    let zero = text.find("0.jpg").unwrap();
    let a = text.find("a.jpg").unwrap();
    let c = text.find("c.jpg").unwrap();
    let zz = text.find("zz.jpg").unwrap();
    assert!(zero < a && a < c && c < zz);
}

#[test]
fn wide_levels_are_clamped() {
    let known = names(&["a.jpg", "b.jpg"]);
    let ratings = ImageRatings::new(&known, Some("a.jpg: 300\nb.jpg: -1\ngone.jpg: -7\n")).unwrap();
    assert_eq!(ratings.get_rating(&"a.jpg".to_string()), Rating::High);
    assert_eq!(ratings.get_rating(&"b.jpg".to_string()), Rating::Low);
    assert_eq!(ratings.document(), vec![("a.jpg".to_string(), 2u8), ("gone.jpg".to_string(), 0u8)]);
    assert_eq!(Rating::from_level(-3), Rating::Low);
    assert_eq!(Rating::from_level(1), Rating::Medium);
    assert_eq!(Rating::from_level(i64::MAX), Rating::High);
}

#[test]
fn flat_maps_with_deep_indentation_or_dashes_load() {
    let known = names(&["a.jpg"]);
    let indented = format!("{}a.jpg: 1\n{}b.jpg: 2\n", " ".repeat(40), " ".repeat(40));
    let ratings = ImageRatings::new(&known, Some(indented.as_str())).unwrap();
    assert_eq!(ratings.get_rating(&"a.jpg".to_string()), Rating::Medium);
    let dashes = format!("{}x.jpg: 2\n", "-".repeat(60));
    let ratings = ImageRatings::new(&known, Some(dashes.as_str())).unwrap();
    assert_eq!(ratings.document().len(), 1);
    let commented = (0..80).map(|i| format!("{}# note\n", " ".repeat(i))).collect::<String>() + "a.jpg: 2\n";
    let ratings = ImageRatings::new(&known, Some(commented.as_str())).unwrap();
    assert_eq!(ratings.get_rating(&"a.jpg".to_string()), Rating::High);
}

#[test]
fn deep_nesting_is_rejected_before_parsing() {
    let known = names(&["a.jpg"]);
    let text = "- ".repeat(600) + "1";
    let res = ImageRatings::new(&known, Some(text.as_str()));
    assert!(matches!(res, Err(RatingsLoadError::TooDeeplyNested)));
    let mut staircase = String::from("a:\n");
    for depth in 0..60 {
        staircase.push_str(&" ".repeat(2 * depth));
        staircase.push_str("- a:\n");
    }
    let res = ImageRatings::new(&known, Some(staircase.as_str()));
    assert!(matches!(res, Err(RatingsLoadError::TooDeeplyNested)));
}

#[test]
fn deepest_nesting_within_bound_fails_cleanly() {
    let known = names(&["a.jpg"]);
    let long = format!("{}: 2\n", "x".repeat(1000));
    let ratings = ImageRatings::new(&known, Some(long.as_str())).unwrap();
    assert_eq!(ratings.document()[0].1, 2);

    let mut staircase = String::from("a:\n");
    for depth in 0..46 {
        staircase.push_str(&" ".repeat(2 * depth));
        staircase.push_str("- a:\n");
    }
    staircase.push_str(&" ".repeat(92));
    staircase.push_str("- ");
    staircase.push_str(&"[".repeat(255));
    staircase.push_str(&"]".repeat(255));
    staircase.push('\n');
    let res = ImageRatings::new(&known, Some(staircase.as_str()));
    assert!(matches!(res, Err(RatingsLoadError::DeserializeError(_))));

    let compact = "- ".repeat(47) + "1";
    let res = ImageRatings::new(&known, Some(compact.as_str()));
    assert!(matches!(res, Err(RatingsLoadError::DeserializeError(_))));
}
