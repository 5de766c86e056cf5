use terraria_fishing_bot::sonar_detector::SonarDetector;
use terraria_fishing_bot::text::{split_ranges, trim_range, white_space};

fn strings(v: &[&str]) -> Vec<String> {
    v.iter().map(|s| s.to_string()).collect()
}

#[test]
fn exact_word_is_needed() {
    assert!(SonarDetector::is_needed_string("bass", strings(&["bass"]), 1));
    assert!(!SonarDetector::is_needed_string("bass", strings(&["bass"]), 0));
    assert!(!SonarDetector::is_needed_string("bass", strings(&[]), 5));
}

#[test]
fn levenshtein_threshold_is_strict() {
    // kitten -> sitting takes 3 edits
    assert!(!SonarDetector::is_needed_string("kitten", strings(&["sitting"]), 3));
    assert!(SonarDetector::is_needed_string("kitten", strings(&["sitting"]), 4));
    assert!(SonarDetector::is_needed_string("bomb fish", strings(&["x", "bomb  fish"]), 2));
}

#[test]
fn ocr_texts_are_cleaned_and_trimmed() {
    let texts = strings(&["  Bass@! ", "###", "", "The most\tcommon", "Crate"]);
    assert_eq!(
        SonarDetector::strings_from_texts(&texts),
        strings(&["Bass !", "The most\tcommon", "Crate"])
    );
    let texts = strings(&["ä-1,2?"]);
    assert_eq!(SonarDetector::strings_from_texts(&texts), strings(&["-1,2?"]));
}

#[test]
fn wanted_items_are_comma_separated_and_untrimmed() {
    let seen = strings(&["bomb"]);
    assert!(!SonarDetector::wants_any("crate, bomb", &seen, 1));
    assert!(SonarDetector::wants_any("crate, bomb", &seen, 2));
    assert!(SonarDetector::wants_any("crate,bomb", &seen, 1));
    assert!(!SonarDetector::wants_any("", &seen, 1));
    assert!(SonarDetector::wants_any(",", &strings(&[""]), 1));
}

#[test]
fn trim_bounds_skip_unicode_white_space() {
    let s: Vec<char> = " \u{3000}ab c\t\n".chars().collect();
    assert_eq!(trim_range(&s), (2, 6));
    let blank: Vec<char> = " \u{a0} ".chars().collect();
    let (a, b) = trim_range(&blank);
    assert_eq!(a, b);
    assert_eq!(trim_range(&Vec::new()), (0, 0));
    assert!(white_space('\u{2028}') && !white_space('x'));
}

#[test]
fn comma_pieces_keep_empty_ones() {
    let s: Vec<char> = "a,,bc".chars().collect();
    assert_eq!(split_ranges(&s), vec![(0, 1), (2, 2), (3, 5)]);
    assert_eq!(split_ranges(&Vec::new()), vec![(0, 0)]);
    let s: Vec<char> = "x,".chars().collect();
    assert_eq!(split_ranges(&s), vec![(0, 1), (2, 2)]);
}
