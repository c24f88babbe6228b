use showpath::path_entries::{detect_duplicates, duplicate_count, split_path};

fn rejoin(entries: &Vec<String>) -> String {
    entries.join(":")
}

#[test]
fn split_preserves_every_segment() {
    let entries = split_path("/usr/bin:/bin");
    assert_eq!(entries, vec!["/usr/bin".to_string(), "/bin".to_string()]);
}

#[test]
fn split_keeps_empty_segments() {
    let entries = split_path("a::b:");
    assert_eq!(
        entries,
        vec!["a".to_string(), "".to_string(), "b".to_string(), "".to_string()]
    );
}

#[test]
fn rejoining_reproduces_the_input() {
    for input in ["", ":", "a::b:", "/usr/bin:/bin:/usr/bin", "/only"] {
        let entries = split_path(input);
        assert_eq!(rejoin(&entries), input);
    }
}

#[test]
fn empty_path_yields_one_empty_entry_and_no_duplicates() {
    let entries = split_path("");
    assert_eq!(entries, vec!["".to_string()]);
    let marks = detect_duplicates(&entries);
    assert_eq!(marks, vec![false]);
    assert_eq!(duplicate_count(&marks), 0);
}

#[test]
fn repeated_entry_marks_only_later_occurrences() {
    let entries = split_path("/usr/bin:/bin:/usr/bin");
    let marks = detect_duplicates(&entries);
    assert_eq!(marks, vec![false, false, true]);
    assert_eq!(duplicate_count(&marks), 1);
}

#[test]
fn duplicate_count_is_len_minus_distinct() {
    let entries = vec![
        "a".to_string(),
        "b".to_string(),
        "a".to_string(),
        "a".to_string(),
        "b".to_string(),
    ];
    let marks = detect_duplicates(&entries);
    assert_eq!(marks, vec![false, false, true, true, true]);
    // five entries, two distinct values: three duplicate occurrences
    assert_eq!(duplicate_count(&marks), 5 - 2);
}
