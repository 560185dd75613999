use bl::tags::{extend_with, has_tag, is_marked, leave_out, normalize_tags, passes_filter, tags_of, tags_of_each};

fn strings(v: &[&str]) -> Vec<String> {
    v.iter().map(|s| s.to_string()).collect()
}

#[test]
fn tags_split_at_commas_and_spaces() {
    assert_eq!(tags_of("art enemies c676 build"), strings(&["art", "enemies", "c676", "build"]));
    assert_eq!(tags_of("art,enemies"), strings(&["art", "enemies"]));
    assert_eq!(tags_of(" art , , ui\tart\n"), strings(&["art", "ui"]));
    assert_eq!(tags_of(" ,, "), Vec::<String>::new());
}

#[test]
fn labels_are_stored_without_blanks_and_repeats() {
    assert_eq!(normalize_tags("art enemies c676 build"), "art,enemies,c676,build");
    assert_eq!(normalize_tags(" ui,,art ui "), "ui,art");
    assert_eq!(normalize_tags(""), "");
}

#[test]
fn normalizing_twice_is_normalizing_once() {
    for s in ["", "a", "a b,a", " x,,y z ", "b\u{a0}c"] {
        let once = normalize_tags(s);
        assert_eq!(normalize_tags(&once), once);
    }
}

#[test]
fn stored_tags_read_back() {
    let v = strings(&["art", "ui", "c676"]);
    assert_eq!(tags_of("art,ui,c676"), v);
}

#[test]
fn a_label_carries_its_tags_and_no_others() {
    assert!(has_tag("art,enemies", "art"));
    assert!(has_tag("art,enemies", "enemies"));
    assert!(!has_tag("art,enemies", "ART"));
    assert!(!has_tag("artwork", "art"));
    assert!(!has_tag("", "art"));
    assert!(!has_tag("axb", "a_b"));
    assert!(has_tag("a_b,x", "a_b"));
    assert!(!has_tag("art", "%"));
    assert!(has_tag("art enemies", "enemies"));
}

#[test]
fn a_label_is_marked_with_a_tag_or_a_run_of_tags() {
    assert!(is_marked("art,ui,x", "ui"));
    assert!(!is_marked("art,ui,x", "u_"));
    assert!(is_marked("art,ui,x", "art,ui"));
    assert!(!is_marked("art,ui,x", "art,x"));
    assert!(is_marked("", ""));
    assert!(!is_marked("art", ""));
    assert!(!is_marked("art,ui", "art ui"));
}

#[test]
fn a_filter_passes_any_of_its_tags() {
    assert!(passes_filter("art,enemies", "ui,art"));
    assert!(!passes_filter("art,enemies", "ui"));
    assert!(passes_filter("", ""));
    assert!(!passes_filter("art", " , "));
    assert!(!passes_filter("c676", "c_76"));
    assert!(!passes_filter("c676,x", "%"));
    assert!(passes_filter("50%,x", "y 50%"));
    assert!(!passes_filter("axb", "a_b"));
}

#[test]
fn adding_and_removing_tags_keeps_the_rest() {
    let list = tags_of("art,enemies");
    let more = tags_of_each(&strings(&["ui art", "x"]));
    assert_eq!(more, strings(&["ui", "art", "x"]));
    let all = extend_with(list, &more);
    assert_eq!(all, strings(&["art", "enemies", "ui", "x"]));
    assert_eq!(leave_out(&all, &strings(&["enemies", "none"])), strings(&["art", "ui", "x"]));
}

#[test]
fn retagging_again_changes_nothing() {
    let plus = strings(&["ui", "x"]);
    let minus = strings(&["art"]);
    let once = leave_out(&extend_with(tags_of("art,enemies"), &plus), &minus);
    let label = once.join(",");
    let twice = leave_out(&extend_with(tags_of(&label), &plus), &minus);
    assert_eq!(once, twice);
}
