//! The icon shortcode scanner on single lines.
use polka::icon::{IconCache, IconScanner, Icon};

fn scan_at(src: &str, pos: usize, after_marker: bool, cache: &mut IconCache) -> Option<(String, usize)> {
    IconScanner { marker: ':' }.scan(src, pos, src.len(), after_marker, cache)
}

fn fresh() -> IconCache {
    IconCache { scanned: false, max: Vec::new() }
}

#[test]
fn scan_whole_shortcode() {
    let mut cache = fresh();
    assert_eq!(scan_at(":lucide-sun:", 0, false, &mut cache), Some(("lucide-sun".to_string(), 12)));
    assert!(!cache.scanned);
    assert!(cache.max.is_empty());
}

#[test]
fn scan_inside_text() {
    let mut cache = fresh();
    assert_eq!(scan_at("x :a-b: y", 2, false, &mut cache), Some(("a-b".to_string(), 5)));
}

#[test]
fn scan_not_on_marker() {
    let mut cache = fresh();
    assert_eq!(scan_at("a-b:", 0, false, &mut cache), None);
}

#[test]
fn scan_after_marker_text() {
    let mut cache = fresh();
    assert_eq!(scan_at(":a-b:", 0, true, &mut cache), None);
    assert!(!cache.scanned);
}

#[test]
fn scan_double_opener() {
    let mut cache = fresh();
    assert_eq!(scan_at("::a-b::", 0, false, &mut cache), None);
    assert!(!cache.scanned);
}

#[test]
fn scan_no_closer_marks_run_scanned() {
    let mut cache = fresh();
    assert_eq!(scan_at(":a-b and more", 0, false, &mut cache), None);
    assert!(cache.scanned);
}

#[test]
fn scan_longer_runs_recorded() {
    // The run `::` at 2 is recorded under its length; the single `:` at 7
    // closes, but `a::b-c` is no icon name.
    let mut cache = fresh();
    assert_eq!(scan_at(":a::b-c:", 0, false, &mut cache), None);
    assert_eq!(cache.max, vec![0, 0, 2]);
    assert!(!cache.scanned);
}

#[test]
fn scan_cache_skips_rescan() {
    // Once the run was scanned to its end with no single marker after `pos`,
    // nothing is found without looking again.
    let mut cache = IconCache { scanned: true, max: Vec::new() };
    assert_eq!(scan_at(":a-b:", 0, false, &mut cache), None);
    let mut cache = IconCache { scanned: true, max: vec![0, 3] };
    assert_eq!(scan_at(":a-b:", 0, false, &mut cache), Some(("a-b".to_string(), 5)));
}

#[test]
fn scan_rejects_invalid_names() {
    let mut cache = fresh();
    assert_eq!(scan_at(":a b:", 0, false, &mut cache), None);
    assert_eq!(scan_at(":ab:", 0, false, &mut cache), None);
    assert_eq!(scan_at(":-ab:", 0, false, &mut cache), None);
    assert_eq!(scan_at("::", 0, false, &mut cache), None);
}

#[test]
fn scan_stops_at_line_end() {
    let mut cache = fresh();
    let src = ":a-b:";
    assert_eq!(IconScanner { marker: ':' }.scan(src, 0, 4, false, &mut cache), None);
    assert!(cache.scanned);
}

#[test]
fn icon_node_strips_comments() {
    let icon = Icon::new(':', "a-b".to_string(), "a/b.svg".to_string(), "<!-- c --><svg/>");
    assert_eq!(icon.svg, "<svg/>");
    assert_eq!(icon.marker_len, 1);
    assert_eq!(icon.name, "a-b");
    assert_eq!(icon.path, "a/b.svg");
}

#[test]
fn scan_exhausted_run_has_no_later_icon() {
    let src = ":a ::b";
    let mut cache = fresh();
    assert_eq!(scan_at(src, 0, false, &mut cache), None);
    assert!(cache.scanned);
    assert_eq!(cache.max, vec![0, 0, 3]);
    // Later openers find nothing either, with or without the cache.
    let mut fresh_cache = fresh();
    assert_eq!(scan_at(src, 4, false, &mut fresh_cache), None);
    assert_eq!(scan_at(src, 4, false, &mut cache), None);
}
