use view_allocations::tree::provide_prefix;

fn p(parts: &[&str]) -> Vec<String> {
    parts.iter().map(|s| s.to_string()).collect()
}

#[test]
fn prefixes_signal_one_extra_depth_level() {
    let paths = vec![
        p(&["cpu"]),
        p(&["cpu", "n1"]),
        p(&["cpu", "n2"]),
        p(&["mem"]),
        p(&["mem", "n1"]),
    ];
    let prefixes = provide_prefix(&paths);
    assert_eq!(prefixes, vec!["", "- ", "- ", "", "- "]);
    // the two siblings share one prefix, which differs from their
    // parent's by a full extra level
    assert_eq!(prefixes[1], prefixes[2]);
    assert_ne!(prefixes[0], prefixes[1]);
    assert_eq!(prefixes[1].len(), prefixes[0].len() + 2);
}

#[test]
fn prefixes_grow_with_depth() {
    let paths = vec![p(&["a"]), p(&["a", "b"]), p(&["a", "b", "c"])];
    let prefixes = provide_prefix(&paths);
    assert_eq!(prefixes, vec!["", "- ", "  - "]);
}

#[test]
fn row_without_parent_is_a_root() {
    let paths = vec![p(&["a", "b"])];
    let prefixes = provide_prefix(&paths);
    assert_eq!(prefixes, vec![""]);
}

#[test]
fn parent_is_most_recent_preceding_row() {
    let paths = vec![p(&["a"]), p(&["b"]), p(&["b", "x"])];
    let prefixes = provide_prefix(&paths);
    assert_eq!(prefixes, vec!["", "", "- "]);
}
