use hanoi::filter::{filter_path, parse_filter, relative_path, Filter};
use hanoi::walk::{root_join, Walk};

fn rules(lines: &[&[u8]]) -> Vec<Filter> {
    let mut filters = Vec::new();
    for l in lines {
        parse_filter(l, &mut filters);
    }
    filters
}

#[test]
fn parse_all_markers() {
    let f = rules(&[b"!*abc*"]);
    assert!(!f[0].should_include);
    assert!(!f[0].should_start_with);
    assert!(!f[0].should_end_with);
    assert!(!f[0].only_dir);
    assert_eq!(f[0].pattern, b"abc".to_vec());

    let d = rules(&[b"*build/*"]);
    assert!(d[0].should_include && !d[0].should_start_with && !d[0].should_end_with);
    assert!(d[0].only_dir);
    assert_eq!(d[0].pattern, b"build".to_vec());

    let g = rules(&[b"src/"]);
    assert!(g[0].should_include && g[0].should_start_with && g[0].should_end_with && g[0].only_dir);
    assert_eq!(g[0].pattern, b"src".to_vec());

    let h = rules(&[b"a\\b"]);
    assert_eq!(h[0].pattern, b"a/b".to_vec());

    let e = rules(&[b""]);
    assert!(e[0].should_include && e[0].should_start_with && e[0].should_end_with);
    assert!(e[0].pattern.is_empty());
}

#[test]
fn last_match_wins_log_then_src() {
    let f = rules(&[b"!*.log", b"src/"]);
    assert!(!filter_path(&f, b"/r/src/x.log", b"/r", false));
    assert!(filter_path(&f, b"/r/src", b"/r", true));
}

#[test]
fn last_match_wins_order_matters() {
    let a = rules(&[b"*.txt", b"!*secret*"]);
    let b = rules(&[b"!*secret*", b"*.txt"]);
    assert!(!filter_path(&a, b"/r/secret.txt", b"/r", false));
    assert!(filter_path(&b, b"/r/secret.txt", b"/r", false));
}

#[test]
fn filter_is_deterministic() {
    let a = rules(&[b"docs*", b"!*.md"]);
    let b = rules(&[b"docs*", b"!*.md"]);
    for p in [&b"/r/docs/a.md"[..], b"/r/docs/a.rs", b"/r/x.md", b"/r"] {
        for d in [false, true] {
            assert_eq!(filter_path(&a, p, b"/r", d), filter_path(&b, p, b"/r", d));
            assert_eq!(filter_path(&a, p, b"/r", d), filter_path(&a, p, b"/r", d));
        }
    }
    assert!(filter_path(&a, b"/r/docs/a.rs", b"/r", false));
    assert!(!filter_path(&a, b"/r/docs/a.md", b"/r", false));
}

#[test]
fn default_decisions_without_rules() {
    let none: Vec<Filter> = Vec::new();
    assert!(!filter_path(&none, b"/r/a", b"/r", false));
    assert!(filter_path(&none, b"/r/a", b"/r", true));
}

#[test]
fn anchors() {
    let start = rules(&[b"src*"]);
    assert!(filter_path(&start, b"/r/src/a", b"/r", false));
    assert!(!filter_path(&start, b"/r/a/src", b"/r", false));
    let end = rules(&[b"*.rs"]);
    assert!(filter_path(&end, b"/r/a.rs", b"/r", false));
    assert!(!filter_path(&end, b"/r/a.rsx", b"/r", false));
    let any = rules(&[b"*mid*"]);
    assert!(filter_path(&any, b"/r/amidb", b"/r", false));
    let exact = rules(&[b"a.txt"]);
    assert!(filter_path(&exact, b"/r/a.txt", b"/r", false));
    assert!(!filter_path(&exact, b"/r/b/a.txt", b"/r", false));
}

#[test]
fn relative_paths() {
    assert_eq!(relative_path(b"/r/a/b", b"/r"), Some(b"a/b".to_vec()));
    assert_eq!(relative_path(b"/r/a/b", b"/r/"), Some(b"a/b".to_vec()));
    assert_eq!(relative_path(b"/r", b"/r"), Some(Vec::new()));
    assert_eq!(relative_path(b"/r", b"/r/"), Some(Vec::new()));
    assert_eq!(relative_path(b"/rx/a", b"/r"), None);
    assert_eq!(relative_path(b"/q/a", b"/r"), None);
}

#[test]
fn walk_descends_and_hands_on_files() {
    let mut walk = Walk::new(rules(&[b"!target/", b"*.rs"]));
    assert_eq!(walk.next_dir(), Some(Vec::new()));
    assert_eq!(walk.visit(b"target", true), None);
    assert_eq!(walk.visit(b"src", true), None);
    assert_eq!(walk.visit(b"main.rs", false), Some(b"main.rs".to_vec()));
    assert_eq!(walk.visit(b"notes.txt", false), None);
    assert_eq!(walk.next_dir(), Some(b"src".to_vec()));
    assert_eq!(walk.visit(b"lib.rs", false), Some(b"src/lib.rs".to_vec()));
    assert_eq!(walk.visit(b"target", true), None);
    assert_eq!(walk.next_dir(), Some(b"src/target".to_vec()));
    assert_eq!(walk.next_dir(), None);
    assert_eq!(walk.filters().len(), 2);
    assert_eq!(root_join(b"/r", b"src/lib.rs"), b"/r/src/lib.rs".to_vec());
    assert_eq!(root_join(b"/", b"a"), b"/a".to_vec());
    assert_eq!(walk.into_filters().len(), 2);
}
