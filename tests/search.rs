use hanoi::filter::{filter_path, parse_filter, Filter};
use hanoi::index::{Entry, Event, EventKind, Index, Observed};

fn corpus() -> Vec<Entry> {
    vec![
        Entry { path: b"/r/a.txt".to_vec(), contents: b"hello world\nHELLO\n".to_vec() },
        Entry { path: b"/r/b.txt".to_vec(), contents: b"other".to_vec() },
    ]
}

fn txt_only() -> Vec<Filter> {
    let mut filters = Vec::new();
    parse_filter(b"*.txt", &mut filters);
    filters
}

fn lines(v: Vec<Vec<u8>>) -> Vec<String> {
    v.into_iter().map(|l| String::from_utf8(l).unwrap()).collect()
}

#[test]
fn search_plain_mode_is_case_sensitive() {
    let idx = Index::build(b"/r".to_vec(), corpus(), &txt_only());
    assert_eq!(idx.len(), 2);
    let found = lines(idx.find(b"hello", false));
    assert_eq!(found, vec!["/r/a.txt:1: hello world".to_string()]);
}

#[test]
fn search_word_mode_same_result() {
    let idx = Index::build(b"/r".to_vec(), corpus(), &txt_only());
    let found = lines(idx.find(b"hello", true));
    assert_eq!(found, vec!["/r/a.txt:1: hello world".to_string()]);
}

#[test]
fn search_word_mode_rejects_inner_match() {
    let idx = Index::build(b"/r".to_vec(), corpus(), &txt_only());
    assert!(idx.find(b"ello", true).is_empty());
    assert_eq!(idx.find(b"ello", false).len(), 1);
}

#[test]
fn word_mode_neighbours() {
    let mut idx = Index::new(b"/r".to_vec());
    idx.insert(b"/r/w".to_vec(), b"xhello\nhello_there\n(hello)\nhellox hello\nhello1".to_vec());
    let found = lines(idx.find(b"hello", true));
    assert_eq!(
        found,
        vec![
            "/r/w:2: hello_there".to_string(),
            "/r/w:3: (hello)".to_string(),
            "/r/w:4: hellox hello".to_string(),
        ]
    );
}

#[test]
fn line_numbers_and_carriage_returns() {
    let mut idx = Index::new(b"/r".to_vec());
    let mut text = Vec::new();
    for i in 0..11 {
        if i == 10 {
            text.extend_from_slice(b"needle here\r\n");
        } else {
            text.extend_from_slice(b"nothing\n");
        }
    }
    idx.insert(b"/r/n".to_vec(), text);
    let found = lines(idx.find(b"needle", false));
    assert_eq!(found, vec!["/r/n:11: needle here".to_string()]);
}

#[test]
fn empty_file_and_empty_index() {
    let mut idx = Index::new(b"/r".to_vec());
    assert!(idx.find(b"a", false).is_empty());
    assert!(idx.list_files().is_empty());
    idx.insert(b"/r/e".to_vec(), Vec::new());
    assert!(idx.find(b"a", false).is_empty());
    assert_eq!(idx.list_files(), vec![b"/r/e".to_vec()]);
}

#[test]
fn bulk_build_keeps_only_filtered_files() {
    let mut loaded = corpus();
    loaded.push(Entry { path: b"/r/c.log".to_vec(), contents: b"hello".to_vec() });
    loaded.push(Entry { path: b"/elsewhere/d.txt".to_vec(), contents: b"hello".to_vec() });
    let idx = Index::build(b"/r".to_vec(), loaded, &txt_only());
    assert_eq!(idx.list_files(), vec![b"/r/a.txt".to_vec(), b"/r/b.txt".to_vec()]);
    assert_eq!(idx.root(), &b"/r".to_vec());
}

#[test]
fn bulk_build_later_copy_wins() {
    let mut loaded = corpus();
    loaded.push(Entry { path: b"/r/a.txt".to_vec(), contents: b"new".to_vec() });
    let idx = Index::build(b"/r".to_vec(), loaded, &txt_only());
    assert_eq!(idx.len(), 2);
    assert_eq!(idx.get(b"/r/a.txt"), Some(&b"new".to_vec()));
}

#[test]
fn remove_event_drops_file_from_results() {
    let filters = txt_only();
    let mut idx = Index::build(b"/r".to_vec(), corpus(), &filters);
    let ev = Event {
        kind: EventKind::Remove,
        paths: vec![Observed { path: b"/r/a.txt".to_vec(), contents: None }],
    };
    idx.handle_event(&ev, &filters);
    assert!(idx.find(b"hello", false).is_empty());
    assert_eq!(idx.list_files(), vec![b"/r/b.txt".to_vec()]);
}

#[test]
fn events_are_idempotent() {
    let filters = txt_only();
    let mut idx = Index::build(b"/r".to_vec(), corpus(), &filters);
    let ev = Event {
        kind: EventKind::Modify,
        paths: vec![Observed { path: b"/r/c.txt".to_vec(), contents: Some(b"hello again".to_vec()) }],
    };
    idx.handle_event(&ev, &filters);
    let once = (idx.list_files(), idx.find(b"hello", false));
    idx.handle_event(&ev, &filters);
    let twice = (idx.list_files(), idx.find(b"hello", false));
    assert_eq!(once, twice);
    assert_eq!(once.0.len(), 3);

    let gone = Event {
        kind: EventKind::Remove,
        paths: vec![Observed { path: b"/r/none.txt".to_vec(), contents: None }],
    };
    idx.handle_event(&gone, &filters);
    assert_eq!(idx.list_files(), once.0);
}

#[test]
fn events_respect_filters_and_kinds() {
    let filters = txt_only();
    let mut idx = Index::build(b"/r".to_vec(), corpus(), &filters);
    let ev = Event {
        kind: EventKind::Create,
        paths: vec![
            Observed { path: b"/r/x.log".to_vec(), contents: Some(b"hello".to_vec()) },
            Observed { path: b"/r/dir.txt".to_vec(), contents: None },
        ],
    };
    idx.handle_event(&ev, &filters);
    assert_eq!(idx.len(), 2);
    let other = Event {
        kind: EventKind::Other,
        paths: vec![Observed { path: b"/r/a.txt".to_vec(), contents: None }],
    };
    idx.handle_event(&other, &filters);
    assert_eq!(idx.len(), 2);
    let modify = Event {
        kind: EventKind::Modify,
        paths: vec![Observed { path: b"/r/b.txt".to_vec(), contents: Some(b"hello b".to_vec()) }],
    };
    idx.handle_event(&modify, &filters);
    assert_eq!(idx.list_files(), vec![b"/r/a.txt".to_vec(), b"/r/b.txt".to_vec()]);
    assert_eq!(lines(idx.find(b"hello b", false)), vec!["/r/b.txt:1: hello b".to_string()]);
}

#[test]
fn insert_and_remove() {
    let mut idx = Index::new(b"/r".to_vec());
    idx.insert(b"/r/a".to_vec(), b"1".to_vec());
    idx.insert(b"/r/b".to_vec(), b"2".to_vec());
    idx.insert(b"/r/a".to_vec(), b"3".to_vec());
    assert_eq!(idx.position(b"/r/a"), Some(0));
    assert_eq!(idx.get(b"/r/a"), Some(&b"3".to_vec()));
    idx.remove(b"/r/a");
    assert_eq!(idx.position(b"/r/a"), None);
    assert_eq!(idx.list_files(), vec![b"/r/b".to_vec()]);
}

#[test]
fn walker_descends_into_kept_directories() {
    let mut filters = Vec::new();
    parse_filter(b"!target/", &mut filters);
    assert!(!filter_path(&filters, b"/r/target", b"/r", true));
    assert!(filter_path(&filters, b"/r/src", b"/r", true));
    assert!(filter_path(&filters, b"/other", b"/r", true));
    assert!(!filter_path(&filters, b"/other", b"/r", false));
}
