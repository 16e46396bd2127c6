use hanoi::config::parse_config;
use hanoi::naming::{channel_name, convert_path, fresh_channel_name};
use hanoi::queue::WorkQueue;
use hanoi::text::decimal_of;

#[test]
fn decimal_rendering() {
    assert_eq!(decimal_of(0), b"0".to_vec());
    assert_eq!(decimal_of(7), b"7".to_vec());
    assert_eq!(decimal_of(1024), b"1024".to_vec());
    assert_eq!(decimal_of(u64::MAX), b"18446744073709551615".to_vec());
}

#[test]
fn socket_names_are_hashes() {
    let a = convert_path(b"/A");
    assert!(!a.is_empty() && a.iter().all(|c| c.is_ascii_digit()));
    assert_ne!(a, b"/A".to_vec());
    assert_eq!(a, convert_path(b"/A"));
    assert_eq!(convert_path(b"C:\\x\\y"), convert_path(b"C:/x/y"));
    assert_ne!(convert_path(b"/A"), convert_path(b"/A/sub"));
}

#[test]
fn reply_channel_names() {
    assert_eq!(channel_name(b"/A", b"xyz"), convert_path(b"/A/xyz"));
    assert_eq!(channel_name(b"/A/", b"xyz"), convert_path(b"/A/xyz"));
    let n1 = fresh_channel_name(b"/A");
    let n2 = fresh_channel_name(b"/A");
    assert!(n1.iter().all(|c| c.is_ascii_digit()));
    assert_ne!(n1, n2);
}

#[test]
fn config_sections() {
    let text = b"# comment\n\n[filters]\n!*.tmp\n  src/  \n[additional_dirs]\r\n/abs/path/to/sibling\n[other]\nignored\n[filters]\n*.rs\n";
    let cfg = parse_config(text);
    assert_eq!(cfg.filters.len(), 3);
    assert!(!cfg.filters[0].should_include);
    assert_eq!(cfg.filters[0].pattern, b".tmp".to_vec());
    assert!(cfg.filters[1].only_dir);
    assert_eq!(cfg.filters[1].pattern, b"src".to_vec());
    assert_eq!(cfg.filters[2].pattern, b".rs".to_vec());
    assert_eq!(cfg.additional_dirs, vec![b"/abs/path/to/sibling".to_vec()]);
}

#[test]
fn config_outside_sections() {
    let cfg = parse_config(b"loose line\n[\n");
    assert!(cfg.filters.is_empty());
    assert!(cfg.additional_dirs.is_empty());
    let empty = parse_config(b"");
    assert!(empty.filters.is_empty());
}

#[test]
fn work_queue_batches() {
    let mut q = WorkQueue::new();
    assert!(q.must_wait());
    let mut staged: Vec<Vec<u8>> = (0..5u8).map(|i| vec![i]).collect();
    q.push_batch(&mut staged, 3);
    assert_eq!(staged, vec![vec![0], vec![1]]);
    assert_eq!(q.len(), 3);
    let (batch, stop) = q.take_batch(2);
    assert_eq!(batch, vec![vec![2], vec![3]]);
    assert!(!stop);
    q.close(&mut staged);
    assert!(staged.is_empty());
    assert!(q.is_stopped());
    assert!(!q.must_wait());
    let (rest, stop) = q.take_batch(1024);
    assert_eq!(rest, vec![vec![1], vec![0], vec![4]]);
    assert!(stop);
    let (none, stop) = q.take_batch(8);
    assert!(none.is_empty() && stop);
}
