use kernel_rs::klog::{Klog, KLOG_CAP};
use kernel_rs::mount::MountTable;

#[test]
fn mount_longest_prefix_on_component_boundaries() {
    let mut t = MountTable::new();
    assert!(t.mount_register(b"/", 9));
    assert!(t.mount_register(b"/data", 0));
    assert!(t.mount_register(b"/mnt", 1));
    assert!(t.mount_register(b"/data/special", 4));
    assert_eq!(t.mount_lookup(b"/data/file"), Some(0));
    assert_eq!(t.mount_lookup(b"/mnt/HELLO.TXT"), Some(1));
    assert_eq!(t.mount_lookup(b"/data/special/x"), Some(4));
    assert_eq!(t.mount_lookup(b"/other"), Some(9));
    assert_eq!(t.mount_lookup(b"/database/x"), Some(9));
    assert_eq!(t.mount_lookup(b"/data"), Some(0));
}

#[test]
fn mount_register_rejects_bad_prefixes_and_full_table() {
    let mut t = MountTable::new();
    assert!(!t.mount_register(b"", 1));
    assert!(!t.mount_register(&[b'a'; 25], 1));
    for i in 0..8u8 {
        assert!(t.mount_register(b"/x", i));
    }
    assert!(!t.mount_register(b"/y", 0));
    // the first of equal-length matches wins
    assert_eq!(t.mount_lookup(b"/x/z"), Some(0));
    t.mount_clear();
    assert_eq!(t.mount_lookup(b"/x"), None);
    assert!(t.mount_register(b"/y", 3));
}

#[test]
fn mount_no_root_means_no_match() {
    let mut t = MountTable::new();
    assert!(t.mount_register(b"/data", 2));
    assert_eq!(t.mount_lookup(b"/dat"), None);
    assert_eq!(t.mount_lookup(b""), None);
}

#[test]
fn klog_reads_latest_bytes_in_order() {
    let mut k = Klog::new();
    k.klog_append(b"hello ");
    k.klog_append(b"world");
    assert_eq!(k.klog_read(5), b"world".to_vec());
    assert_eq!(k.klog_read(100), b"hello world".to_vec());
    assert_eq!(k.klog_read(0), Vec::<u8>::new());
}

#[test]
fn klog_overwrites_oldest_when_full() {
    let mut k = Klog::new();
    let first: Vec<u8> = (0..KLOG_CAP).map(|i| (i % 200) as u8).collect();
    k.klog_append(&first);
    k.klog_append(b"XYZ");
    assert_eq!(k.len(), KLOG_CAP);
    let all = k.klog_read(KLOG_CAP);
    assert_eq!(all.len(), KLOG_CAP);
    assert_eq!(&all[..KLOG_CAP - 3], &first[3..]);
    assert_eq!(&all[KLOG_CAP - 3..], b"XYZ");
}

#[test]
fn mount_selftest_reports_ok_and_leaves_table_empty() {
    let mut t = MountTable::new();
    assert!(t.mount_register(b"/stale", 5));
    let mut out = Vec::new();
    assert_eq!(t.mount_selftest(&mut out), 1);
    assert_eq!(out, b"MOUNT: table ok\n".to_vec());
    assert_eq!(t.mount_lookup(b"/stale"), None);
}
