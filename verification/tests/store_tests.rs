use site_mirror::store::MemStore;

#[test]
fn write_to_fresh_path_writes() {
    let mut s = MemStore::new();
    assert!(!s.holds(b"out/site/index.html"));
    assert!(s.write_if_absent(b"out/site/index.html".to_vec(), b"<html>".to_vec()));
    assert!(s.holds(b"out/site/index.html"));
}

#[test]
fn rerun_writes_zero_new_bytes_for_materialized_paths() {
    let mut s = MemStore::new();
    assert!(s.write_if_absent(b"out/x/a.html".to_vec(), b"first run".to_vec()));
    // A later run reaches the same artifact: the write is a no-op.
    assert!(!s.write_if_absent(b"out/x/a.html".to_vec(), b"second run".to_vec()));
    assert!(!s.write_if_absent(b"out/x/a.html".to_vec(), b"third run".to_vec()));
    assert!(s.holds(b"out/x/a.html"));
}

#[test]
fn distinct_paths_do_not_interfere() {
    let mut s = MemStore::new();
    assert!(s.write_if_absent(b"out/x/a.html".to_vec(), b"a".to_vec()));
    assert!(s.write_if_absent(b"out/x/b.html".to_vec(), b"b".to_vec()));
    assert!(!s.write_if_absent(b"out/x/a.html".to_vec(), b"again".to_vec()));
    assert!(s.holds(b"out/x/a.html"));
    assert!(s.holds(b"out/x/b.html"));
    assert!(!s.holds(b"out/x/c.html"));
}
