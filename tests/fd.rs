use easy_os::task::FdTable;

#[test]
fn fd_table_slots() {
    let mut t = FdTable::new(10, 11);
    assert_eq!(t.get(0), Some(10));
    assert_eq!(t.get(2), Some(11));
    assert_eq!(t.get(3), None);
    assert_eq!(t.alloc_fd(20), 3);
    assert_eq!(t.close(1), 0);
    assert_eq!(t.close(1), -1);
    assert_eq!(t.close(9), -1);
    assert_eq!(t.alloc_fd(21), 1);
    assert_eq!(t.dup(3), 4);
    assert_eq!(t.get(4), Some(20));
    assert_eq!(t.dup(7), -1);
    assert_eq!(t.close(0), 0);
    assert_eq!(t.dup(4), 0);
    assert_eq!(t.get(0), Some(20));
}
