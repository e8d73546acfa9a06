use easy_os::process::{ProcessTable, TrapInit};
use easy_os::task::TaskStatus;

fn init() -> TrapInit {
    TrapInit { entry: 0x1000, user_sp: 0x8000, kernel_satp: 7, kernel_sp: 0x9000, trap_handler: 0x42 }
}

#[test]
fn spawn_and_fork() {
    let mut t = ProcessTable::new();
    assert!(t.add_root(0, init()));
    assert!(!t.add_root(0, init()));
    assert!(t.spawn(0, 1, init()));
    assert!(!t.spawn(0, 1, init()));
    assert!(!t.spawn(9, 2, init()));
    assert!(t.fork(1, 2));
    assert!(!t.fork(5, 3));
    let i = t.find(2).unwrap();
    let j = t.find(1).unwrap();
    assert_ne!(i, j);
    let child = t.get(i);
    let parent = t.get(j);
    assert_eq!(child.a0, 0);
    assert_eq!(parent.a0, 2);
    assert_eq!(child.parent, Some(1));
    assert!(child.trap_cx == parent.trap_cx);
    assert!(child.status == TaskStatus::Ready);
    assert!(t.find(3).is_none());
}

#[test]
fn exit_reparents_and_wait_reaps() {
    let mut t = ProcessTable::new();
    t.add_root(0, init());
    t.spawn(0, 1, init());
    t.spawn(1, 2, init());
    t.spawn(1, 3, init());
    assert_eq!(t.waitpid(0, -1), (-2, None));
    assert_eq!(t.waitpid(0, 7), (-1, None));
    assert!(t.exit(1, 5, 0));
    assert!(!t.exit(0, 1, 0));
    // the children of 1 now belong to 0
    assert_eq!(t.waitpid(1, -1), (-1, None));
    assert_eq!(t.waitpid(0, 1), (1, Some(5)));
    assert!(t.find(1).is_none());
    assert_eq!(t.waitpid(0, -1), (-2, None));
    assert!(t.exit(3, -2, 0));
    assert_eq!(t.waitpid(0, -1), (3, Some(-2)));
    let z = t.get(t.find(2).unwrap());
    assert_eq!(z.parent, Some(0));
}
