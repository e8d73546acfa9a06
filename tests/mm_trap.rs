use easy_os::address::get_base_i;
use easy_os::page_table::{FrameStore, root_of_token, token, PageTableEntry, PTE_R, PTE_U, PTE_V, PTE_W, PTE_X};
use easy_os::pipe::{pipe_read_step, PipeRingBuffer, PipeStep};
use easy_os::trap::{arg_layout, trap_decision, TrapAction, TrapCause};

#[test]
fn page_table_entry_fields() {
    let e = PageTableEntry::new(0x8_0123, PTE_V | PTE_R | PTE_W | PTE_U);
    assert_eq!(e.ppn(), 0x8_0123);
    assert_eq!(e.flags(), PTE_V | PTE_R | PTE_W | PTE_U);
    assert!(e.is_valid());
    assert!(e.readable());
    assert!(e.writable());
    assert!(!e.executable());
    assert_eq!(e.bits, (0x8_0123u64 << 10) | 0x17);
    let x = PageTableEntry::new(1, PTE_X);
    assert!(!x.is_valid());
    assert!(x.executable());
    assert!(!PageTableEntry::empty().is_valid());
    let t = token(0x8_0400);
    assert_eq!(t, (8u64 << 60) | 0x8_0400);
    assert_eq!(root_of_token(t), 0x8_0400);
}

#[test]
fn trap_decisions() {
    let mut x = [0usize; 32];
    x[17] = 64;
    x[10] = 1;
    x[11] = 0x1000;
    x[12] = 5;
    match trap_decision(TrapCause::UserEnvCall, 0x100, &x) {
        TrapAction::Syscall { id, args, sepc } => {
            assert_eq!(id, 64);
            assert_eq!(args, [1, 0x1000, 5, 0, 0]);
            assert_eq!(sepc, 0x104);
        },
        _ => panic!("expected a system call"),
    }
    assert!(matches!(trap_decision(TrapCause::LoadPageFault, 0, &x), TrapAction::Exit(-2)));
    assert!(matches!(trap_decision(TrapCause::StoreFault, 0, &x), TrapAction::Exit(-2)));
    assert!(matches!(trap_decision(TrapCause::IllegalInstruction, 0, &x), TrapAction::Exit(-3)));
    assert!(matches!(trap_decision(TrapCause::SupervisorTimer, 0, &x), TrapAction::Yield));
    assert!(matches!(trap_decision(TrapCause::Other, 0, &x), TrapAction::Fatal));
}

#[test]
fn exec_argument_layout() {
    let args = vec![b"prog".to_vec(), b"-v".to_vec()];
    let l = arg_layout(0x1_0000, &args);
    assert_eq!(l.argv_base, 0x1_0000 - 3 * 8);
    assert_eq!(l.strings, vec![0x1_0000 - 24 - 5, 0x1_0000 - 24 - 5 - 3]);
    assert_eq!(l.sp % 8, 0);
    assert!(l.sp <= 0x1_0000 - 24 - 8);
    assert!(0x1_0000 - 24 - 8 - l.sp < 8);
    let none = arg_layout(0x2000, &vec![]);
    assert_eq!(none.argv_base, 0x2000 - 8);
    assert_eq!(none.sp, 0x2000 - 8);
    assert!(none.strings.is_empty());
}

#[test]
fn pipe_buffer_order() {
    let mut p = PipeRingBuffer::new();
    assert_eq!(p.available_read(), 0);
    assert_eq!(p.available_write(), 32);
    for i in 0..32u8 {
        p.write_byte(i);
    }
    assert_eq!(p.available_write(), 0);
    assert_eq!(p.read_byte(), 0);
    p.write_byte(100);
    let mut buf = [0u8; 40];
    assert_eq!(p.read_into(&mut buf), 32);
    assert_eq!(buf[0], 1);
    assert_eq!(buf[30], 31);
    assert_eq!(buf[31], 100);
    assert_eq!(p.available_read(), 0);
}

#[test]
fn batch_slots() {
    assert_eq!(get_base_i(0), 0x80400000);
    assert_eq!(get_base_i(3), 0x80400000 + 3 * 0x20000);
}

#[test]
fn pipe_reader_steps() {

    assert!(pipe_read_step(5, false, 0) == PipeStep::Done);
    assert!(pipe_read_step(0, true, 3) == PipeStep::Done);
    assert!(pipe_read_step(0, false, 3) == PipeStep::Wait);
    assert!(pipe_read_step(5, false, 3) == PipeStep::Take(3));
    assert!(pipe_read_step(2, true, 3) == PipeStep::Take(2));
}

#[test]
fn map_then_translate() {
    let mut mem = FrameStore::new();
    let root = mem.alloc_frame().unwrap();
    let v = (3usize << 18) | (5 << 9) | 7;
    assert_eq!(mem.translate_va(root, v * 4096), None);
    assert!(mem.map(root, v, 0x8_0123, PTE_R | PTE_W | PTE_U));
    for off in [0usize, 1, 2048, 4095] {
        assert_eq!(mem.translate_va(root, v * 4096 + off), Some(0x8_0123 * 4096 + off as u64));
    }
    assert!(!mem.map(root, v, 0x9_0000, PTE_R));
    // a neighbour page shares the upper tables
    assert!(mem.map(root, v + 1, 0x42, PTE_R));
    assert_eq!(mem.translate_va(root, (v + 1) * 4096 + 9), Some(0x42 * 4096 + 9));
    assert_eq!(mem.translate_va(root, v * 4096 + 9), Some(0x8_0123 * 4096 + 9));
    assert_eq!(mem.translate_va(root, (v + 2) * 4096), None);
    assert!(!mem.map(root + 100, v, 1, PTE_R));
}
