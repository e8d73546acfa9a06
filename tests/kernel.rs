use easy_os::address::{PhysAddr, SimpleRange, StepByOne, VirtAddr, VirtPageNum};
use easy_os::layout::DirEntry;
use easy_os::mail::RingBuffer;
use easy_os::syscall::{decode_syscall, mmap_permission, munmap_check, OpenFlags, Syscall};
use easy_os::task::{charge, set_priority, waitpid_code, waitpid_select, Stride, TaskEntry, TaskManager, WaitResult};

#[test]
fn address_arithmetic() {
    let va = VirtAddr::new(0x1234_5678);
    assert_eq!(va.floor().0, 0x12345);
    assert_eq!(va.ceil().0, 0x12346);
    assert_eq!(va.page_offset(), 0x678);
    assert!(!va.aligned());
    let a = VirtAddr::new(0x5000);
    assert!(a.aligned());
    assert_eq!(a.ceil().0, 5);
    assert_eq!(VirtAddr::new(0).ceil().0, 0);
    let pa = PhysAddr::new(4096 * 3 + 17);
    assert_eq!(pa.floor().start_addr().0 + pa.page_offset(), 4096 * 3 + 17);
    let vpn = VirtPageNum::new((3 << 18) | (5 << 9) | 7);
    assert_eq!(vpn.indexes(), [3, 5, 7]);
}

#[test]
fn translation_keeps_the_offset() {
    // a page v mapped to frame p sends v * PAGE + off to p * PAGE + off
    let v = 0x42usize;
    let p = 0x8_0123usize;
    for off in [0usize, 1, 100, 4095] {
        let va = VirtAddr::new(v * 4096 + off);
        assert_eq!(va.floor().0, v);
        let frame = easy_os::address::PhysPageNum::new(p);
        assert_eq!(frame.start_addr().0 + va.page_offset(), p * 4096 + off);
    }
}

#[test]
fn range_yields_each_page_once() {
    let r = SimpleRange::new(VirtPageNum::new(10), VirtPageNum::new(14));
    assert_eq!(r.get_start().0, 10);
    assert_eq!(r.get_end().0, 14);
    let mut it = r.iter();
    let mut seen = Vec::new();
    while let Some(p) = it.next() {
        seen.push(p.0);
    }
    assert_eq!(seen, vec![10, 11, 12, 13]);
    let mut p = VirtPageNum::new(1);
    p.step();
    assert_eq!(p.position(), 2);
}

#[test]
fn dir_entry_names() {
    let e = DirEntry::new("hello", 42);
    assert_eq!(e.name(), b"hello".to_vec());
    assert_eq!(e.inode_number(), 42);
    let b = e.as_bytes();
    assert_eq!(b.len(), 32);
    assert_eq!(&b[28..], &[42, 0, 0, 0]);
    let f = DirEntry::from_bytes(&b);
    assert_eq!(f.name(), b"hello".to_vec());
    assert_eq!(DirEntry::empty().name(), Vec::<u8>::new());
}

#[test]
fn mailbox_is_first_in_first_out() {
    let mut rb = RingBuffer::new();
    assert!(!rb.is_readable());
    assert!(rb.is_writable());
    for i in 0..8u8 {
        rb.write(&[i, i]);
    }
    assert!(!rb.is_writable());
    assert_eq!(rb.read(), vec![0, 0]);
    assert!(rb.is_writable());
    rb.write(&[9; 300]);
    for i in 1..8u8 {
        assert_eq!(rb.read(), vec![i, i]);
    }
    assert_eq!(rb.read().len(), 256);
    assert!(!rb.is_readable());
    rb.write(&[1]);
    rb.clear();
    assert!(!rb.is_readable());
}

fn entry(pid: usize, priority: u8) -> TaskEntry {
    TaskEntry { pid, stride: Stride(0), total_stride: 0, priority }
}

#[test]
fn stride_picks_least_then_earliest() {
    let mut m = TaskManager::new();
    m.add(entry(1, 16));
    m.add(entry(2, 16));
    let mut t = m.fetch().unwrap();
    assert_eq!(t.pid, 1);
    charge(&mut t);
    assert_eq!(t.stride.0, 255 / 16);
    m.add(t);
    assert_eq!(m.fetch().unwrap().pid, 2);
    assert_eq!(m.fetch().unwrap().pid, 1);
    assert!(m.fetch().is_none());
    let mut dead = entry(3, 16);
    dead.total_stride = u64::MAX;
    m.add(dead);
    assert!(m.fetch().is_none());
}

#[test]
fn stride_shares_follow_priorities() {
    let mut m = TaskManager::new();
    m.add(entry(2, 2));
    m.add(entry(100, 100));
    let mut count_2 = 0u32;
    let mut count_100 = 0u32;
    for _ in 0..10_000 {
        let mut t = m.fetch().unwrap();
        if t.pid == 2 {
            count_2 += 1;
        } else {
            count_100 += 1;
        }
        charge(&mut t);
        m.add(t);
    }
    // each pick costs 255 / priority: 127 for priority 2, 2 for priority 100
    let ratio = count_100 as f64 / count_2 as f64;
    assert!((ratio - 127.0 / 2.0).abs() < 127.0 / 2.0 * 0.05, "ratio {}", ratio);
}

#[test]
fn set_priority_bounds() {
    assert_eq!(set_priority(1), (None, -1));
    assert_eq!(set_priority(-5), (None, -1));
    assert_eq!(set_priority(2), (Some(2), 2));
    assert_eq!(set_priority(255), (Some(255), 255));
    assert_eq!(set_priority(1000), (Some(255), 1000));
}

#[test]
fn waitpid_outcomes() {
    let children = vec![(4usize, false), (5usize, true), (6usize, true)];
    assert!(matches!(waitpid_select(7, &children), WaitResult::NoChild));
    assert!(matches!(waitpid_select(4, &children), WaitResult::Running));
    let r = waitpid_select(-1, &children);
    assert!(matches!(r, WaitResult::Exited(1)));
    assert_eq!(waitpid_code(&r, &children), 5);
    let r = waitpid_select(6, &children);
    assert_eq!(waitpid_code(&r, &children), 6);
    assert_eq!(waitpid_code(&waitpid_select(7, &children), &children), -1);
    assert_eq!(waitpid_code(&waitpid_select(4, &children), &children), -2);
    assert!(matches!(waitpid_select(-1, &vec![]), WaitResult::NoChild));
}

#[test]
fn syscall_numbers() {
    assert!(decode_syscall(64) == Some(Syscall::Write));
    assert!(decode_syscall(260) == Some(Syscall::Waitpid));
    assert!(decode_syscall(402) == Some(Syscall::Mailwrite));
    assert!(decode_syscall(1) == None);
}

#[test]
fn mmap_arguments() {
    assert_eq!(mmap_permission(0x1000, 4096, 0), Err(-1));
    assert_eq!(mmap_permission(0x1000, 4096, 8), Err(-1));
    assert_eq!(mmap_permission(0x1001, 4096, 1), Err(-1));
    assert_eq!(mmap_permission(0x1000, 0x4000_0001, 1), Err(-1));
    assert_eq!(mmap_permission(0x1000, 0, 3), Err(0));
    assert_eq!(mmap_permission(0x1000, 4096, 3), Ok(2 | 4 | 16));
    assert_eq!(munmap_check(0x1001, 4096), Err(-1));
    assert_eq!(munmap_check(0x1000, 0), Err(0));
    assert_eq!(munmap_check(0x1000, 4096), Ok(()));
}

#[test]
fn open_flags() {
    assert_eq!(OpenFlags::from_bits(0).read_write(), (true, false));
    assert_eq!(OpenFlags::from_bits(1).read_write(), (false, true));
    assert_eq!(OpenFlags::from_bits(2).read_write(), (true, true));
    assert_eq!(OpenFlags::from_bits(2 | 512).read_write(), (true, true));
    assert!(OpenFlags::from_bits(512 | 2).contains(OpenFlags::CREATE));
    assert!(!OpenFlags::from_bits(2).contains(OpenFlags::TRUNC));
}
