use vstd::prelude::*;

verus! {

pub const SYSCALL_DUP: usize = 24;
pub const SYSCALL_UNLINKAT: usize = 35;
pub const SYSCALL_LINKAT: usize = 37;
pub const SYSCALL_OPEN: usize = 56;
pub const SYSCALL_CLOSE: usize = 57;
pub const SYSCALL_PIPE: usize = 59;
pub const SYSCALL_READ: usize = 63;
pub const SYSCALL_WRITE: usize = 64;
pub const SYSCALL_FSTAT: usize = 80;
pub const SYSCALL_EXIT: usize = 93;
pub const SYSCALL_YIELD: usize = 124;
pub const SYSCALL_SET_PRIORITY: usize = 140;
pub const SYSCALL_GET_TIME: usize = 169;
pub const SYSCALL_GETPID: usize = 172;
pub const SYSCALL_MUNMAP: usize = 215;
pub const SYSCALL_FORK: usize = 220;
pub const SYSCALL_EXEC: usize = 221;
pub const SYSCALL_MMAP: usize = 222;
pub const SYSCALL_WAITPID: usize = 260;
pub const SYSCALL_SPAWN: usize = 400;
pub const SYSCALL_MAILREAD: usize = 401;
pub const SYSCALL_MAILWRITE: usize = 402;

/// Largest region that one `mmap` or `munmap` may cover.
pub const MAX_ALLOC_SIZE: usize = 0x4000_0000;

/// The system calls the kernel serves.
#[derive(Clone, Copy, PartialEq, Eq, Structural)]
pub enum Syscall {
    Dup,
    Unlinkat,
    Linkat,
    Open,
    Close,
    Pipe,
    Read,
    Write,
    Fstat,
    Exit,
    Yield,
    SetPriority,
    GetTime,
    Getpid,
    Munmap,
    Fork,
    Exec,
    Mmap,
    Waitpid,
    Spawn,
    Mailread,
    Mailwrite,
}

/// The number that selects `s`.
pub open spec fn syscall_number(s: Syscall) -> usize {
    match s {
        Syscall::Dup => 24,
        Syscall::Unlinkat => 35,
        Syscall::Linkat => 37,
        Syscall::Open => 56,
        Syscall::Close => 57,
        Syscall::Pipe => 59,
        Syscall::Read => 63,
        Syscall::Write => 64,
        Syscall::Fstat => 80,
        Syscall::Exit => 93,
        Syscall::Yield => 124,
        Syscall::SetPriority => 140,
        Syscall::GetTime => 169,
        Syscall::Getpid => 172,
        Syscall::Munmap => 215,
        Syscall::Fork => 220,
        Syscall::Exec => 221,
        Syscall::Mmap => 222,
        Syscall::Waitpid => 260,
        Syscall::Spawn => 400,
        Syscall::Mailread => 401,
        Syscall::Mailwrite => 402,
    }
}

/// The system call that `syscall_id` selects, if any.
pub fn decode_syscall(syscall_id: usize) -> (r: Option<Syscall>)
    ensures
        match r {
            Some(s) => syscall_number(s) == syscall_id,
            None => forall|s: Syscall| #[trigger] syscall_number(s) != syscall_id,
        },
{
    let r = match syscall_id {
        SYSCALL_DUP => Some(Syscall::Dup),
        SYSCALL_UNLINKAT => Some(Syscall::Unlinkat),
        SYSCALL_LINKAT => Some(Syscall::Linkat),
        SYSCALL_OPEN => Some(Syscall::Open),
        SYSCALL_CLOSE => Some(Syscall::Close),
        SYSCALL_PIPE => Some(Syscall::Pipe),
        SYSCALL_READ => Some(Syscall::Read),
        SYSCALL_WRITE => Some(Syscall::Write),
        SYSCALL_FSTAT => Some(Syscall::Fstat),
        SYSCALL_EXIT => Some(Syscall::Exit),
        SYSCALL_YIELD => Some(Syscall::Yield),
        SYSCALL_SET_PRIORITY => Some(Syscall::SetPriority),
        SYSCALL_GET_TIME => Some(Syscall::GetTime),
        SYSCALL_GETPID => Some(Syscall::Getpid),
        SYSCALL_MUNMAP => Some(Syscall::Munmap),
        SYSCALL_FORK => Some(Syscall::Fork),
        SYSCALL_EXEC => Some(Syscall::Exec),
        SYSCALL_MMAP => Some(Syscall::Mmap),
        SYSCALL_WAITPID => Some(Syscall::Waitpid),
        SYSCALL_SPAWN => Some(Syscall::Spawn),
        SYSCALL_MAILREAD => Some(Syscall::Mailread),
        SYSCALL_MAILWRITE => Some(Syscall::Mailwrite),
        _ => None,
    };
    proof {
        if r is None {
            assert forall|s: Syscall| #[trigger] syscall_number(s) != syscall_id by {
                match s {
                    _ => {},
                }
            }
        }
    }
    r
}

/// Page permissions that `mmap` grants: read, write, execute, user.
pub const MAP_R: u8 = 2;
pub const MAP_W: u8 = 4;
pub const MAP_X: u8 = 8;
pub const MAP_U: u8 = 16;

/// Checks the arguments of `mmap`: `Err(-1)` for a bad protection or an
/// unaligned or too large region, `Err(0)` for an empty one, else the
/// permission bits of the mapping (the protection shifted into R/W/X, plus U).
pub fn mmap_permission(start: usize, len: usize, prot: usize) -> (r: Result<u8, isize>)
    ensures
        (prot & !7usize != 0 || prot & 7usize == 0 || len > MAX_ALLOC_SIZE || start % 4096 != 0)
            ==> r == Err::<u8, isize>(-1isize),
        !(prot & !7usize != 0 || prot & 7usize == 0 || len > MAX_ALLOC_SIZE || start % 4096 != 0)
            && len == 0 ==> r == Err::<u8, isize>(0isize),
        !(prot & !7usize != 0 || prot & 7usize == 0 || len > MAX_ALLOC_SIZE || start % 4096 != 0)
            && len != 0 ==> r == Ok::<u8, isize>((((prot & 7usize) as u8) << 1u8) | MAP_U),
{
    if prot & !7usize != 0 || prot & 7usize == 0 || len > MAX_ALLOC_SIZE || start % 4096 != 0 {
        return Err(-1);
    }
    if len == 0 {
        return Err(0);
    }
    Ok((((prot & 7usize) as u8) << 1u8) | MAP_U)
}

/// Checks the arguments of `munmap`: `Err(-1)` for an unaligned or too large
/// region, `Err(0)` for an empty one, else `Ok(())`.
pub fn munmap_check(start: usize, len: usize) -> (r: Result<(), isize>)
    ensures
        (len > MAX_ALLOC_SIZE || start % 4096 != 0) ==> r == Err::<(), isize>(-1isize),
        !(len > MAX_ALLOC_SIZE || start % 4096 != 0) && len == 0 ==> r == Err::<(), isize>(0isize),
        !(len > MAX_ALLOC_SIZE || start % 4096 != 0) && len != 0 ==> r is Ok,
{
    if len > MAX_ALLOC_SIZE || start % 4096 != 0 {
        return Err(-1);
    }
    if len == 0 {
        return Err(0);
    }
    Ok(())
}

/// Flags of `open`.
pub struct OpenFlags {
    pub bits: u32,
}

impl OpenFlags {
    pub const WRONLY: u32 = 1;
    pub const RDWR: u32 = 2;
    pub const CREATE: u32 = 512;
    pub const TRUNC: u32 = 1024;

    pub fn from_bits(bits: u32) -> (r: Self)
        ensures
            r.bits == bits,
    {
        OpenFlags { bits }
    }

    /// Whether the file opens readable and writable: no flag gives read only,
    /// write-only gives write only, anything else both.
    pub fn read_write(&self) -> (r: (bool, bool))
        ensures
            self.bits == 0 ==> r == (true, false),
            self.bits != 0 && self.bits & 1 != 0 ==> r == (false, true),
            self.bits != 0 && self.bits & 1 == 0 ==> r == (true, true),
    {
        if self.bits == 0 {
            (true, false)
        } else if self.bits & 1 != 0 {
            (false, true)
        } else {
            (true, true)
        }
    }

    pub fn contains(&self, flag: u32) -> (r: bool)
        ensures
            r == (self.bits & flag == flag),
    {
        self.bits & flag == flag
    }
}

} // verus!
