use vstd::prelude::*;

verus! {

/// Why the processor entered the kernel from user mode.
#[derive(Clone, Copy, PartialEq, Eq, Structural)]
pub enum TrapCause {
    UserEnvCall,
    StoreFault,
    StorePageFault,
    InstructionFault,
    InstructionPageFault,
    LoadFault,
    LoadPageFault,
    IllegalInstruction,
    SupervisorTimer,
    Other,
}

/// What the kernel does about a trap.
#[derive(Clone, Copy)]
pub enum TrapAction {
    /// Serve system call `id` with `args`, resuming at `sepc`.
    Syscall { id: usize, args: [usize; 5], sepc: usize },
    /// End the current task with this exit code.
    Exit(i32),
    /// Arm the next timer tick and switch to another task.
    Yield,
    /// A trap the kernel cannot serve.
    Fatal,
}

/// Decides what to do about a trap of `cause` taken at `sepc` with user registers `x`.
pub fn trap_decision(cause: TrapCause, sepc: usize, x: &[usize; 32]) -> (r: TrapAction)
    requires
        cause == TrapCause::UserEnvCall ==> sepc + 4 <= usize::MAX,
    ensures
        match cause {
            TrapCause::UserEnvCall => r == TrapAction::Syscall {
                id: x@[17],
                args: [x@[10], x@[11], x@[12], x@[13], x@[14]],
                sepc: (sepc + 4) as usize,
            },
            TrapCause::StoreFault | TrapCause::StorePageFault | TrapCause::InstructionFault
            | TrapCause::InstructionPageFault | TrapCause::LoadFault | TrapCause::LoadPageFault => r
                == TrapAction::Exit(-2i32),
            TrapCause::IllegalInstruction => r == TrapAction::Exit(-3i32),
            TrapCause::SupervisorTimer => r == TrapAction::Yield,
            TrapCause::Other => r == TrapAction::Fatal,
        },
{
    match cause {
        TrapCause::UserEnvCall => TrapAction::Syscall {
            id: x[17],
            args: [x[10], x[11], x[12], x[13], x[14]],
            sepc: sepc + 4,
        },
        TrapCause::StoreFault | TrapCause::StorePageFault | TrapCause::InstructionFault
        | TrapCause::InstructionPageFault | TrapCause::LoadFault | TrapCause::LoadPageFault => {
            TrapAction::Exit(-2)
        },
        TrapCause::IllegalInstruction => TrapAction::Exit(-3),
        TrapCause::SupervisorTimer => TrapAction::Yield,
        TrapCause::Other => TrapAction::Fatal,
    }
}

/// Bytes of a machine word on the user side.
pub const WORD: usize = 8;

/// Total bytes that `args` take on the stack, each with its trailing NUL.
pub open spec fn args_bytes(args: Seq<Seq<u8>>) -> nat
    decreases args.len(),
{
    if args.len() == 0 {
        0
    } else {
        args_bytes(args.drop_last()) + args.last().len() + 1
    }
}

/// Where `exec` places the argument vector on a fresh user stack.
pub struct ArgLayout {
    /// The new stack pointer, word aligned.
    pub sp: usize,
    /// Address of the NULL-terminated array of argument pointers.
    pub argv_base: usize,
    /// Address of each argument string.
    pub strings: Vec<usize>,
}

/// Lays out `args` below `user_sp`: first the `argc + 1` pointer slots, then
/// each string with its NUL, the first highest; the stack pointer ends
/// aligned down to a word.
pub fn arg_layout(user_sp: usize, args: &Vec<Vec<u8>>) -> (r: ArgLayout)
    requires
        (args@.len() + 1) * WORD + args_bytes(args@.map_values(|a: Vec<u8>| a@)) <= user_sp,
    ensures
        r.argv_base == user_sp - (args@.len() + 1) * WORD,
        r.strings@.len() == args@.len(),
        forall|i: int|
            0 <= i < args@.len() ==> #[trigger] r.strings@[i] == r.argv_base - args_bytes(
                args@.subrange(0, i + 1).map_values(|a: Vec<u8>| a@),
            ),
        r.sp % WORD == 0,
        r.sp <= r.argv_base - args_bytes(args@.map_values(|a: Vec<u8>| a@)),
        r.argv_base - args_bytes(args@.map_values(|a: Vec<u8>| a@)) - r.sp < WORD,
{
    let ghost all = args@.map_values(|a: Vec<u8>| a@);
    let argv_base: usize = user_sp - (args.len() + 1) * WORD;
    let mut sp: usize = argv_base;
    let mut strings: Vec<usize> = Vec::new();
    let mut i: usize = 0;
    proof {
        assert(args@.subrange(0, 0).map_values(|a: Vec<u8>| a@) =~= Seq::<Seq<u8>>::empty());
    }
    while i < args.len()
        invariant
            all == args@.map_values(|a: Vec<u8>| a@),
            argv_base == user_sp - (args@.len() + 1) * WORD,
            (args@.len() + 1) * WORD + args_bytes(all) <= user_sp,
            i <= args@.len(),
            sp == argv_base - args_bytes(args@.subrange(0, i as int).map_values(|a: Vec<u8>| a@)),
            args_bytes(args@.subrange(0, i as int).map_values(|a: Vec<u8>| a@)) <= args_bytes(all),
            strings@.len() == i,
            forall|j: int|
                0 <= j < i ==> #[trigger] strings@[j] == argv_base - args_bytes(
                    args@.subrange(0, j + 1).map_values(|a: Vec<u8>| a@),
                ),
        decreases args@.len() - i,
    {
        let ghost pre = args@.subrange(0, i as int).map_values(|a: Vec<u8>| a@);
        let ghost next = args@.subrange(0, i + 1).map_values(|a: Vec<u8>| a@);
        proof {
            assert(next.drop_last() =~= pre);
            assert(next.last() == args@[i as int]@);
            lemma_args_bytes_prefix(all, i as nat + 1);
            assert(all.subrange(0, i + 1) =~= next);
        }
        let len: usize = args[i].len();
        sp = sp - (len + 1);
        strings.push(sp);
        i = i + 1;
    }
    proof {
        assert(args@.subrange(0, i as int) =~= args@);
    }
    let aligned: usize = sp - sp % WORD;
    ArgLayout { sp: aligned, argv_base, strings }
}

/// The bytes of a prefix of the arguments are no more than those of all of them.
pub proof fn lemma_args_bytes_prefix(all: Seq<Seq<u8>>, k: nat)
    requires
        k <= all.len(),
    ensures
        args_bytes(all.subrange(0, k as int)) <= args_bytes(all),
    decreases all.len() - k,
{
    if k < all.len() {
        lemma_args_bytes_prefix(all, k + 1);
        let s = all.subrange(0, (k + 1) as int);
        assert(s.drop_last() =~= all.subrange(0, k as int));
    } else {
        assert(all.subrange(0, k as int) =~= all);
    }
}

} // verus!
