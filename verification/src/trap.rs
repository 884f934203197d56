use crate::kernel::Context;
use vstd::prelude::*;

verus! {

/// The causes of a trap into machine mode that the firmware tells apart.
#[derive(PartialEq, Eq, Structural, Clone, Copy)]
pub enum MachineCause {
    SupervisorEnvCall,
    MachineTimer,
    Other,
}

/// A service that the supervisor asks of the firmware: the number in register a7 names it,
/// register a0 holds its argument.
#[derive(PartialEq, Eq, Structural, Clone, Copy)]
pub enum SbiCall {
    /// 0: set the timer to fire at the given time.
    SetTimer(usize),
    /// 1: read the time counter.
    GetTime,
    /// 2: power the machine off.
    Shutdown,
    /// 3: print a byte on the console.
    PutChar(u8),
    /// 4: read a byte from the console.
    GetChar,
    /// Any other number: nothing is done.
    Unknown,
}

/// What the firmware does on a trap.
#[derive(PartialEq, Eq, Structural, Clone, Copy)]
pub enum FirmwareAction {
    /// Serve the call, then resume after the `ecall` instruction.
    Serve(SbiCall),
    /// The machine timer fired: stop it and raise the supervisor's timer interrupt.
    ForwardTimer,
    /// Nothing to do.
    Ignore,
}

/// The call that registers a7 and a0 of `x` ask for.
pub open spec fn sbi_call_of(x: Seq<usize>) -> SbiCall {
    let id = x[17];
    let a0 = x[10];
    if id == 0 {
        SbiCall::SetTimer(a0)
    } else if id == 1 {
        SbiCall::GetTime
    } else if id == 2 {
        SbiCall::Shutdown
    } else if id == 3 {
        SbiCall::PutChar((a0 % 256) as u8)
    } else if id == 4 {
        SbiCall::GetChar
    } else {
        SbiCall::Unknown
    }
}

/// The firmware serves the call numbered in register a7 with the argument in register a0:
/// 0 sets the timer to a0, 1 reads the time, 2 shuts down, 3 prints the low byte of a0, 4 reads
/// a byte; any other number is unknown.
pub proof fn lemma_sbi_decoding(x: Seq<usize>)
    ensures
        x[17] == 0 ==> sbi_call_of(x) == SbiCall::SetTimer(x[10]),
        x[17] == 1 ==> sbi_call_of(x) == SbiCall::GetTime,
        x[17] == 2 ==> sbi_call_of(x) == SbiCall::Shutdown,
        x[17] == 3 ==> sbi_call_of(x) == SbiCall::PutChar((x[10] % 256) as u8),
        x[17] == 4 ==> sbi_call_of(x) == SbiCall::GetChar,
        x[17] > 4 ==> sbi_call_of(x) == SbiCall::Unknown,
{
}

/// Decides what the firmware does on a trap of cause `cause`, with the supervisor's registers
/// saved in `cx`.
pub fn trap_handler(cause: MachineCause, cx: &Context) -> (r: FirmwareAction)
    ensures
        r == match cause {
            MachineCause::SupervisorEnvCall => FirmwareAction::Serve(sbi_call_of(cx.x@)),
            MachineCause::MachineTimer => FirmwareAction::ForwardTimer,
            MachineCause::Other => FirmwareAction::Ignore,
        },
        cause == MachineCause::SupervisorEnvCall ==> {
            &&& cx.x@[17] == 0 ==> r == FirmwareAction::Serve(SbiCall::SetTimer(cx.x@[10]))
            &&& cx.x@[17] == 1 ==> r == FirmwareAction::Serve(SbiCall::GetTime)
            &&& cx.x@[17] == 2 ==> r == FirmwareAction::Serve(SbiCall::Shutdown)
            &&& cx.x@[17] == 3 ==> r == FirmwareAction::Serve(SbiCall::PutChar((cx.x@[10] % 256) as u8))
            &&& cx.x@[17] == 4 ==> r == FirmwareAction::Serve(SbiCall::GetChar)
            &&& cx.x@[17] > 4 ==> r == FirmwareAction::Serve(SbiCall::Unknown)
        },
{
    proof {
        lemma_sbi_decoding(cx.x@);
    }
    match cause {
        MachineCause::SupervisorEnvCall => {
            let id = cx.x[17];
            let a0 = cx.x[10];
            let call = if id == 0 {
                SbiCall::SetTimer(a0)
            } else if id == 1 {
                SbiCall::GetTime
            } else if id == 2 {
                SbiCall::Shutdown
            } else if id == 3 {
                SbiCall::PutChar((a0 % 256) as u8)
            } else if id == 4 {
                SbiCall::GetChar
            } else {
                SbiCall::Unknown
            };
            FirmwareAction::Serve(call)
        },
        MachineCause::MachineTimer => FirmwareAction::ForwardTimer,
        MachineCause::Other => FirmwareAction::Ignore,
    }
}

/// Hands the answer `value` of a served call back in register a0, for the calls that answer:
/// reading the time and reading a byte.
pub fn sbi_return(cx: &mut Context, call: SbiCall, value: usize)
    ensures
        (call == SbiCall::GetTime || call == SbiCall::GetChar) ==> final(cx).x@ == old(cx).x@.update(10, value),
        !(call == SbiCall::GetTime || call == SbiCall::GetChar) ==> final(cx).x@ == old(cx).x@,
{
    match call {
        SbiCall::GetTime | SbiCall::GetChar => {
            cx.x[10] = value;
        },
        _ => {},
    }
}

/// The registers of a user task saved on a trap, and the address it trapped at.
pub struct TrapContext {
    pub x: [usize; 32],
    pub sepc: usize,
}

/// The causes of a trap from a user task that the kernel tells apart.
#[derive(PartialEq, Eq, Structural, Clone, Copy)]
pub enum UserCause {
    UserEnvCall,
    StoreFault,
    StorePageFault,
    IllegalInstruction,
    SupervisorTimer,
    Other,
}

/// What the kernel does on a trap from a user task.
#[derive(PartialEq, Eq, Structural, Clone, Copy)]
pub enum KernelAction {
    /// Run the system call numbered as the first field, with the arguments from registers a0
    /// to a2.
    Syscall(usize, usize, usize, usize),
    /// The task did something forbidden: it exits and the next task runs.
    Kill,
    /// The timer fired: set the next deadline and let the next task run.
    Tick,
    /// Nothing to do.
    Ignore,
}

/// Decides what the kernel does on a trap of cause `cause`; on a system call the task will
/// resume after its `ecall` instruction, four bytes on.
pub fn exception_handler(cause: UserCause, cx: &mut TrapContext) -> (r: KernelAction)
    requires
        cause == UserCause::UserEnvCall ==> old(cx).sepc + 4 <= usize::MAX,
    ensures
        final(cx).x == old(cx).x,
        cause == UserCause::UserEnvCall ==> {
            &&& final(cx).sepc == old(cx).sepc + 4
            &&& r == KernelAction::Syscall(old(cx).x@[17], old(cx).x@[10], old(cx).x@[11], old(cx).x@[12])
        },
        cause != UserCause::UserEnvCall ==> final(cx).sepc == old(cx).sepc,
        (cause == UserCause::StoreFault || cause == UserCause::StorePageFault || cause == UserCause::IllegalInstruction)
            ==> r == KernelAction::Kill,
        cause == UserCause::SupervisorTimer ==> r == KernelAction::Tick,
        cause == UserCause::Other ==> r == KernelAction::Ignore,
{
    match cause {
        UserCause::UserEnvCall => {
            cx.sepc += 4;
            KernelAction::Syscall(cx.x[17], cx.x[10], cx.x[11], cx.x[12])
        },
        UserCause::StoreFault | UserCause::StorePageFault => KernelAction::Kill,
        UserCause::IllegalInstruction => KernelAction::Kill,
        UserCause::SupervisorTimer => KernelAction::Tick,
        UserCause::Other => KernelAction::Ignore,
    }
}

/// Hands the result of a system call back to the task: its value in register a0; an unknown
/// call, reported by its number, leaves the registers as they were.
pub fn syscall_return(cx: &mut TrapContext, result: Result<usize, usize>)
    ensures
        final(cx).sepc == old(cx).sepc,
        result matches Ok(ret) ==> final(cx).x@ == old(cx).x@.update(10, ret),
        result is Err ==> final(cx).x == old(cx).x,
{
    match result {
        Ok(ret) => {
            cx.x[10] = ret;
        },
        Err(_) => {},
    }
}

/// The numbers of the system calls, as the user library and the kernel agree on them.
pub struct SyscallNumbers {
    pub read: usize,
    pub write: usize,
    pub exit: usize,
    pub yield_: usize,
    pub get_time: usize,
    pub getpid: usize,
    pub fork: usize,
    pub exec_: usize,
    pub waitpid: usize,
    pub putchar: usize,
    pub getchar: usize,
    pub open_: usize,
    pub close: usize,
    pub pipe: usize,
    pub thread_create: usize,
    pub waittid: usize,
    pub mutex_create: usize,
    pub mutex_lock: usize,
    pub mutex_unlock: usize,
    pub semaphore_create: usize,
    pub semaphore_down: usize,
    pub semaphore_up: usize,
    pub listen: usize,
    pub accept: usize,
    pub socket: usize,
    pub bind: usize,
}

impl SyscallNumbers {
    /// The number of call `k`, in the order the calls are listed: read, write, exit, yield, get_time,
    /// getpid, fork, exec, waitpid, putchar, getchar, open, close, pipe, thread_create, waittid,
    /// the three mutex calls, the three semaphore calls, listen, accept, socket, bind.
    pub open spec fn number_at(&self, k: int) -> usize {
        if k == 0 {
            self.read
        } else if k == 1 {
            self.write
        } else if k == 2 {
            self.exit
        } else if k == 3 {
            self.yield_
        } else if k == 4 {
            self.get_time
        } else if k == 5 {
            self.getpid
        } else if k == 6 {
            self.fork
        } else if k == 7 {
            self.exec_
        } else if k == 8 {
            self.waitpid
        } else if k == 9 {
            self.putchar
        } else if k == 10 {
            self.getchar
        } else if k == 11 {
            self.open_
        } else if k == 12 {
            self.close
        } else if k == 13 {
            self.pipe
        } else if k == 14 {
            self.thread_create
        } else if k == 15 {
            self.waittid
        } else if k == 16 {
            self.mutex_create
        } else if k == 17 {
            self.mutex_lock
        } else if k == 18 {
            self.mutex_unlock
        } else if k == 19 {
            self.semaphore_create
        } else if k == 20 {
            self.semaphore_down
        } else if k == 21 {
            self.semaphore_up
        } else if k == 22 {
            self.listen
        } else if k == 23 {
            self.accept
        } else if k == 24 {
            self.socket
        } else {
            self.bind
        }
    }

    /// No two calls share a number.
    pub open spec fn distinct(&self) -> bool {
        forall|i: int, j: int| 0 <= i < j < 26 ==> #[trigger] self.number_at(i) != #[trigger] self.number_at(j)
    }

    /// `id` is the number of no call.
    pub open spec fn unknown(&self, id: usize) -> bool {
        forall|k: int| 0 <= k < 26 ==> #[trigger] self.number_at(k) != id
    }
}

/// A system call with its arguments, decoded from its number and registers a0 to a2.
#[derive(PartialEq, Eq, Structural, Clone, Copy)]
pub enum Syscall {
    Read(usize, usize, usize),
    Write(usize, usize, usize),
    Exit,
    Yield,
    GetTime,
    GetPid,
    Fork,
    Exec(usize, usize),
    WaitPid(usize),
    PutChar(usize),
    GetChar,
    Open(usize, usize, bool),
    Close(usize),
    Pipe(usize),
    ThreadCreate(usize, usize),
    WaitTid(usize),
    MutexCreate,
    MutexLock(usize),
    MutexUnlock(usize),
    SemaphoreCreate(usize),
    SemaphoreDown(usize),
    SemaphoreUp(usize),
    Listen(usize),
    Accept(usize),
    Socket(bool),
    Bind(usize, u16),
}

/// The call that number `id` with arguments `args` stands for under the numbering `nums`, the
/// first match in the order the calls are listed; `Err(id)` for an unknown number.
pub open spec fn syscall_of(id: usize, args: Seq<usize>, nums: SyscallNumbers) -> Result<Syscall, usize> {
    if id == nums.read {
        Ok(Syscall::Read(args[0], args[1], args[2]))
    } else if id == nums.write {
        Ok(Syscall::Write(args[0], args[1], args[2]))
    } else if id == nums.exit {
        Ok(Syscall::Exit)
    } else if id == nums.yield_ {
        Ok(Syscall::Yield)
    } else if id == nums.get_time {
        Ok(Syscall::GetTime)
    } else if id == nums.getpid {
        Ok(Syscall::GetPid)
    } else if id == nums.fork {
        Ok(Syscall::Fork)
    } else if id == nums.exec_ {
        Ok(Syscall::Exec(args[0], args[1]))
    } else if id == nums.waitpid {
        Ok(Syscall::WaitPid(args[0]))
    } else if id == nums.putchar {
        Ok(Syscall::PutChar(args[0]))
    } else if id == nums.getchar {
        Ok(Syscall::GetChar)
    } else if id == nums.open_ {
        Ok(Syscall::Open(args[0], args[1], args[2] == 1))
    } else if id == nums.close {
        Ok(Syscall::Close(args[0]))
    } else if id == nums.pipe {
        Ok(Syscall::Pipe(args[0]))
    } else if id == nums.thread_create {
        Ok(Syscall::ThreadCreate(args[0], args[1]))
    } else if id == nums.waittid {
        Ok(Syscall::WaitTid(args[0]))
    } else if id == nums.mutex_create {
        Ok(Syscall::MutexCreate)
    } else if id == nums.mutex_lock {
        Ok(Syscall::MutexLock(args[0]))
    } else if id == nums.mutex_unlock {
        Ok(Syscall::MutexUnlock(args[0]))
    } else if id == nums.semaphore_create {
        Ok(Syscall::SemaphoreCreate(args[0]))
    } else if id == nums.semaphore_down {
        Ok(Syscall::SemaphoreDown(args[0]))
    } else if id == nums.semaphore_up {
        Ok(Syscall::SemaphoreUp(args[0]))
    } else if id == nums.listen {
        Ok(Syscall::Listen(args[0]))
    } else if id == nums.accept {
        Ok(Syscall::Accept(args[0]))
    } else if id == nums.socket {
        Ok(Syscall::Socket(args[0] == 1))
    } else if id == nums.bind {
        Ok(Syscall::Bind(args[0], (args[1] % 65536) as u16))
    } else {
        Err(id)
    }
}

/// Decoding a number gives the call it is the number of, with the arguments in the order the
/// user library passes them in registers a0 to a2: read and write take the descriptor, the
/// buffer address and its length; exec the path address and length; open the path address and
/// length and whether to create (a2 == 1); thread_create the entry and its argument; bind the
/// socket and the port (the low 16 bits of a1); the others their first register or nothing.
/// Read, listed first, decodes so whatever the other numbers; the others when no two calls
/// share a number.  A number of no call is refused with itself.
#[verifier::rlimit(50)]
pub proof fn lemma_syscall_decoding(id: usize, args: Seq<usize>, nums: SyscallNumbers)
    requires
        args.len() == 3,
    ensures
        id == nums.read ==> syscall_of(id, args, nums) == Ok::<Syscall, usize>(Syscall::Read(args[0], args[1], args[2])),
        nums.distinct() && id == nums.write ==> syscall_of(id, args, nums) == Ok::<Syscall, usize>(Syscall::Write(args[0], args[1], args[2])),
        nums.distinct() && id == nums.exit ==> syscall_of(id, args, nums) == Ok::<Syscall, usize>(Syscall::Exit),
        nums.distinct() && id == nums.yield_ ==> syscall_of(id, args, nums) == Ok::<Syscall, usize>(Syscall::Yield),
        nums.distinct() && id == nums.get_time ==> syscall_of(id, args, nums) == Ok::<Syscall, usize>(Syscall::GetTime),
        nums.distinct() && id == nums.getpid ==> syscall_of(id, args, nums) == Ok::<Syscall, usize>(Syscall::GetPid),
        nums.distinct() && id == nums.fork ==> syscall_of(id, args, nums) == Ok::<Syscall, usize>(Syscall::Fork),
        nums.distinct() && id == nums.exec_ ==> syscall_of(id, args, nums) == Ok::<Syscall, usize>(Syscall::Exec(args[0], args[1])),
        nums.distinct() && id == nums.waitpid ==> syscall_of(id, args, nums) == Ok::<Syscall, usize>(Syscall::WaitPid(args[0])),
        nums.distinct() && id == nums.putchar ==> syscall_of(id, args, nums) == Ok::<Syscall, usize>(Syscall::PutChar(args[0])),
        nums.distinct() && id == nums.getchar ==> syscall_of(id, args, nums) == Ok::<Syscall, usize>(Syscall::GetChar),
        nums.distinct() && id == nums.open_ ==> syscall_of(id, args, nums) == Ok::<Syscall, usize>(Syscall::Open(args[0], args[1], args[2] == 1)),
        nums.distinct() && id == nums.close ==> syscall_of(id, args, nums) == Ok::<Syscall, usize>(Syscall::Close(args[0])),
        nums.distinct() && id == nums.pipe ==> syscall_of(id, args, nums) == Ok::<Syscall, usize>(Syscall::Pipe(args[0])),
        nums.distinct() && id == nums.thread_create ==> syscall_of(id, args, nums) == Ok::<Syscall, usize>(Syscall::ThreadCreate(args[0], args[1])),
        nums.distinct() && id == nums.waittid ==> syscall_of(id, args, nums) == Ok::<Syscall, usize>(Syscall::WaitTid(args[0])),
        nums.distinct() && id == nums.mutex_create ==> syscall_of(id, args, nums) == Ok::<Syscall, usize>(Syscall::MutexCreate),
        nums.distinct() && id == nums.mutex_lock ==> syscall_of(id, args, nums) == Ok::<Syscall, usize>(Syscall::MutexLock(args[0])),
        nums.distinct() && id == nums.mutex_unlock ==> syscall_of(id, args, nums) == Ok::<Syscall, usize>(Syscall::MutexUnlock(args[0])),
        nums.distinct() && id == nums.semaphore_create ==> syscall_of(id, args, nums) == Ok::<Syscall, usize>(Syscall::SemaphoreCreate(args[0])),
        nums.distinct() && id == nums.semaphore_down ==> syscall_of(id, args, nums) == Ok::<Syscall, usize>(Syscall::SemaphoreDown(args[0])),
        nums.distinct() && id == nums.semaphore_up ==> syscall_of(id, args, nums) == Ok::<Syscall, usize>(Syscall::SemaphoreUp(args[0])),
        nums.distinct() && id == nums.listen ==> syscall_of(id, args, nums) == Ok::<Syscall, usize>(Syscall::Listen(args[0])),
        nums.distinct() && id == nums.accept ==> syscall_of(id, args, nums) == Ok::<Syscall, usize>(Syscall::Accept(args[0])),
        nums.distinct() && id == nums.socket ==> syscall_of(id, args, nums) == Ok::<Syscall, usize>(Syscall::Socket(args[0] == 1)),
        nums.distinct() && id == nums.bind ==> syscall_of(id, args, nums) == Ok::<Syscall, usize>(Syscall::Bind(args[0], (args[1] % 65536) as u16)),
        nums.distinct() && nums.unknown(id) ==> syscall_of(id, args, nums) == Err::<Syscall, usize>(id),
{
    assert(nums.number_at(0) == nums.read);
    assert(nums.number_at(1) == nums.write);
    assert(nums.number_at(2) == nums.exit);
    assert(nums.number_at(3) == nums.yield_);
    assert(nums.number_at(4) == nums.get_time);
    assert(nums.number_at(5) == nums.getpid);
    assert(nums.number_at(6) == nums.fork);
    assert(nums.number_at(7) == nums.exec_);
    assert(nums.number_at(8) == nums.waitpid);
    assert(nums.number_at(9) == nums.putchar);
    assert(nums.number_at(10) == nums.getchar);
    assert(nums.number_at(11) == nums.open_);
    assert(nums.number_at(12) == nums.close);
    assert(nums.number_at(13) == nums.pipe);
    assert(nums.number_at(14) == nums.thread_create);
    assert(nums.number_at(15) == nums.waittid);
    assert(nums.number_at(16) == nums.mutex_create);
    assert(nums.number_at(17) == nums.mutex_lock);
    assert(nums.number_at(18) == nums.mutex_unlock);
    assert(nums.number_at(19) == nums.semaphore_create);
    assert(nums.number_at(20) == nums.semaphore_down);
    assert(nums.number_at(21) == nums.semaphore_up);
    assert(nums.number_at(22) == nums.listen);
    assert(nums.number_at(23) == nums.accept);
    assert(nums.number_at(24) == nums.socket);
    assert(nums.number_at(25) == nums.bind);
}

/// Decodes system call `id` with the arguments from registers a0 to a2: which call it is and
/// with what arguments, or `Err(id)` for a number no call has.
pub fn syscall_dispatch(id: usize, args: [usize; 3], nums: &SyscallNumbers) -> (r: Result<Syscall, usize>)
    ensures
        r == syscall_of(id, args@, *nums),
        id == nums.read ==> r == Ok::<Syscall, usize>(Syscall::Read(args@[0], args@[1], args@[2])),
        nums.distinct() && id == nums.write ==> r == Ok::<Syscall, usize>(Syscall::Write(args@[0], args@[1], args@[2])),
        nums.distinct() && id == nums.exit ==> r == Ok::<Syscall, usize>(Syscall::Exit),
        nums.distinct() && id == nums.yield_ ==> r == Ok::<Syscall, usize>(Syscall::Yield),
        nums.distinct() && id == nums.get_time ==> r == Ok::<Syscall, usize>(Syscall::GetTime),
        nums.distinct() && id == nums.getpid ==> r == Ok::<Syscall, usize>(Syscall::GetPid),
        nums.distinct() && id == nums.fork ==> r == Ok::<Syscall, usize>(Syscall::Fork),
        nums.distinct() && id == nums.exec_ ==> r == Ok::<Syscall, usize>(Syscall::Exec(args@[0], args@[1])),
        nums.distinct() && id == nums.waitpid ==> r == Ok::<Syscall, usize>(Syscall::WaitPid(args@[0])),
        nums.distinct() && id == nums.putchar ==> r == Ok::<Syscall, usize>(Syscall::PutChar(args@[0])),
        nums.distinct() && id == nums.getchar ==> r == Ok::<Syscall, usize>(Syscall::GetChar),
        nums.distinct() && id == nums.open_ ==> r == Ok::<Syscall, usize>(Syscall::Open(args@[0], args@[1], args@[2] == 1)),
        nums.distinct() && id == nums.close ==> r == Ok::<Syscall, usize>(Syscall::Close(args@[0])),
        nums.distinct() && id == nums.pipe ==> r == Ok::<Syscall, usize>(Syscall::Pipe(args@[0])),
        nums.distinct() && id == nums.thread_create ==> r == Ok::<Syscall, usize>(Syscall::ThreadCreate(args@[0], args@[1])),
        nums.distinct() && id == nums.waittid ==> r == Ok::<Syscall, usize>(Syscall::WaitTid(args@[0])),
        nums.distinct() && id == nums.mutex_create ==> r == Ok::<Syscall, usize>(Syscall::MutexCreate),
        nums.distinct() && id == nums.mutex_lock ==> r == Ok::<Syscall, usize>(Syscall::MutexLock(args@[0])),
        nums.distinct() && id == nums.mutex_unlock ==> r == Ok::<Syscall, usize>(Syscall::MutexUnlock(args@[0])),
        nums.distinct() && id == nums.semaphore_create ==> r == Ok::<Syscall, usize>(Syscall::SemaphoreCreate(args@[0])),
        nums.distinct() && id == nums.semaphore_down ==> r == Ok::<Syscall, usize>(Syscall::SemaphoreDown(args@[0])),
        nums.distinct() && id == nums.semaphore_up ==> r == Ok::<Syscall, usize>(Syscall::SemaphoreUp(args@[0])),
        nums.distinct() && id == nums.listen ==> r == Ok::<Syscall, usize>(Syscall::Listen(args@[0])),
        nums.distinct() && id == nums.accept ==> r == Ok::<Syscall, usize>(Syscall::Accept(args@[0])),
        nums.distinct() && id == nums.socket ==> r == Ok::<Syscall, usize>(Syscall::Socket(args@[0] == 1)),
        nums.distinct() && id == nums.bind ==> r == Ok::<Syscall, usize>(Syscall::Bind(args@[0], (args@[1] % 65536) as u16)),
        nums.distinct() && nums.unknown(id) ==> r == Err::<Syscall, usize>(id),
{
    proof {
        lemma_syscall_decoding(id, args@, *nums);
    }
    if id == nums.read {
        Ok(Syscall::Read(args[0], args[1], args[2]))
    } else if id == nums.write {
        Ok(Syscall::Write(args[0], args[1], args[2]))
    } else if id == nums.exit {
        Ok(Syscall::Exit)
    } else if id == nums.yield_ {
        Ok(Syscall::Yield)
    } else if id == nums.get_time {
        Ok(Syscall::GetTime)
    } else if id == nums.getpid {
        Ok(Syscall::GetPid)
    } else if id == nums.fork {
        Ok(Syscall::Fork)
    } else if id == nums.exec_ {
        Ok(Syscall::Exec(args[0], args[1]))
    } else if id == nums.waitpid {
        Ok(Syscall::WaitPid(args[0]))
    } else if id == nums.putchar {
        Ok(Syscall::PutChar(args[0]))
    } else if id == nums.getchar {
        Ok(Syscall::GetChar)
    } else if id == nums.open_ {
        Ok(Syscall::Open(args[0], args[1], args[2] == 1))
    } else if id == nums.close {
        Ok(Syscall::Close(args[0]))
    } else if id == nums.pipe {
        Ok(Syscall::Pipe(args[0]))
    } else if id == nums.thread_create {
        Ok(Syscall::ThreadCreate(args[0], args[1]))
    } else if id == nums.waittid {
        Ok(Syscall::WaitTid(args[0]))
    } else if id == nums.mutex_create {
        Ok(Syscall::MutexCreate)
    } else if id == nums.mutex_lock {
        Ok(Syscall::MutexLock(args[0]))
    } else if id == nums.mutex_unlock {
        Ok(Syscall::MutexUnlock(args[0]))
    } else if id == nums.semaphore_create {
        Ok(Syscall::SemaphoreCreate(args[0]))
    } else if id == nums.semaphore_down {
        Ok(Syscall::SemaphoreDown(args[0]))
    } else if id == nums.semaphore_up {
        Ok(Syscall::SemaphoreUp(args[0]))
    } else if id == nums.listen {
        Ok(Syscall::Listen(args[0]))
    } else if id == nums.accept {
        Ok(Syscall::Accept(args[0]))
    } else if id == nums.socket {
        Ok(Syscall::Socket(args[0] == 1))
    } else if id == nums.bind {
        Ok(Syscall::Bind(args[0], (args[1] % 65536) as u16))
    } else {
        Err(id)
    }
}

} // verus!
