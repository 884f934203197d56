use vstd::prelude::*;

verus! {

/// Number of clock ticks per millisecond on the target machine.
pub const TICKS_PER_MS: usize = 12500;

/// Milliseconds elapsed for a clock counter value.
pub fn clock_ms(ticks: usize) -> (ms: usize)
    ensures
        ms == ticks / TICKS_PER_MS,
{
    ticks / TICKS_PER_MS
}

/// The clock counter value at which the next timer interrupt is due: ten milliseconds on.
pub fn next_timer_deadline(now: usize) -> (r: usize)
    requires
        now + TICKS_PER_MS * 10 <= usize::MAX,
    ensures
        r == now + TICKS_PER_MS * 10,
{
    now + TICKS_PER_MS * 10
}

/// Whether a sleep of `period_ms` started at `start` is over at time `now`.
pub fn sleep_finished(start: usize, period_ms: usize, now: usize) -> (r: bool)
    requires
        start + period_ms <= usize::MAX,
    ensures
        r == (now >= start + period_ms),
{
    !(now < start + period_ms)
}

/// Whether a wait for a process or a thread is over, given what the wait system call answered:
/// it answers 0 while the process or thread waited for is still running, and the waiting task
/// then yields and asks again.
pub fn wait_over(answer: usize) -> (r: bool)
    ensures
        r == (answer != 0),
{
    answer != 0
}

/// The kinds of open files.
#[derive(PartialEq, Eq, Structural, Clone, Copy)]
pub enum FileType {
    STDIN,
    STDOUT,
    FILE,
    PIPE,
    TCP,
    UDP,
}

/// The console input.
pub struct Stdin;

/// The console output.
pub struct Stdout;

impl Stdin {
    /// Stores the character `c` read from the console as the one byte of `buf`.
    pub fn read(&mut self, c: u8, buf: &mut [u8]) -> (r: usize)
        requires
            old(buf)@.len() == 1,
        ensures
            r == 1,
            final(buf)@ == seq![c],
    {
        buf[0] = c;
        assert(buf@ =~= seq![c]);
        1
    }

    pub fn file_type(&self) -> (r: FileType)
        ensures
            r == FileType::STDIN,
    {
        FileType::STDIN
    }
}

impl Stdout {
    /// The number of bytes a write of `buf` to the console reports.
    pub fn write(&mut self, buf: &[u8]) -> (r: usize)
        ensures
            r == buf@.len(),
    {
        buf.len()
    }

    pub fn file_type(&self) -> (r: FileType)
        ensures
            r == FileType::STDOUT,
    {
        FileType::STDOUT
    }
}

/// The bytes of a list of buffers, one after the other.
pub open spec fn joined(bufs: Seq<Vec<u8>>) -> Seq<u8>
    decreases bufs.len(),
{
    if bufs.len() == 0 {
        Seq::empty()
    } else {
        joined(bufs.drop_last()) + bufs.last()@
    }
}

/// The buffers of a read can take a file of `n` bytes the way a file read copies it: every
/// buffer holds at least `n` bytes, and every buffer but the last is empty, so that each copy
/// starts at the beginning of the file.
pub open spec fn buffers_take_file(n: int, bufs: Seq<Vec<u8>>) -> bool {
    forall|k: int| 0 <= k < bufs.len() ==> #[trigger] bufs[k]@.len() >= n && (k + 1 < bufs.len() ==> bufs[k]@.len() == 0)
}

/// Copies the bytes `v` of a file into the buffers of a read and returns the size of the file:
/// each buffer gets the bytes of the file from its current place in the read, at its start.
pub fn read_into_buffers(v: &[u8], bufs: &mut Vec<Vec<u8>>) -> (r: usize)
    requires
        buffers_take_file(v@.len() as int, old(bufs)@),
    ensures
        r == v@.len(),
        final(bufs)@.len() == old(bufs)@.len(),
        forall|k: int| 0 <= k < old(bufs)@.len() ==> #[trigger] final(bufs)@[k]@ == v@ + old(bufs)@[k]@.skip(v@.len() as int),
{
    let n = v.len();
    let mut start: usize = 0;
    let mut k: usize = 0;
    while k < bufs.len()
        invariant
            n == v@.len(),
            k <= bufs@.len(),
            bufs@.len() == old(bufs)@.len(),
            buffers_take_file(n as int, old(bufs)@),
            k < bufs@.len() ==> start == 0,
            forall|j: int| 0 <= j < k ==> #[trigger] bufs@[j]@ == v@ + old(bufs)@[j]@.skip(n as int),
            forall|j: int| k <= j < bufs@.len() ==> #[trigger] bufs@[j] == old(bufs)@[j],
        decreases bufs@.len() - k,
    {
        let len = bufs[k].len();
        let end = if len < n { len } else { n };
        assert(old(bufs)@[k as int]@.len() >= n);
        let mut inner = crate::block_dev::copy_bytes(bufs[k].as_slice());
        let mut i: usize = 0;
        while i < end - start
            invariant
                start == 0,
                end == n,
                n == v@.len(),
                n <= len,
                len == old(bufs)@[k as int]@.len(),
                i <= n,
                inner@.len() == len,
                forall|p: int| 0 <= p < i ==> #[trigger] inner@[p] == v@[p],
                forall|p: int| i <= p < len ==> #[trigger] inner@[p] == old(bufs)@[k as int]@[p],
            decreases n - i,
        {
            inner.set(i, v[start + i]);
            i += 1;
        }
        assert(inner@ =~= v@ + old(bufs)@[k as int]@.skip(n as int));
        bufs.set(k, inner);
        start = start + len;
        k += 1;
    }
    n
}

/// Joins the buffers of a write into the bytes to store.
pub fn join_buffers(bufs: &Vec<Vec<u8>>) -> (r: Vec<u8>)
    ensures
        r@ == joined(bufs@),
{
    let mut v: Vec<u8> = Vec::new();
    let mut k: usize = 0;
    while k < bufs.len()
        invariant
            k <= bufs@.len(),
            v@ == joined(bufs@.take(k as int)),
        decreases bufs@.len() - k,
    {
        crate::net::push_bytes(&mut v, bufs[k].as_slice());
        assert(bufs@.take(k + 1).drop_last() =~= bufs@.take(k as int));
        k += 1;
    }
    assert(bufs@.take(k as int) =~= bufs@);
    v
}

/// The general registers saved on a trap.
pub struct Context {
    pub x: [usize; 32],
}

impl Context {
    /// A context with every register zero.
    pub fn zero() -> (r: Self)
        ensures
            forall|i: int| 0 <= i < 32 ==> #[trigger] r.x@[i] == 0,
    {
        Self { x: [0usize; 32] }
    }
}

/// How to build one chapter of the system: linker argument, toolchain, directory, user
/// programs.
pub struct Makefile {
    pub link_arg: &'static str,
    pub nightly: bool,
    pub dir: &'static str,
    pub users: Vec<User>,
}

/// A user program and its entry address, where fixed.
pub struct User {
    pub bin: &'static str,
    pub enrty: Option<usize>,
}

/// The makefiles of the six chapters, before their user programs are filled in.
pub fn initial_ch() -> (r: [Makefile; 6])
    ensures
        r@[0].link_arg@ == "-Ttext=0x80200000"@ && !r@[0].nightly && r@[0].dir@ == "../ch0"@,
        r@[1].link_arg@ == "-Tsrc/linker.ld"@ && r@[1].nightly && r@[1].dir@ == "../ch1"@,
        r@[2].link_arg@ == "-Tsrc/linker.ld"@ && r@[2].nightly && r@[2].dir@ == "../ch2"@,
        r@[3].link_arg@ == "-Tsrc/linker.ld"@ && r@[3].nightly && r@[3].dir@ == "../ch3"@,
        r@[4].link_arg@ == "-Tsrc/linker.ld"@ && r@[4].nightly && r@[4].dir@ == "../ch4"@,
        r@[5].link_arg@ == "-Tsrc/linker.ld"@ && r@[5].nightly && r@[5].dir@ == "../ch5"@,
        forall|i: int| 0 <= i < 6 ==> #[trigger] r@[i].users@.len() == 0,
{
    [
        Makefile { link_arg: "-Ttext=0x80200000", nightly: false, dir: "../ch0", users: Vec::new() },
        Makefile { link_arg: "-Tsrc/linker.ld", nightly: true, dir: "../ch1", users: Vec::new() },
        Makefile { link_arg: "-Tsrc/linker.ld", nightly: true, dir: "../ch2", users: Vec::new() },
        Makefile { link_arg: "-Tsrc/linker.ld", nightly: true, dir: "../ch3", users: Vec::new() },
        Makefile { link_arg: "-Tsrc/linker.ld", nightly: true, dir: "../ch4", users: Vec::new() },
        Makefile { link_arg: "-Tsrc/linker.ld", nightly: true, dir: "../ch5", users: Vec::new() },
    ]
}

/// The user program `bin` with entry address `enrty`, as a value of the specification.
pub open spec fn user(bin: &'static str, enrty: Option<usize>) -> User {
    User { bin, enrty }
}

/// Fills in the user programs of chapters 2 to 5: three programs at fixed addresses for
/// chapters 2 and 3, three loaded anywhere for chapter 4, and four for chapter 5.
pub fn init(ch: &mut [Makefile; 6])
    ensures
        final(ch)@[0] == old(ch)@[0],
        final(ch)@[1] == old(ch)@[1],
        forall|i: int| #![trigger final(ch)@[i]] 2 <= i < 6 ==> final(ch)@[i].link_arg == old(ch)@[i].link_arg
            && final(ch)@[i].nightly == old(ch)@[i].nightly && final(ch)@[i].dir == old(ch)@[i].dir,
        final(ch)@[2].users@ == seq![
            user("hello_world", Some(0x80400000usize)),
            user("priv_inst", Some(0x80400000usize)),
            user("store_fault", Some(0x80400000usize)),
        ],
        final(ch)@[3].users@ == seq![
            user("00write_a", Some(0x80600000usize)),
            user("01write_b", Some(0x80620000usize)),
            user("02write_c", Some(0x80640000usize)),
        ],
        final(ch)@[4].users@ == seq![user("00write_a", None), user("01write_b", None), user("02write_c", None)],
        final(ch)@[5].users@ == seq![user("initproc", None), user("shell", None), user("fork", None), user("sleep", None)],
{
    ch[2].users = vec![
        User { bin: "hello_world", enrty: Some(0x80400000) },
        User { bin: "priv_inst", enrty: Some(0x80400000) },
        User { bin: "store_fault", enrty: Some(0x80400000) },
    ];
    ch[3].users = vec![
        User { bin: "00write_a", enrty: Some(0x80600000) },
        User { bin: "01write_b", enrty: Some(0x80620000) },
        User { bin: "02write_c", enrty: Some(0x80640000) },
    ];
    ch[4].users = vec![
        User { bin: "00write_a", enrty: None },
        User { bin: "01write_b", enrty: None },
        User { bin: "02write_c", enrty: None },
    ];
    ch[5].users = vec![
        User { bin: "initproc", enrty: None },
        User { bin: "shell", enrty: None },
        User { bin: "fork", enrty: None },
        User { bin: "sleep", enrty: None },
    ];
}

} // verus!
