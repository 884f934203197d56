use std::collections::VecDeque;
use vstd::prelude::*;

verus! {

/// Capacity of a pipe in bytes.
pub const BUFFER_SIZE: usize = 32;

/// The bytes in transit in a pipe, and whether its write end is still open.
pub struct PipeBuffer {
    buffer: VecDeque<u8>,
    write_end: Option<bool>,
}

/// What a reader or writer of a pipe does after one step.
#[derive(PartialEq, Eq, Structural)]
pub enum PipeStep {
    /// It is done, having moved this many bytes.
    Done(usize),
    /// Nothing can move now: it lets another task run, then tries again.
    Suspend,
    /// It moved bytes and tries again, this many bytes moved so far.
    Continue(usize),
}

impl PipeBuffer {
    /// The bytes in the pipe, oldest first.
    pub closed spec fn bytes(&self) -> Seq<u8> {
        self.buffer@
    }

    /// Whether a write end was attached, and if so whether it is open.
    pub closed spec fn write_end(&self) -> Option<bool> {
        self.write_end
    }

    /// The pipe never holds more than its capacity.
    pub open spec fn wf(&self) -> bool {
        self.bytes().len() <= BUFFER_SIZE
    }

    /// An empty pipe with no write end yet.
    pub fn new() -> (r: Self)
        ensures
            r.bytes() == Seq::<u8>::empty(),
            r.write_end() is None,
            r.wf(),
    {
        Self { buffer: VecDeque::new(), write_end: None }
    }

    /// Attaches an open write end.
    pub fn set_write_end(&mut self)
        ensures
            final(self).bytes() == old(self).bytes(),
            final(self).write_end() == Some(true),
    {
        self.write_end = Some(true);
    }

    /// The last write end went away.
    pub fn close_write_end(&mut self)
        requires
            old(self).write_end() is Some,
        ensures
            final(self).bytes() == old(self).bytes(),
            final(self).write_end() == Some(false),
    {
        self.write_end = Some(false);
    }

    /// Appends `byte`.
    pub fn write_byte(&mut self, byte: u8)
        ensures
            final(self).bytes() == old(self).bytes().push(byte),
            final(self).write_end() == old(self).write_end(),
    {
        self.buffer.push_back(byte);
    }

    /// Takes the oldest byte out.
    pub fn read_byte(&mut self) -> (r: u8)
        requires
            old(self).bytes().len() > 0,
        ensures
            r == old(self).bytes()[0],
            final(self).bytes() == old(self).bytes().drop_first(),
            final(self).write_end() == old(self).write_end(),
    {
        self.buffer.pop_front().unwrap()
    }

    /// Number of bytes that can be read.
    pub fn available_read(&self) -> (r: usize)
        ensures
            r == self.bytes().len(),
    {
        self.buffer.len()
    }

    /// Number of bytes that can be written.
    pub fn available_write(&self) -> (r: usize)
        requires
            self.wf(),
        ensures
            r == BUFFER_SIZE - self.bytes().len(),
    {
        BUFFER_SIZE - self.available_read()
    }

    /// Whether the write end is gone.
    pub fn all_write_ends_closed(&self) -> (r: bool)
        requires
            self.write_end() is Some,
        ensures
            r == !self.write_end().unwrap(),
    {
        !self.write_end.unwrap()
    }
}

/// One step of a read from the pipe into `dest`, `already_read` bytes having been read: with
/// the pipe empty, the read ends once the write end is closed and waits otherwise; else the
/// bytes in the pipe are moved to the start of `dest`, as many as fit.
pub fn pipe_read_step(pipe: &mut PipeBuffer, dest: &mut [u8], already_read: usize) -> (r: PipeStep)
    requires
        old(pipe).bytes().len() == 0 ==> old(pipe).write_end() is Some,
        already_read + old(pipe).bytes().len() <= usize::MAX,
    ensures
        final(pipe).write_end() == old(pipe).write_end(),
        final(dest)@.len() == old(dest)@.len(),
        ({
            let n = vstd::math::min(old(pipe).bytes().len() as int, old(dest)@.len() as int);
            if old(pipe).bytes().len() == 0 {
                &&& r == if !old(pipe).write_end().unwrap() { PipeStep::Done(already_read) } else { PipeStep::Suspend }
                &&& final(pipe).bytes() == old(pipe).bytes()
                &&& final(dest)@ == old(dest)@
            } else {
                &&& r == PipeStep::Continue((already_read + n) as usize)
                &&& final(pipe).bytes() == old(pipe).bytes().skip(n)
                &&& forall|i: int| 0 <= i < n ==> #[trigger] final(dest)@[i] == old(pipe).bytes()[i]
                &&& forall|i: int| n <= i < old(dest)@.len() ==> #[trigger] final(dest)@[i] == old(dest)@[i]
            }
        }),
{
    let loop_read = pipe.available_read();
    if loop_read == 0 {
        if pipe.all_write_ends_closed() {
            return PipeStep::Done(already_read);
        }
        return PipeStep::Suspend;
    }
    let mut read = already_read;
    let mut i: usize = 0;
    while i < loop_read
        invariant
            i <= loop_read,
            loop_read == old(pipe).bytes().len(),
            i <= dest@.len(),
            read == already_read + i,
            already_read + loop_read <= usize::MAX,
            dest@.len() == old(dest)@.len(),
            pipe.bytes() == old(pipe).bytes().skip(i as int),
            pipe.write_end() == old(pipe).write_end(),
            forall|k: int| 0 <= k < i ==> #[trigger] dest@[k] == old(pipe).bytes()[k],
            forall|k: int| i <= k < old(dest)@.len() ==> #[trigger] dest@[k] == old(dest)@[k],
        ensures
            i == vstd::math::min(loop_read as int, dest@.len() as int),
        decreases loop_read - i,
    {
        if i >= dest.len() {
            break;
        }
        let b = pipe.read_byte();
        dest[i] = b;
        read += 1;
        i += 1;
        assert(pipe.bytes() =~= old(pipe).bytes().skip(i as int));
    }
    PipeStep::Continue(read)
}

/// One step of a write of `src` into the pipe: with the pipe full the writer waits; else the
/// start of `src` is appended, as much as fits; when all of `src` fit, the write is done.
pub fn pipe_write_step(pipe: &mut PipeBuffer, src: &[u8]) -> (r: PipeStep)
    requires
        old(pipe).wf(),
    ensures
        final(pipe).write_end() == old(pipe).write_end(),
        final(pipe).wf(),
        ({
            let room = BUFFER_SIZE - old(pipe).bytes().len();
            if room == 0 {
                r == PipeStep::Suspend && final(pipe).bytes() == old(pipe).bytes()
            } else if src@.len() < room {
                r == PipeStep::Done(src@.len() as usize) && final(pipe).bytes() == old(pipe).bytes() + src@
            } else {
                r == PipeStep::Continue(room as usize) && final(pipe).bytes() == old(pipe).bytes() + src@.take(room)
            }
        }),
{
    let loop_write = pipe.available_write();
    if loop_write == 0 {
        return PipeStep::Suspend;
    }
    let mut i: usize = 0;
    while i < loop_write
        invariant
            i <= loop_write,
            loop_write == BUFFER_SIZE - old(pipe).bytes().len(),
            i <= src@.len(),
            pipe.bytes() == old(pipe).bytes() + src@.take(i as int),
            pipe.write_end() == old(pipe).write_end(),
        decreases loop_write - i,
    {
        if i >= src.len() {
            assert(src@.take(i as int) =~= src@);
            return PipeStep::Done(i);
        }
        pipe.write_byte(src[i]);
        i += 1;
        assert(pipe.bytes() =~= old(pipe).bytes() + src@.take(i as int));
    }
    PipeStep::Continue(loop_write)
}

/// A read from the pipe into `dest`: when the pipe holds bytes, its first bytes, as many as
/// `dest` takes, move to the start of `dest` and their number is returned; when it is empty,
/// the read returns nothing once the write end is closed, and waits otherwise.
pub fn pipe_read(pipe: &mut PipeBuffer, dest: &mut [u8]) -> (r: PipeStep)
    requires
        old(pipe).wf(),
        old(pipe).write_end() is Some,
        old(dest)@.len() > 0,
    ensures
        final(pipe).write_end() == old(pipe).write_end(),
        final(pipe).wf(),
        final(dest)@.len() == old(dest)@.len(),
        old(pipe).bytes().len() == 0 ==> {
            &&& r == if !old(pipe).write_end().unwrap() { PipeStep::Done(0) } else { PipeStep::Suspend }
            &&& final(pipe).bytes() == old(pipe).bytes()
            &&& final(dest)@ == old(dest)@
        },
        old(pipe).bytes().len() > 0 ==> {
            let n = vstd::math::min(old(pipe).bytes().len() as int, old(dest)@.len() as int);
            &&& r == PipeStep::Done(n as usize)
            &&& 1 <= n <= old(dest)@.len()
            &&& final(pipe).bytes() == old(pipe).bytes().skip(n)
            &&& final(dest)@ == old(pipe).bytes().take(n) + old(dest)@.skip(n)
        },
{
    let step = pipe_read_step(pipe, dest, 0);
    match step {
        PipeStep::Continue(n) => {
            proof {
                let k = vstd::math::min(old(pipe).bytes().len() as int, old(dest)@.len() as int);
                assert(dest@ =~= old(pipe).bytes().take(k) + old(dest)@.skip(k));
            }
            PipeStep::Done(n)
        },
        _ => step,
    }
}

/// A write of `src` into the pipe, the first `written` bytes of `src` having gone in before:
/// the rest of `src` goes in, as much as fits. Returns what the writer does next, done once all
/// of `src` went in and waiting for room otherwise, and the number of bytes of `src` written
/// so far.
pub fn pipe_write(pipe: &mut PipeBuffer, src: &[u8], written: usize) -> (r: (PipeStep, usize))
    requires
        old(pipe).wf(),
        written <= src@.len(),
    ensures
        final(pipe).write_end() == old(pipe).write_end(),
        final(pipe).wf(),
        ({
            let room = BUFFER_SIZE - old(pipe).bytes().len();
            let w = vstd::math::min(src@.len() as int, written + room);
            &&& r.1 == w
            &&& final(pipe).bytes() == old(pipe).bytes() + src@.subrange(written as int, w)
            &&& r.0 == if w == src@.len() { PipeStep::Done(src@.len() as usize) } else { PipeStep::Suspend }
        }),
{
    if written == src.len() {
        proof {
            assert(src@.subrange(written as int, written as int) =~= Seq::<u8>::empty());
            assert(old(pipe).bytes() + Seq::<u8>::empty() =~= old(pipe).bytes());
        }
        return (PipeStep::Done(src.len()), written);
    }
    let rest = crate::inode::slice_range(src, written, src.len());
    let step = pipe_write_step(pipe, rest);
    match step {
        PipeStep::Done(_) => (PipeStep::Done(src.len()), src.len()),
        PipeStep::Continue(room) => {
            proof {
                assert(rest@.take(room as int) =~= src@.subrange(written as int, written + room));
            }
            let w = written + room;
            if w == src.len() {
                (PipeStep::Done(src.len()), w)
            } else {
                (PipeStep::Suspend, w)
            }
        },
        PipeStep::Suspend => {
            proof {
                assert(src@.subrange(written as int, written as int) =~= Seq::<u8>::empty());
                assert(old(pipe).bytes() + Seq::<u8>::empty() =~= old(pipe).bytes());
            }
            (PipeStep::Suspend, written)
        },
    }
}

/// Successive writes of `src`, each going on from where the last one stopped, append the bytes
/// of `src` to the stream in order, each once: what two calls of [`pipe_write`] append is what
/// one call covering both stretches would.
pub proof fn lemma_writes_append_once(src: Seq<u8>, w0: int, w1: int, w2: int)
    requires
        0 <= w0 <= w1 <= w2 <= src.len(),
    ensures
        src.subrange(w0, w1) + src.subrange(w1, w2) == src.subrange(w0, w2),
{
    assert(src.subrange(w0, w1) + src.subrange(w1, w2) =~= src.subrange(w0, w2));
}

} // verus!
