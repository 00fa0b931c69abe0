//! Byte sources and sinks, and buffered streams over them.
//!
//! A buffered stream keeps bytes in a buffer of its own and lets its user
//! look at the part in use as a window: the bytes that can be read without
//! asking the source again, or the room that can be written to without
//! handing anything to the sink. A window is good until the next call that
//! moves, refills or flushes the stream.

use vstd::prelude::*;
use crate::common::{allocate_zeroed_bytes, zeros};

verus! {

/// Size of the buffer that a buffered stream allocates by default.
pub const DEFAULT_BUFFER_SIZE: usize = 8192;

/// Something that bytes are read from, front to back.
pub trait ByteSource {
    /// The bytes that have not been read yet.
    spec fn remaining(&self) -> Seq<u8>;

    /// Moves up to `buf.len()` bytes from the front of the source into the
    /// front of `buf` and returns how many. Nothing is moved only when
    /// `buf` is empty or the source is at its end.
    fn read(&mut self, buf: &mut [u8]) -> (n: usize)
        ensures
            n <= old(buf)@.len(),
            n <= old(self).remaining().len(),
            final(buf)@ == old(self).remaining().take(n as int) + old(buf)@.skip(n as int),
            final(self).remaining() == old(self).remaining().skip(n as int),
            n == 0 <==> (old(buf)@.len() == 0 || old(self).remaining().len() == 0),
    ;
}

/// Something that bytes are written to, one after another.
pub trait ByteSink {
    /// The bytes that have been written so far.
    spec fn written(&self) -> Seq<u8>;

    /// Appends all of `buf`.
    fn write(&mut self, buf: &[u8])
        ensures
            final(self).written() == old(self).written() + buf@,
    ;
}

impl ByteSink for Vec<u8> {
    open spec fn written(&self) -> Seq<u8> {
        self@
    }

    fn write(&mut self, buf: &[u8]) {
        self.extend_from_slice(buf);
    }
}

/// Copies `n` bytes from `src[src_at..]` to `dst[dst_at..]`.
pub fn copy_bytes(dst: &mut [u8], dst_at: usize, src: &[u8], src_at: usize, n: usize)
    requires
        dst_at + n <= old(dst)@.len(),
        src_at + n <= src@.len(),
    ensures
        final(dst)@ == old(dst)@.take(dst_at as int) + src@.subrange(
            src_at as int,
            src_at + n,
        ) + old(dst)@.skip(dst_at + n),
{
    let mut i: usize = 0;
    while i < n
        invariant
            i <= n,
            dst_at + n <= dst.len(),
            src_at + n <= src.len(),
            dst@.len() == old(dst)@.len(),
            dst@ == old(dst)@.take(dst_at as int) + src@.subrange(src_at as int, src_at + i)
                + old(dst)@.skip(dst_at + i),
        decreases n - i,
    {
        dst[dst_at + i] = src[src_at + i];
        i += 1;
    }
}

/// Sets the `n` bytes of `dst[dst_at..]` to zero.
pub fn zero_bytes(dst: &mut [u8], dst_at: usize, n: usize)
    requires
        dst_at + n <= old(dst)@.len(),
    ensures
        final(dst)@ == old(dst)@.take(dst_at as int) + zeros(n as nat) + old(dst)@.skip(
            dst_at + n,
        ),
{
    let mut i: usize = 0;
    while i < n
        invariant
            i <= n,
            dst_at + n <= dst.len(),
            dst@.len() == old(dst)@.len(),
            dst@ == old(dst)@.take(dst_at as int) + zeros(i as nat) + old(dst)@.skip(dst_at + i),
        decreases n - i,
    {
        dst[dst_at + i] = 0u8;
        i += 1;
    }
}

/// A byte source over bytes held in memory. It hands out at most a fixed
/// number of bytes per read, so that a reader above it meets short reads.
pub struct MemorySource {
    data: Vec<u8>,
    pos: usize,
    chunk: usize,
}

impl MemorySource {
    /// The position never passes the end, and a read may always move a byte.
    #[verifier::type_invariant]
    spec fn inv(self) -> bool {
        self.pos <= self.data@.len() && self.chunk >= 1
    }

    /// The largest number of bytes that one read moves.
    pub closed spec fn chunk(&self) -> int {
        self.chunk as int
    }

    /// A source of `data` that fills every read as far as it can.
    pub fn new(data: Vec<u8>) -> (s: MemorySource)
        ensures
            s.remaining() == data@,
    {
        MemorySource { data, pos: 0, chunk: usize::MAX }
    }

    /// A source of `data` that moves at most `chunk` bytes per read.
    pub fn with_chunk(data: Vec<u8>, chunk: usize) -> (s: MemorySource)
        requires
            chunk >= 1,
        ensures
            s.chunk() == chunk,
            s.remaining() == data@,
    {
        MemorySource { data, pos: 0, chunk }
    }
}

impl MemorySource {
    /// The number of bytes that have not been read yet.
    pub fn unread(&self) -> (n: usize)
        ensures
            n == self.remaining().len(),
    {
        proof {
            use_type_invariant(self);
        }
        self.data.len() - self.pos
    }
}

impl ByteSource for MemorySource {
    closed spec fn remaining(&self) -> Seq<u8> {
        self.data@.skip(self.pos as int)
    }

    fn read(&mut self, buf: &mut [u8]) -> (n: usize)
        ensures
            final(self).chunk() == old(self).chunk(),
            n == vstd::math::min(
                vstd::math::min(old(buf)@.len() as int, old(self).remaining().len() as int),
                old(self).chunk(),
            ),
    {
        proof {
            use_type_invariant(&*self);
        }
        let left = self.data.len() - self.pos;
        let mut n = if buf.len() < left {
            buf.len()
        } else {
            left
        };
        if self.chunk < n {
            n = self.chunk;
        }
        copy_bytes(buf, 0, self.data.as_slice(), self.pos, n);
        self.pos = self.pos + n;
        assert(buf@ =~= old(self).remaining().take(n as int) + old(buf)@.skip(n as int));
        assert(self.remaining() =~= old(self).remaining().skip(n as int));
        n
    }
}

} // verus!

verus! {

/// The buffer of a [`BufferedInputStream`]: the bytes that were taken from
/// the source and not handed on yet.
pub struct ReadBuffer {
    buf: Vec<u8>,
    pos: usize,
    end: usize,
}

impl ReadBuffer {
    /// The unread part lies inside the buffer, and the buffer has room.
    pub closed spec fn wf(&self) -> bool {
        self.pos <= self.end <= self.buf@.len() && self.buf@.len() >= 1
    }

    /// The bytes that are buffered and not handed on yet.
    pub closed spec fn window(&self) -> Seq<u8> {
        self.buf@.subrange(self.pos as int, self.end as int)
    }

    /// The size of the buffer.
    pub closed spec fn capacity(&self) -> int {
        self.buf@.len() as int
    }
}

/// A byte source with a buffer in front of it. Besides reading, it shows
/// the buffered bytes as a window and lets the reader step over them.
pub struct BufferedInputStream<'a, R: ByteSource> {
    /// The source that the buffer is filled from.
    pub inner: &'a mut R,
    /// The bytes taken from the source and not handed on yet.
    pub buffer: ReadBuffer,
}

impl<'a, R: ByteSource> BufferedInputStream<'a, R> {
    /// The buffer is in order.
    pub open spec fn wf(&self) -> bool {
        self.buffer.wf()
    }

    /// The bytes that can be had without asking the source.
    pub open spec fn window(&self) -> Seq<u8> {
        self.buffer.window()
    }

    /// All bytes still to come: the window, then what the source holds.
    pub open spec fn remaining(&self) -> Seq<u8> {
        self.buffer.window() + self.inner.remaining()
    }

    /// A stream over `r` with a buffer of the default size.
    pub fn new(r: &'a mut R) -> (s: Self)
        ensures
            s.wf(),
            s.window().len() == 0,
            s.buffer.capacity() == DEFAULT_BUFFER_SIZE,
            *s.inner == *old(r),
            *final(s.inner) == *final(r),
    {
        Self::with_capacity(r, DEFAULT_BUFFER_SIZE)
    }

    /// A stream over `r` with a buffer of `capacity` bytes, which is the
    /// width of the widest window.
    pub fn with_capacity(r: &'a mut R, capacity: usize) -> (s: Self)
        requires
            capacity >= 1,
        ensures
            s.wf(),
            s.window().len() == 0,
            s.buffer.capacity() == capacity,
            *s.inner == *old(r),
            *final(s.inner) == *final(r),
    {
        let buf = allocate_zeroed_bytes(capacity);
        BufferedInputStream { inner: r, buffer: ReadBuffer { buf, pos: 0, end: 0 } }
    }

    /// The window. If it is empty the buffer is first filled from the
    /// source, so the window that comes back is empty only at the end of
    /// the stream.
    pub fn get_read_buffer(&mut self) -> (w: &[u8])
        requires
            old(self).wf(),
        ensures
            final(self).wf(),
            final(self).buffer.capacity() == old(self).buffer.capacity(),
            w@ == final(self).window(),
            w@.len() <= final(self).buffer.capacity(),
            final(self).remaining() == old(self).remaining(),
            w@.len() == 0 <==> old(self).remaining().len() == 0,
            old(self).window().len() > 0 ==> final(self).window() == old(self).window()
                && *final(self).inner == *old(self).inner,
            *final(final(self).inner) == *final(old(self).inner),
    {
        if self.buffer.pos == self.buffer.end {
            let room = self.buffer.buf.as_mut_slice();
            let n = self.inner.read(room);
            self.buffer.pos = 0;
            self.buffer.end = n;
            assert(self.remaining() =~= old(self).remaining());
        }
        vstd::slice::slice_subrange(self.buffer.buf.as_slice(), self.buffer.pos, self.buffer.end)
    }

    /// Steps over the first `n` bytes of the window.
    pub fn skip(&mut self, n: usize)
        requires
            old(self).wf(),
            n <= old(self).window().len(),
        ensures
            final(self).wf(),
            final(self).buffer.capacity() == old(self).buffer.capacity(),
            final(self).window() == old(self).window().skip(n as int),
            final(self).remaining() == old(self).remaining().skip(n as int),
            *final(self).inner == *old(self).inner,
            *final(final(self).inner) == *final(old(self).inner),
    {
        self.buffer.pos = self.buffer.pos + n;
        assert(self.window() =~= old(self).window().skip(n as int));
        assert(self.remaining() =~= old(self).remaining().skip(n as int));
    }

    /// Moves up to `buf.len()` bytes from the front of the stream into the
    /// front of `buf` and returns how many. Buffered bytes go first; with
    /// none buffered, a request of at least the buffer's size is handed to
    /// the source as it is. Nothing is moved only when `buf` is empty or
    /// the stream is at its end.
    #[verifier::rlimit(40)]
    pub fn read(&mut self, buf: &mut [u8]) -> (n: usize)
        requires
            old(self).wf(),
        ensures
            final(self).wf(),
            final(self).buffer.capacity() == old(self).buffer.capacity(),
            n <= old(buf)@.len(),
            n <= old(self).remaining().len(),
            final(buf)@ == old(self).remaining().take(n as int) + old(buf)@.skip(n as int),
            final(self).remaining() == old(self).remaining().skip(n as int),
            n == 0 <==> (old(buf)@.len() == 0 || old(self).remaining().len() == 0),
            old(self).window().len() > 0 ==> {
                &&& n == vstd::math::min(old(buf)@.len() as int, old(self).window().len() as int)
                &&& *final(self).inner == *old(self).inner
            },
            old(self).window().len() == 0 && old(buf)@.len() >= old(self).buffer.capacity()
                ==> final(self).window().len() == 0,
            *final(final(self).inner) == *final(old(self).inner),
    {
        if self.buffer.pos == self.buffer.end && buf.len() >= self.buffer.buf.len() {
            let n = self.inner.read(buf);
            assert(old(self).remaining() =~= old(self).inner.remaining());
            assert(self.remaining() =~= self.inner.remaining());
            return n;
        }
        if buf.len() == 0 {
            assert(buf@ =~= old(self).remaining().take(0) + old(buf)@.skip(0));
            assert(self.remaining() =~= old(self).remaining().skip(0));
            return 0;
        }
        if self.buffer.pos == self.buffer.end {
            let room = self.buffer.buf.as_mut_slice();
            let filled = self.inner.read(room);
            self.buffer.pos = 0;
            self.buffer.end = filled;
            assert(self.remaining() =~= old(self).remaining());
        }
        let avail = self.buffer.end - self.buffer.pos;
        let n = if buf.len() < avail {
            buf.len()
        } else {
            avail
        };
        copy_bytes(buf, 0, self.buffer.buf.as_slice(), self.buffer.pos, n);
        self.buffer.pos = self.buffer.pos + n;
        assert(buf@ =~= old(self).remaining().take(n as int) + old(buf)@.skip(n as int));
        assert(self.remaining() =~= old(self).remaining().skip(n as int));
        n
    }

    /// Whether the stream is at its end. Finding out may fill the buffer.
    pub fn eof(&mut self) -> (at_end: bool)
        requires
            old(self).wf(),
        ensures
            final(self).wf(),
            final(self).buffer.capacity() == old(self).buffer.capacity(),
            final(self).remaining() == old(self).remaining(),
            at_end <==> old(self).remaining().len() == 0,
            *final(final(self).inner) == *final(old(self).inner),
    {
        let w = self.get_read_buffer();
        w.len() == 0
    }
}

} // verus!

verus! {

/// The buffer of a [`BufferedOutputStream`]: the bytes that were accepted
/// and not handed to the sink yet, and the room behind them.
pub struct WriteBuffer {
    buf: Vec<u8>,
    pos: usize,
}

impl WriteBuffer {
    /// The position lies inside the buffer.
    pub closed spec fn wf(&self) -> bool {
        self.pos <= self.buf@.len()
    }

    /// The bytes that were accepted and not handed to the sink yet.
    pub closed spec fn pending(&self) -> Seq<u8> {
        self.buf@.take(self.pos as int)
    }

    /// The room behind the pending bytes, with whatever it holds.
    pub closed spec fn window(&self) -> Seq<u8> {
        self.buf@.skip(self.pos as int)
    }

    /// The size of the buffer.
    pub open spec fn capacity(&self) -> int {
        (self.pending().len() + self.window().len()) as int
    }
}

/// A byte sink with a buffer in front of it. Besides writing, it shows the
/// unused room of its buffer as a window, which a writer fills in place and
/// then commits.
pub struct BufferedOutputStream<'a, W: ByteSink> {
    /// The sink that the buffer is emptied into.
    pub inner: &'a mut W,
    /// The bytes accepted and not handed to the sink yet.
    pub buffer: WriteBuffer,
}

impl<'a, W: ByteSink> BufferedOutputStream<'a, W> {
    /// The buffer is in order.
    pub open spec fn wf(&self) -> bool {
        self.buffer.wf()
    }

    /// Everything written through the stream so far: what the sink has,
    /// then what is pending.
    pub open spec fn written(&self) -> Seq<u8> {
        self.inner.written() + self.buffer.pending()
    }

    /// A stream over `w` with a buffer of the default size. Nothing is
    /// pending, the window is the whole buffer and holds zeros, and the
    /// sink has been handed nothing.
    pub fn new(w: &'a mut W) -> (s: Self)
        ensures
            s.wf(),
            s.buffer.pending().len() == 0,
            s.buffer.capacity() == DEFAULT_BUFFER_SIZE,
            s.buffer.window() == zeros(DEFAULT_BUFFER_SIZE as nat),
            *s.inner == *old(w),
            *final(s.inner) == *final(w),
    {
        Self::with_capacity(w, DEFAULT_BUFFER_SIZE)
    }

    /// A stream over `w` with a buffer of `capacity` bytes. Nothing is
    /// pending, the window is the whole buffer and holds zeros, and the
    /// sink has been handed nothing.
    pub fn with_capacity(w: &'a mut W, capacity: usize) -> (s: Self)
        ensures
            s.wf(),
            s.buffer.pending().len() == 0,
            s.buffer.capacity() == capacity,
            s.buffer.window() == zeros(capacity as nat),
            *s.inner == *old(w),
            *final(s.inner) == *final(w),
    {
        let buf = allocate_zeroed_bytes(capacity);
        let s = BufferedOutputStream { inner: w, buffer: WriteBuffer { buf, pos: 0 } };
        assert(s.buffer.window() =~= zeros(capacity as nat));
        s
    }

    /// The window: the room behind the pending bytes. What the caller puts
    /// there stays in the buffer, and counts as written once it is
    /// committed with [`Self::write_ptr`] or [`Self::advance`].
    #[allow(non_snake_case)]
    pub fn getWriteBuffer(&mut self) -> (w: &mut [u8])
        requires
            old(self).wf(),
        ensures
            w@ == old(self).buffer.window(),
            final(self).wf(),
            final(self).buffer.window() == final(w)@,
            final(self).buffer.pending() == old(self).buffer.pending(),
            *final(self).inner == *old(self).inner,
            *final(final(self).inner) == *final(old(self).inner),
    {
        let (_, room) = self.buffer.buf.as_mut_slice().split_at_mut(self.buffer.pos);
        room
    }

    /// Commits the first `n` bytes of the window, which may be all of it:
    /// they are pending now, and the window starts behind them.
    pub fn advance(&mut self, n: usize)
        requires
            old(self).wf(),
            n <= old(self).buffer.window().len(),
        ensures
            final(self).wf(),
            final(self).buffer.pending() == old(self).buffer.pending() + old(
                self,
            ).buffer.window().take(n as int),
            final(self).buffer.window() == old(self).buffer.window().skip(n as int),
            final(self).buffer.capacity() == old(self).buffer.capacity(),
            *final(self).inner == *old(self).inner,
            *final(final(self).inner) == *final(old(self).inner),
    {
        self.write_ptr(n);
    }

    /// Commits the first `len` bytes of the window, as [`Self::advance`]
    /// does: they are pending now, and the window starts behind them.
    pub fn write_ptr(&mut self, len: usize)
        requires
            old(self).wf(),
            len <= old(self).buffer.window().len(),
        ensures
            final(self).wf(),
            final(self).buffer.pending() == old(self).buffer.pending() + old(
                self,
            ).buffer.window().take(len as int),
            final(self).buffer.window() == old(self).buffer.window().skip(len as int),
            final(self).buffer.capacity() == old(self).buffer.capacity(),
            *final(self).inner == *old(self).inner,
            *final(final(self).inner) == *final(old(self).inner),
    {
        assert(self.buffer.buf@.len() == self.buffer.buf.len());
        self.buffer.pos = self.buffer.pos + len;
        assert(self.buffer.pending() =~= old(self).buffer.pending() + old(
            self,
        ).buffer.window().take(len as int));
        assert(self.buffer.window() =~= old(self).buffer.window().skip(len as int));
    }

    /// Writes all of `buf`. If it fits in the window it is only buffered.
    /// If it is no larger than the buffer, the buffer is filled up, handed
    /// to the sink, and the rest of `buf` is buffered. If it is larger, the
    /// pending bytes and then `buf` itself go to the sink.
    #[verifier::rlimit(40)]
    pub fn write(&mut self, buf: &[u8])
        requires
            old(self).wf(),
        ensures
            final(self).wf(),
            final(self).buffer.capacity() == old(self).buffer.capacity(),
            final(self).written() == old(self).written() + buf@,
            buf@.len() <= old(self).buffer.window().len() ==> {
                &&& final(self).inner.written() == old(self).inner.written()
                &&& final(self).buffer.pending() == old(self).buffer.pending() + buf@
                &&& final(self).buffer.window() == old(self).buffer.window().skip(
                    buf@.len() as int,
                )
            },
            old(self).buffer.window().len() < buf@.len() <= old(self).buffer.capacity() ==> {
                &&& final(self).inner.written() == old(self).written() + buf@.take(
                    old(self).buffer.window().len() as int,
                )
                &&& final(self).buffer.pending() == buf@.skip(
                    old(self).buffer.window().len() as int,
                )
                &&& final(self).buffer.window() == (old(self).buffer.pending() + buf@.take(
                    old(self).buffer.window().len() as int,
                )).skip(buf@.len() - old(self).buffer.window().len())
            },
            buf@.len() > old(self).buffer.capacity() ==> {
                &&& final(self).inner.written() == old(self).written() + buf@
                &&& final(self).buffer.pending().len() == 0
                &&& final(self).buffer.window() == old(self).buffer.pending() + old(
                    self,
                ).buffer.window()
            },
            *final(final(self).inner) == *final(old(self).inner),
    {
        let capacity = self.buffer.buf.len();
        let available = capacity - self.buffer.pos;
        let size = buf.len();
        if size <= available {
            copy_bytes(self.buffer.buf.as_mut_slice(), self.buffer.pos, buf, 0, size);
            self.buffer.pos = self.buffer.pos + size;
            assert(self.buffer.pending() =~= old(self).buffer.pending() + buf@);
            assert(self.buffer.window() =~= old(self).buffer.window().skip(size as int));
        } else if size <= capacity {
            copy_bytes(self.buffer.buf.as_mut_slice(), self.buffer.pos, buf, 0, available);
            assert(self.buffer.buf@ =~= old(self).buffer.pending() + buf@.take(available as int));
            self.inner.write(self.buffer.buf.as_slice());
            let rest = size - available;
            copy_bytes(self.buffer.buf.as_mut_slice(), 0, buf, available, rest);
            self.buffer.pos = rest;
            assert(self.buffer.pending() =~= buf@.skip(available as int));
            assert(self.buffer.window() =~= (old(self).buffer.pending() + buf@.take(
                available as int,
            )).skip(rest as int));
            assert(self.inner.written() =~= old(self).written() + buf@.take(available as int));
            assert(self.written() =~= old(self).written() + buf@);
        } else {
            let pending = vstd::slice::slice_subrange(
                self.buffer.buf.as_slice(),
                0,
                self.buffer.pos,
            );
            self.inner.write(pending);
            self.buffer.pos = 0;
            self.inner.write(buf);
            assert(self.buffer.pending() =~= Seq::<u8>::empty());
            assert(self.buffer.window() =~= old(self).buffer.pending() + old(
                self,
            ).buffer.window());
            assert(self.written() =~= old(self).written() + buf@);
        }
    }

    /// Hands the pending bytes to the sink, if there are any. The window
    /// is the whole buffer again, with the bytes it held.
    pub fn flush(&mut self)
        requires
            old(self).wf(),
        ensures
            final(self).wf(),
            final(self).buffer.capacity() == old(self).buffer.capacity(),
            final(self).buffer.pending().len() == 0,
            final(self).buffer.window() == old(self).buffer.pending() + old(self).buffer.window(),
            final(self).inner.written() == old(self).written(),
            final(self).written() == old(self).written(),
            old(self).buffer.pending().len() == 0 ==> *final(self).inner == *old(self).inner,
            *final(final(self).inner) == *final(old(self).inner),
    {
        if self.buffer.pos > 0 {
            let pending = vstd::slice::slice_subrange(
                self.buffer.buf.as_slice(),
                0,
                self.buffer.pos,
            );
            self.inner.write(pending);
            self.buffer.pos = 0;
        }
        assert(self.buffer.pending() =~= Seq::<u8>::empty());
        assert(self.buffer.window() =~= old(self).buffer.pending() + old(self).buffer.window());
        assert(old(self).buffer.pending().len() == 0 ==> old(self).written() =~= old(
            self,
        ).inner.written());
    }
}

} // verus!
