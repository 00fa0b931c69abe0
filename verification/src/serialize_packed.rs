//! The streaming encoder and decoder of the packed format.
//!
//! [`PackedOutputStream`] packs the words it is given into the window of a
//! buffered output stream; [`PackedInputStream`] unpacks from the window of
//! a buffered input stream into the caller's buffer. Both are verified
//! against the format as [`crate::packed`] states it.

use vstd::prelude::*;
use crate::arena::{segment_views, MAX_SEGMENT_WORDS};
use crate::common::{zeros, Word};
use crate::io::{
    copy_bytes, zero_bytes, BufferedInputStream, BufferedOutputStream, ByteSink, ByteSource,
};
use crate::message::MessageBuilder;
use crate::packed::{
    expand, group_head, group_len, group_run, group_tail, has_count, head_len, lemma_bit_mask,
    lemma_literal_count_bounds, lemma_literal_count_monotonic, lemma_pack_step,
    lemma_unpack_group_bounds, lemma_unpack_step, lemma_word_tag_zero_or_full,
    lemma_zero_run_bounds, literal_count, literals, nonzero_bit, nonzero_count, pack, pack_all,
    pack_group, raw_run, settled, tag_bit, unpack, unpack_after, unpack_group, word_tag,
    zero_run,
    PackedError, Unpacked, MAX_RUN_WORDS,
};
use crate::serialize::{message_chunk_bytes, message_chunks};

verus! {

/// Room that the head of one tag group can take: the tag, eight literals
/// and the count.
pub const GROUP_HEAD_MAX: usize = 10;

/// Packs the word at `src[at..]` to `dst[dst_at..]`: the tag, then the
/// nonzero bytes. Every byte is stored and the place moves on only behind
/// a nonzero one, so up to nine bytes of `dst` are touched. Returns the tag
/// and the number of bytes that make up the packed word.
pub fn pack_word(src: &[u8], at: usize, dst: &mut [u8], dst_at: usize) -> (r: (u8, usize))
    requires
        at + 8 <= src@.len(),
        dst_at + 9 <= old(dst)@.len(),
    ensures
        r.0 == word_tag(src@.skip(at as int)),
        r.1 == 1 + nonzero_count(src@.skip(at as int), 8),
        1 <= r.1 <= 9,
        final(dst)@.len() == old(dst)@.len(),
        final(dst)@.take(dst_at as int) == old(dst)@.take(dst_at as int),
        final(dst)@.subrange(dst_at as int, dst_at + r.1) == seq![r.0] + literals(
            src@.skip(at as int),
            8,
        ),
        final(dst)@.skip(dst_at + 9) == old(dst)@.skip(dst_at + 9),
{
    let ghost w = src@.skip(at as int);
    let mut bits: [u8; 8] = [0u8; 8];
    assert(dst@.len() == dst.len() && src@.len() == src.len());
    let mut out: usize = dst_at + 1;
    let mut i: usize = 0;
    while i < 8
        invariant
            i <= 8,
            at + 8 <= src.len(),
            dst_at + 9 <= dst.len(),
            dst@.len() == old(dst)@.len(),
            w == src@.skip(at as int),
            out == dst_at + 1 + nonzero_count(w, i as int),
            dst_at + 1 <= out <= dst_at + 1 + i,
            forall|j: int| 0 <= j < i ==> #[trigger] bits@[j] == nonzero_bit(w[j]),
            dst@.subrange(dst_at + 1, out as int) == literals(w, i as int),
            dst@.take(dst_at as int) == old(dst)@.take(dst_at as int),
            dst@.skip(dst_at + 9) == old(dst)@.skip(dst_at + 9),
        decreases 8 - i,
    {
        let b = src[at + i];
        let bit: u8 = if b != 0 {
            1
        } else {
            0
        };
        let ghost before = dst@;
        dst[out] = b;
        bits[i] = bit;
        proof {
            assert(w[i as int] == b);
            let next = out + bit;
            assert(dst@.subrange(dst_at + 1, next as int) =~= literals(w, i + 1)) by {
                assert(before.subrange(dst_at + 1, out as int) == literals(w, i as int));
                assert(dst@.subrange(dst_at + 1, out as int) =~= before.subrange(
                    dst_at + 1,
                    out as int,
                ));
            }
            assert(dst@.take(dst_at as int) =~= before.take(dst_at as int));
            assert(dst@.skip(dst_at + 9) =~= before.skip(dst_at + 9));
        }
        out = out + bit as usize;
        i += 1;
    }
    let tag: u8 = bits[0] | (bits[1] << 1u8) | (bits[2] << 2u8) | (bits[3] << 3u8) | (bits[4]
        << 4u8) | (bits[5] << 5u8) | (bits[6] << 6u8) | (bits[7] << 7u8);
    let ghost body = dst@;
    dst[dst_at] = tag;
    proof {
        assert(tag == word_tag(w));
        assert(dst@.subrange(dst_at + 1, out as int) =~= body.subrange(dst_at + 1, out as int));
        assert(dst@.subrange(dst_at as int, out as int) =~= seq![tag] + literals(w, 8));
        assert(dst@.take(dst_at as int) =~= body.take(dst_at as int));
        assert(dst@.skip(dst_at + 9) =~= body.skip(dst_at + 9));
    }
    (tag, out - dst_at)
}

/// How many of the eight bytes at `src[at..]` are zero.
pub fn count_zero_bytes(src: &[u8], at: usize) -> (zeros: usize)
    requires
        at + 8 <= src@.len(),
    ensures
        zeros == 8 - nonzero_count(src@.skip(at as int), 8),
        zeros <= 8,
{
    let ghost w = src@.skip(at as int);
    let mut zeros: usize = 0;
    let mut i: usize = 0;
    while i < 8
        invariant
            i <= 8,
            at + 8 <= src.len(),
            w == src@.skip(at as int),
            zeros == i - nonzero_count(w, i as int),
            zeros <= i,
        decreases 8 - i,
    {
        assert(w[i as int] == src@[at + i]);
        if src[at + i] == 0 {
            zeros += 1;
        }
        i += 1;
    }
    zeros
}

/// The number of all-zero words at `src[at..]`, but at most `limit`.
pub fn count_zero_words(src: &[u8], at: usize, limit: usize) -> (run: usize)
    requires
        at <= src@.len(),
    ensures
        run == zero_run(src@.skip(at as int), limit as int),
        run <= limit,
        at + 8 * run <= src@.len(),
{
    let mut run: usize = 0;
    let mut pos: usize = at;
    proof {
        lemma_zero_run_bounds(src@.skip(at as int), limit as int);
        assert(src@.skip(at as int).len() == src@.len() - at);
    }
    while run < limit && src.len() - pos >= 8
        invariant
            at <= pos <= src.len(),
            pos == at + 8 * run,
            run <= limit,
            zero_run(src@.skip(at as int), limit as int) == run + zero_run(
                src@.skip(pos as int),
                limit - run,
            ),
        decreases limit - run,
    {
        if count_zero_bytes(src, pos) != 8 {
            return run;
        }
        assert(src@.skip(pos as int).skip(8) =~= src@.skip(pos + 8));
        run += 1;
        pos += 8;
    }
    run
}

/// The number of words with at most one zero byte at `src[at..]`, but at
/// most `limit`.
pub fn count_raw_words(src: &[u8], at: usize, limit: usize) -> (run: usize)
    requires
        at <= src@.len(),
    ensures
        run == raw_run(src@.skip(at as int), limit as int),
        run <= limit,
        at + 8 * run <= src@.len(),
{
    let mut run: usize = 0;
    let mut pos: usize = at;
    while run < limit && src.len() - pos >= 8
        invariant
            at <= pos <= src.len(),
            pos == at + 8 * run,
            run <= limit,
            raw_run(src@.skip(at as int), limit as int) == run + raw_run(
                src@.skip(pos as int),
                limit - run,
            ),
        decreases limit - run,
    {
        if count_zero_bytes(src, pos) >= 2 {
            return run;
        }
        assert(src@.skip(pos as int).skip(8) =~= src@.skip(pos + 8));
        run += 1;
        pos += 8;
    }
    run
}

/// Packs the head of the tag group at `src[at..]` to `dst[dst_at..]`: the
/// packed word, and after tag `0x00` or `0xff` the count of the words that
/// the group takes in besides. Returns the tag, the length of the head and
/// that count.
pub fn pack_group_head(src: &[u8], at: usize, dst: &mut [u8], dst_at: usize) -> (r: (
    u8,
    usize,
    usize,
))
    requires
        at + 8 <= src@.len(),
        dst_at + GROUP_HEAD_MAX <= old(dst)@.len(),
    ensures
        r.0 == word_tag(src@.skip(at as int)),
        r.2 == group_run(src@.skip(at as int)),
        r.2 <= MAX_RUN_WORDS,
        at + 8 + 8 * r.2 <= src@.len(),
        1 <= r.1 <= GROUP_HEAD_MAX,
        final(dst)@.len() == old(dst)@.len(),
        final(dst)@.take(dst_at as int) == old(dst)@.take(dst_at as int),
        final(dst)@.subrange(dst_at as int, dst_at + r.1) == group_head(src@.skip(at as int)),
{
    let ghost s = src@.skip(at as int);
    assert(dst@.len() == dst.len() && src@.len() == src.len());
    let (tag, word_len) = pack_word(src, at, dst, dst_at);
    let mut n: usize = word_len;
    let mut run: usize = 0;
    proof {
        assert(s.skip(8) =~= src@.skip(at + 8));
        lemma_word_tag_zero_or_full(s);
    }
    if tag == 0 || tag == 0xff {
        if tag == 0 {
            run = count_zero_words(src, at + 8, MAX_RUN_WORDS);
        } else {
            run = count_raw_words(src, at + 8, MAX_RUN_WORDS);
        }
        let ghost before = dst@;
        dst[dst_at + n] = run as u8;
        proof {
            assert(dst@.take(dst_at as int) =~= before.take(dst_at as int));
            assert(dst@.subrange(dst_at as int, dst_at + n) =~= before.subrange(
                dst_at as int,
                dst_at + n,
            ));
            assert(dst@.subrange(dst_at as int, dst_at + n + 1) =~= before.subrange(
                dst_at as int,
                dst_at + n,
            ).push(run as u8));
        }
        n = n + 1;
    }
    (tag, n, run)
}

/// A writer that packs what it is given and hands the packed bytes to a
/// buffered output stream.
pub struct PackedOutputStream<'a, 'b, W: ByteSink> {
    /// The stream that takes the packed bytes.
    pub inner: &'a mut BufferedOutputStream<'b, W>,
}

impl<'a, 'b, W: ByteSink> PackedOutputStream<'a, 'b, W> {
    /// The stream underneath is in order.
    pub open spec fn wf(&self) -> bool {
        self.inner.wf()
    }

    /// Everything written through the stream underneath so far.
    pub open spec fn written(&self) -> Seq<u8> {
        self.inner.written()
    }

    /// Packs the head of the tag group at `in_buf[in_pos..]`. It goes to
    /// the window of the stream underneath and is committed there, unless
    /// the scratch window is in use or the window is too small for a head:
    /// then it goes behind the `scratch_len` bytes that the scratch window
    /// holds, which are written out first if no head fits behind them.
    /// Returns the tag, the count of the further words of the group, and
    /// the number of bytes that the scratch window holds now.
    fn write_head(
        &mut self,
        in_buf: &[u8],
        in_pos: usize,
        scratch: &mut [u8],
        scratch_len: usize,
    ) -> (r: (u8, usize, usize))
        requires
            old(self).wf(),
            in_pos + 8 <= in_buf@.len(),
            old(scratch)@.len() == 2 * GROUP_HEAD_MAX,
            scratch_len <= old(scratch)@.len(),
        ensures
            final(self).wf(),
            final(self).inner.buffer.capacity() == old(self).inner.buffer.capacity(),
            r.0 == word_tag(in_buf@.skip(in_pos as int)),
            r.1 == group_run(in_buf@.skip(in_pos as int)),
            in_pos + 8 + 8 * r.1 <= in_buf@.len(),
            final(scratch)@.len() == old(scratch)@.len(),
            r.2 <= final(scratch)@.len(),
            final(self).written() + final(scratch)@.take(r.2 as int) == old(self).written() + old(
                scratch,
            )@.take(scratch_len as int) + group_head(in_buf@.skip(in_pos as int)),
            *final(final(self).inner) == *final(old(self).inner),
            *final(final(self).inner.inner) == *final(old(self).inner.inner),
    {
        let ghost group = in_buf@.skip(in_pos as int);
        let ghost done = self.inner.written() + scratch@.take(scratch_len as int);
        let mut used: usize = scratch_len;
        assert(scratch@.len() == scratch.len());
        if used > GROUP_HEAD_MAX {
            let filled = vstd::slice::slice_subrange(scratch, 0, used);
            self.inner.write(filled);
            used = 0;
            assert(self.inner.written() + scratch@.take(0) =~= done);
        }
        let in_scratch = used > 0 || self.inner.getWriteBuffer().len() < GROUP_HEAD_MAX;
        if in_scratch {
            let ghost before = scratch@;
            let (tag, n, run) = pack_group_head(in_buf, in_pos, scratch, used);
            proof {
                assert(scratch@.take(used + n) =~= before.take(used as int) + group_head(group))
                    by {
                    assert(scratch@.take(used as int) == before.take(used as int));
                    assert(scratch@.take(used + n) =~= scratch@.take(used as int)
                        + scratch@.subrange(used as int, used + n));
                }
                assert(self.inner.written() + scratch@.take(used + n) =~= done + group_head(group));
            }
            (tag, run, used + n)
        } else {
            let window = self.inner.getWriteBuffer();
            let (tag, n, run) = pack_group_head(in_buf, in_pos, window, 0);
            self.inner.write_ptr(n);
            assert(self.inner.written() + scratch@.take(0) =~= done + group_head(group));
            (tag, run, 0)
        }
    }

    /// Writes the `count` bytes at `in_buf[at..]` as they are. They are
    /// copied to the window in use, the scratch window if it holds
    /// anything, where they fit. Where they do not, what the scratch window
    /// holds is written out and the bytes are written in one piece.
    /// Returns the number of bytes that the scratch window holds now.
    fn write_tail(
        &mut self,
        in_buf: &[u8],
        at: usize,
        count: usize,
        scratch: &mut [u8],
        scratch_len: usize,
    ) -> (used: usize)
        requires
            old(self).wf(),
            at + count <= in_buf@.len(),
            scratch_len <= old(scratch)@.len(),
        ensures
            final(self).wf(),
            final(self).inner.buffer.capacity() == old(self).inner.buffer.capacity(),
            final(scratch)@.len() == old(scratch)@.len(),
            used <= final(scratch)@.len(),
            final(self).written() + final(scratch)@.take(used as int) == old(self).written() + old(
                scratch,
            )@.take(scratch_len as int) + in_buf@.subrange(at as int, at + count),
            *final(final(self).inner) == *final(old(self).inner),
            *final(final(self).inner.inner) == *final(old(self).inner.inner),
    {
        let ghost tail = in_buf@.subrange(at as int, at + count);
        let ghost done = self.inner.written() + scratch@.take(scratch_len as int);
        assert(scratch@.len() == scratch.len() && in_buf@.len() == in_buf.len());
        if scratch_len > 0 {
            if count <= scratch.len() - scratch_len {
                let ghost before = scratch@;
                copy_bytes(scratch, scratch_len, in_buf, at, count);
                assert(scratch@.take(scratch_len + count) =~= before.take(scratch_len as int)
                    + tail);
                assert(self.inner.written() + scratch@.take(scratch_len + count) =~= done + tail);
                scratch_len + count
            } else {
                let filled = vstd::slice::slice_subrange(scratch, 0, scratch_len);
                self.inner.write(filled);
                let raw = vstd::slice::slice_subrange(in_buf, at, at + count);
                self.inner.write(raw);
                assert(self.inner.written() + scratch@.take(0) =~= done + tail);
                0
            }
        } else {
            let window = self.inner.getWriteBuffer();
            if count <= window.len() {
                copy_bytes(window, 0, in_buf, at, count);
                self.inner.write_ptr(count);
            } else {
                let raw = vstd::slice::slice_subrange(in_buf, at, at + count);
                self.inner.write(raw);
            }
            assert(self.inner.written() + scratch@.take(0) =~= done + tail);
            0
        }
    }

    /// Packs `in_buf`, a whole number of words, and writes the packed form.
    ///
    /// Each tag group is packed in place into the window of the stream
    /// underneath, as long as the window has room for the head of a group.
    /// Where it has not, heads are packed into a scratch window of twenty
    /// bytes, which is written out when it cannot take another head. A run
    /// of unpacked words that does not fit in the window at hand is written
    /// in one piece.
    #[verifier::rlimit(40)]
    pub fn write(&mut self, in_buf: &[u8])
        requires
            old(self).wf(),
            in_buf@.len() % 8 == 0,
        ensures
            final(self).wf(),
            final(self).written() == old(self).written() + pack(in_buf@),
            final(self).inner.buffer.capacity() == old(self).inner.buffer.capacity(),
            *final(final(self).inner) == *final(old(self).inner),
            *final(final(self).inner.inner) == *final(old(self).inner.inner),
    {
        let len = in_buf.len();
        let ghost s = in_buf@;
        let ghost start = self.inner.written();
        let mut scratch: [u8; 20] = [0u8; 20];
        let mut scratch_len: usize = 0;
        let mut in_pos: usize = 0;
        assert(s.skip(0) =~= s);
        assert(start + scratch@.take(0) + pack(s) =~= start + pack(s));
        while in_pos < len
            invariant
                len == in_buf@.len(),
                s == in_buf@,
                len % 8 == 0,
                in_pos % 8 == 0,
                in_pos <= len,
                scratch_len <= 20,
                self.inner.wf(),
                self.inner.buffer.capacity() == old(self).inner.buffer.capacity(),
                self.inner.written() + scratch@.take(scratch_len as int) + pack(
                    s.skip(in_pos as int),
                ) == start + pack(s),
                *final(self.inner) == *final(old(self).inner),
                *final(self.inner.inner) == *final(old(self).inner.inner),
            decreases len - in_pos,
        {
            let ghost group = s.skip(in_pos as int);
            let ghost done = self.inner.written() + scratch@.take(scratch_len as int);
            proof {
                lemma_pack_step(s, in_pos as int);
            }
            let (tag, run, used) = self.write_head(in_buf, in_pos, &mut scratch, scratch_len);
            scratch_len = used;
            in_pos = in_pos + 8;
            if tag == 0xff {
                assert(s.subrange(in_pos as int, in_pos + 8 * run) =~= group_tail(group));
                scratch_len = self.write_tail(in_buf, in_pos, 8 * run, &mut scratch, scratch_len);
            }
            in_pos = in_pos + 8 * run;
            proof {
                assert(in_pos == in_pos - 8 - 8 * run + group_len(group));
                assert(self.inner.written() + scratch@.take(scratch_len as int) =~= done
                    + pack_group(group));
                assert(done + pack_group(group) + pack(s.skip(in_pos as int)) =~= done + pack(
                    group,
                ));
            }
        }
        if scratch_len > 0 {
            let filled = vstd::slice::slice_subrange(scratch.as_slice(), 0, scratch_len);
            self.inner.write(filled);
        }
        proof {
            assert(pack(s.skip(len as int)) =~= Seq::<u8>::empty());
            assert(self.inner.written() =~= start + pack(s));
        }
    }

    /// Hands what the stream underneath has pending to the sink.
    pub fn flush(&mut self)
        requires
            old(self).wf(),
        ensures
            final(self).wf(),
            final(self).inner.buffer.capacity() == old(self).inner.buffer.capacity(),
            final(self).inner.buffer.pending().len() == 0,
            final(self).inner.inner.written() == old(self).written(),
            final(self).written() == old(self).written(),
            *final(final(self).inner) == *final(old(self).inner),
            *final(final(self).inner.inner) == *final(old(self).inner.inner),
    {
        self.inner.flush();
    }

    /// Packs and writes the given pieces one after another, each a whole
    /// number of words.
    pub fn write_chunks(&mut self, chunks: &Vec<Vec<u8>>)
        requires
            old(self).wf(),
            forall|i: int| 0 <= i < chunks@.len() ==> (#[trigger] chunks@[i])@.len() % 8 == 0,
        ensures
            final(self).wf(),
            final(self).written() == old(self).written() + pack_all(
                Seq::new(chunks@.len(), |i: int| chunks@[i]@),
            ),
            final(self).inner.buffer.capacity() == old(self).inner.buffer.capacity(),
            *final(final(self).inner) == *final(old(self).inner),
            *final(final(self).inner.inner) == *final(old(self).inner.inner),
    {
        let ghost views = Seq::new(chunks@.len(), |i: int| chunks@[i]@);
        let count = chunks.len();
        let mut i: usize = 0;
        assert(views.take(0) =~= Seq::<Seq<u8>>::empty());
        assert(self.written() =~= old(self).written() + pack_all(views.take(0)));
        while i < count
            invariant
                i <= count,
                count == chunks@.len(),
                views == Seq::new(chunks@.len(), |i: int| chunks@[i]@),
                forall|k: int| 0 <= k < chunks@.len() ==> (#[trigger] chunks@[k])@.len() % 8 == 0,
                self.wf(),
                self.inner.buffer.capacity() == old(self).inner.buffer.capacity(),
                self.written() == old(self).written() + pack_all(views.take(i as int)),
                *final(self.inner) == *final(old(self).inner),
                *final(self.inner.inner) == *final(old(self).inner.inner),
            decreases count - i,
        {
            self.write(chunks[i].as_slice());
            proof {
                assert(views.take(i + 1).drop_last() =~= views.take(i as int));
                assert(views.take(i + 1).last() == chunks@[i as int]@);
                assert(self.written() =~= old(self).written() + pack_all(views.take(i + 1)));
            }
            i += 1;
        }
        assert(views.take(count as int) =~= views);
    }
}

/// Unpacks the word at the start of `window`, which holds the tag and all
/// its literals, to `out_buf[out..]`. No byte is tested: for each bit of the
/// tag the byte at hand is stored under a mask that is all ones where the
/// bit is set, and the place in the window moves on by the bit. Returns the
/// tag and the number of bytes of the window that the word took.
pub fn unpack_word(window: &[u8], out_buf: &mut [u8], out: usize) -> (r: (u8, usize))
    requires
        window@.len() >= 9,
        out + 8 <= old(out_buf)@.len(),
    ensures
        r.0 == window@[0],
        r.1 == 1 + literal_count(r.0, 8),
        1 <= r.1 <= 9,
        final(out_buf)@ == old(out_buf)@.take(out as int) + expand(r.0, window@.skip(1)) + old(
            out_buf,
        )@.skip(out + 8),
{
    assert(window@.len() == window.len() && out_buf@.len() == out_buf.len());
    let tag = window[0];
    let ghost src = window@.skip(1);
    let mut at: usize = 1;
    let mut n: u8 = 0;
    while n < 8
        invariant
            n <= 8,
            window.len() >= 9,
            out + 8 <= out_buf.len(),
            out_buf@.len() == old(out_buf)@.len(),
            src == window@.skip(1),
            tag == window@[0],
            at == 1 + literal_count(tag, n as int),
            1 <= at <= 1 + n,
            out_buf@ == old(out_buf)@.take(out as int) + expand(tag, src).take(n as int) + old(
                out_buf,
            )@.skip(out + n),
        decreases 8 - n,
    {
        let bit: u8 = (tag >> n) & 1;
        proof {
            lemma_bit_mask(tag, n, window@[at as int]);
            assert(tag_bit(tag, n) == (bit == 1));
            assert(src[literal_count(tag, n as int)] == window@[at as int]);
        }
        let mask: u8 = 0u8.wrapping_sub(bit);
        out_buf[out + n as usize] = window[at] & mask;
        assert(out_buf@ =~= old(out_buf)@.take(out as int) + expand(tag, src).take(n + 1) + old(
            out_buf,
        )@.skip(out + n + 1));
        at = at + bit as usize;
        n = n + 1;
    }
    assert(expand(tag, src).take(8) =~= expand(tag, src));
    (tag, at)
}

/// A reader that unpacks what a buffered input stream holds in packed
/// form.
pub struct PackedInputStream<'a, 'b, R: ByteSource> {
    /// The stream that the packed bytes come from.
    pub inner: &'a mut BufferedInputStream<'b, R>,
}

impl<'a, 'b, R: ByteSource> PackedInputStream<'a, 'b, R> {
    /// The stream underneath is in order.
    pub open spec fn wf(&self) -> bool {
        self.inner.wf()
    }

    /// The packed bytes still to come.
    pub open spec fn remaining(&self) -> Seq<u8> {
        self.inner.remaining()
    }

    /// Whether the packed stream is at its end.
    pub fn eof(&mut self) -> (at_end: bool)
        requires
            old(self).wf(),
        ensures
            final(self).wf(),
            final(self).inner.buffer.capacity() == old(self).inner.buffer.capacity(),
            final(self).remaining() == old(self).remaining(),
            at_end <==> old(self).remaining().len() == 0,
            *final(final(self).inner) == *final(old(self).inner),
            *final(final(self).inner.inner) == *final(old(self).inner.inner),
    {
        self.inner.eof()
    }

    /// Takes the next byte off the stream, if there is one.
    fn next_byte(&mut self) -> (r: Option<u8>)
        requires
            old(self).wf(),
        ensures
            final(self).wf(),
            final(self).inner.buffer.capacity() == old(self).inner.buffer.capacity(),
            match r {
                Some(b) => old(self).remaining().len() > 0 && b == old(self).remaining()[0]
                    && final(self).remaining() == old(self).remaining().skip(1),
                None => old(self).remaining().len() == 0 && final(self).remaining() == old(
                    self,
                ).remaining(),
            },
            *final(final(self).inner) == *final(old(self).inner),
            *final(final(self).inner.inner) == *final(old(self).inner.inner),
    {
        let window = self.inner.get_read_buffer();
        if window.len() == 0 {
            None
        } else {
            let b = window[0];
            self.inner.skip(1);
            Some(b)
        }
    }

    /// Unpacks the word at the start of the stream to `out_buf[out..]`,
    /// byte by byte, so that the tag and each literal may come from a
    /// window of its own. Returns the tag, or nothing where the stream
    /// ends before the last literal.
    fn read_word_slow(&mut self, out_buf: &mut [u8], out: usize) -> (r: Option<u8>)
        requires
            old(self).wf(),
            old(self).remaining().len() > 0,
            out + 8 <= old(out_buf)@.len(),
        ensures
            final(self).wf(),
            final(self).inner.buffer.capacity() == old(self).inner.buffer.capacity(),
            final(out_buf)@.len() == old(out_buf)@.len(),
            match r {
                Some(tag) => {
                    &&& tag == old(self).remaining()[0]
                    &&& 1 + literal_count(tag, 8) <= old(self).remaining().len()
                    &&& final(self).remaining() == old(self).remaining().skip(
                        1 + literal_count(tag, 8),
                    )
                    &&& final(out_buf)@ == old(out_buf)@.take(out as int) + expand(
                        tag,
                        old(self).remaining().skip(1),
                    ) + old(out_buf)@.skip(out + 8)
                },
                None => old(self).remaining().len() < 1 + literal_count(
                    old(self).remaining()[0],
                    8,
                ),
            },
            *final(final(self).inner) == *final(old(self).inner),
            *final(final(self).inner.inner) == *final(old(self).inner.inner),
    {
        let ghost p = self.remaining();
        let ghost src = p.skip(1);
        assert(out_buf@.len() == out_buf.len());
        let tag = match self.next_byte() {
            Some(t) => t,
            None => {
                return None;
            },
        };
        assert(out_buf@ =~= old(out_buf)@.take(out as int) + expand(tag, src).take(0) + old(
            out_buf,
        )@.skip(out as int));
        let mut n: u8 = 0;
        while n < 8
            invariant
                n <= 8,
                self.wf(),
                self.inner.buffer.capacity() == old(self).inner.buffer.capacity(),
                out + 8 <= out_buf.len(),
                out_buf@.len() == old(out_buf)@.len(),
                p == old(self).remaining(),
                src == p.skip(1),
                p.len() > 0,
                tag == p[0],
                1 + literal_count(tag, n as int) <= p.len(),
                self.remaining() == p.skip(1 + literal_count(tag, n as int)),
                out_buf@ == old(out_buf)@.take(out as int) + expand(tag, src).take(n as int) + old(
                    out_buf,
                )@.skip(out + n),
                *final(self.inner) == *final(old(self).inner),
                *final(self.inner.inner) == *final(old(self).inner.inner),
            decreases 8 - n,
        {
            proof {
                lemma_literal_count_bounds(tag, n as int);
                lemma_literal_count_monotonic(tag, n + 1, 8);
            }
            let byte: u8;
            if (tag >> n) & 1 == 1 {
                match self.next_byte() {
                    Some(b) => {
                        byte = b;
                    },
                    None => {
                        return None;
                    },
                }
                assert(byte == src[literal_count(tag, n as int)]);
                assert(self.remaining() =~= p.skip(1 + literal_count(tag, n + 1)));
            } else {
                byte = 0;
            }
            out_buf[out + n as usize] = byte;
            assert(out_buf@ =~= old(out_buf)@.take(out as int) + expand(tag, src).take(n + 1)
                + old(out_buf)@.skip(out + n + 1));
            n = n + 1;
        }
        assert(expand(tag, src).take(8) =~= expand(tag, src));
        Some(tag)
    }

    /// Unpacks the head of the tag group at the start of the stream: the
    /// word goes to `out_buf[out..]`, and the tag comes back with the count
    /// behind the literals (zero after a tag that has none). Where the
    /// window holds a whole head the word is unpacked from it in one go;
    /// else byte by byte. Nothing comes back where the stream ends inside
    /// the head.
    fn read_head(&mut self, out_buf: &mut [u8], out: usize) -> (r: Option<(u8, u8)>)
        requires
            old(self).wf(),
            old(self).remaining().len() > 0,
            out + 8 <= old(out_buf)@.len(),
        ensures
            final(self).wf(),
            final(self).inner.buffer.capacity() == old(self).inner.buffer.capacity(),
            final(out_buf)@.len() == old(out_buf)@.len(),
            match r {
                Some((tag, count)) => {
                    &&& tag == old(self).remaining()[0]
                    &&& head_len(old(self).remaining()) <= old(self).remaining().len()
                    &&& has_count(tag) ==> count == old(self).remaining()[head_len(
                        old(self).remaining(),
                    ) - 1]
                    &&& final(self).remaining() == old(self).remaining().skip(
                        head_len(old(self).remaining()),
                    )
                    &&& final(out_buf)@ == old(out_buf)@.take(out as int) + expand(
                        tag,
                        old(self).remaining().skip(1),
                    ) + old(out_buf)@.skip(out + 8)
                },
                None => old(self).remaining().len() < head_len(old(self).remaining()),
            },
            *final(final(self).inner) == *final(old(self).inner),
            *final(final(self).inner.inner) == *final(old(self).inner.inner),
    {
        let ghost p = self.remaining();
        proof {
            lemma_literal_count_bounds(p[0], 8);
        }
        let window = self.inner.get_read_buffer();
        if window.len() >= GROUP_HEAD_MAX {
            assert(window@ =~= p.take(window@.len() as int));
            let (tag, word_len) = unpack_word(window, out_buf, out);
            let mut used: usize = word_len;
            let mut count: u8 = 0;
            if tag == 0 || tag == 0xff {
                count = window[used];
                used = used + 1;
            }
            proof {
                assert forall|i: int| 0 <= i < 8 implies 0 <= #[trigger] literal_count(tag, i)
                    <= i by {
                    lemma_literal_count_bounds(tag, i);
                }
                assert(expand(tag, window@.skip(1)) =~= expand(tag, p.skip(1)));
            }
            self.inner.skip(used);
            Some((tag, count))
        } else {
            match self.read_word_slow(out_buf, out) {
                None => None,
                Some(tag) => {
                    if tag == 0 || tag == 0xff {
                        match self.next_byte() {
                            None => None,
                            Some(count) => {
                                assert(p.skip(head_len(p) - 1).skip(1) =~= p.skip(head_len(p)));
                                Some((tag, count))
                            },
                        }
                    } else {
                        Some((tag, 0))
                    }
                },
            }
        }
    }

    /// Moves the next `run` bytes of the stream to `out_buf[from..]` as
    /// they are: what the window holds first, the rest by reads that go
    /// past the buffer where they are large enough. Fails where the stream
    /// ends before that.
    fn read_run(&mut self, out_buf: &mut [u8], from: usize, run: usize) -> (ok: bool)
        requires
            old(self).wf(),
            from + run <= old(out_buf)@.len(),
        ensures
            final(self).wf(),
            final(self).inner.buffer.capacity() == old(self).inner.buffer.capacity(),
            final(out_buf)@.len() == old(out_buf)@.len(),
            ok <==> run <= old(self).remaining().len(),
            ok ==> {
                &&& final(self).remaining() == old(self).remaining().skip(run as int)
                &&& final(out_buf)@ == old(out_buf)@.take(from as int) + old(
                    self,
                ).remaining().take(run as int) + old(out_buf)@.skip(from + run)
            },
            *final(final(self).inner) == *final(old(self).inner),
            *final(final(self).inner.inner) == *final(old(self).inner.inner),
    {
        let ghost p = self.remaining();
        assert(out_buf@.len() == out_buf.len());
        let mut done: usize = 0;
        assert(self.remaining() =~= p.skip(0));
        assert(out_buf@ =~= old(out_buf)@.take(from as int) + p.take(0) + old(out_buf)@.skip(
            from as int,
        ));
        while done < run
            invariant
                done <= run,
                done <= p.len(),
                self.wf(),
                self.inner.buffer.capacity() == old(self).inner.buffer.capacity(),
                from + run <= out_buf.len(),
                out_buf@.len() == old(out_buf)@.len(),
                p == old(self).remaining(),
                self.remaining() == p.skip(done as int),
                out_buf@ == old(out_buf)@.take(from as int) + p.take(done as int) + old(
                    out_buf,
                )@.skip(from + done),
                *final(self.inner) == *final(old(self).inner),
                *final(self.inner.inner) == *final(old(self).inner.inner),
            decreases run - done,
        {
            let ghost before = out_buf@;
            let (_, behind) = out_buf.split_at_mut(from + done);
            let (dst, _) = behind.split_at_mut(run - done);
            let n = self.inner.read(dst);
            if n == 0 {
                return false;
            }
            proof {
                assert(self.remaining() =~= p.skip(done + n));
                assert(out_buf@ =~= old(out_buf)@.take(from as int) + p.take(done + n) + old(
                    out_buf,
                )@.skip(from + done + n));
            }
            done = done + n;
        }
        true
    }

    /// Unpacks the tag group at the start of the stream, which is not at
    /// its end, to `out_buf[out..]`, and returns the place in `out_buf`
    /// behind the group.
    fn read_group(&mut self, out_buf: &mut [u8], out: usize) -> (r: Result<usize, PackedError>)
        requires
            old(self).wf(),
            old(self).remaining().len() > 0,
            out + 8 <= old(out_buf)@.len(),
        ensures
            final(self).wf(),
            final(self).inner.buffer.capacity() == old(self).inner.buffer.capacity(),
            final(out_buf)@.len() == old(out_buf)@.len(),
            match unpack_group(old(self).remaining(), old(out_buf)@.len() - out) {
                Ok(g) => {
                    &&& r == Ok::<usize, PackedError>((out + g.bytes.len()) as usize)
                    &&& final(self).remaining() == old(self).remaining().skip(g.consumed)
                    &&& final(out_buf)@ == old(out_buf)@.take(out as int) + g.bytes + old(
                        out_buf,
                    )@.skip(out + g.bytes.len())
                },
                Err(e) => r == Err::<usize, PackedError>(e),
            },
            *final(final(self).inner) == *final(old(self).inner),
            *final(final(self).inner.inner) == *final(old(self).inner.inner),
    {
        let ghost p = self.remaining();
        let ghost before = out_buf@;
        assert(out_buf@.len() == out_buf.len());
        proof {
            lemma_literal_count_bounds(p[0], 8);
        }
        let (tag, count) = match self.read_head(out_buf, out) {
            None => {
                return Err(PackedError::Truncated);
            },
            Some(head) => head,
        };
        let ghost word = expand(tag, p.skip(1));
        if tag != 0 && tag != 0xff {
            return Ok(out + 8);
        }
        let run: usize = count as usize * 8;
        if run > out_buf.len() - out - 8 {
            return Err(PackedError::RunOverflow);
        }
        if tag == 0 {
            zero_bytes(out_buf, out + 8, run);
            assert(out_buf@ =~= before.take(out as int) + (word + zeros(run as nat)) + before.skip(
                out + 8 + run,
            ));
            Ok(out + 8 + run)
        } else {
            let ghost q = self.remaining();
            if self.read_run(out_buf, out + 8, run) {
                proof {
                    assert(q.take(run as int) =~= p.subrange(head_len(p), head_len(p) + run));
                    assert(self.remaining() =~= p.skip(head_len(p) + run));
                    assert(out_buf@ =~= before.take(out as int) + (word + p.subrange(
                        head_len(p),
                        head_len(p) + run,
                    )) + before.skip(out + 8 + run));
                }
                Ok(out + 8 + run)
            } else {
                Err(PackedError::Truncated)
            }
        }
    }

    /// Unpacks into `out_buf`, whose length must be a whole number of
    /// words, until it is full or the stream ends at a tag, and returns the
    /// number of bytes unpacked.
    ///
    /// The outcome is that of [`unpack`] on the bytes still to come: it
    /// does not depend on where the windows of the stream underneath
    /// begin and end. A length that is no whole number of words is
    /// refused, and stream and buffer stay as they are. A stream that ends
    /// inside a tag group, and a run that is longer than what is left of
    /// `out_buf`, are errors.
    #[verifier::rlimit(40)]
    pub fn read(&mut self, out_buf: &mut [u8]) -> (r: Result<usize, PackedError>)
        requires
            old(self).wf(),
        ensures
            final(self).wf(),
            final(self).inner.buffer.capacity() == old(self).inner.buffer.capacity(),
            final(out_buf)@.len() == old(out_buf)@.len(),
            old(out_buf)@.len() % 8 != 0 ==> {
                &&& r == Err::<usize, PackedError>(PackedError::UnalignedLength)
                &&& final(self).remaining() == old(self).remaining()
                &&& final(out_buf)@ == old(out_buf)@
            },
            old(out_buf)@.len() % 8 == 0 ==> match unpack(
                old(self).remaining(),
                old(out_buf)@.len() as int,
            ) {
                Ok(u) => {
                    &&& r == Ok::<usize, PackedError>(u.bytes.len() as usize)
                    &&& u.bytes.len() % 8 == 0
                    &&& u.bytes.len() <= old(out_buf)@.len()
                    &&& final(out_buf)@ == u.bytes + old(out_buf)@.skip(u.bytes.len() as int)
                    &&& final(self).remaining() == old(self).remaining().skip(u.consumed)
                },
                Err(e) => r == Err::<usize, PackedError>(e),
            },
            *final(final(self).inner) == *final(old(self).inner),
            *final(final(self).inner.inner) == *final(old(self).inner.inner),
    {
        let len = out_buf.len();
        if len % 8 != 0 {
            return Err(PackedError::UnalignedLength);
        }
        let ghost p = self.remaining();
        let ghost consumed: int = 0;
        let mut out: usize = 0;
        proof {
            assert(p.skip(0) =~= p);
            assert(out_buf@.take(0) + unpack(p, len as int).unwrap().bytes =~= unpack(
                p,
                len as int,
            ).unwrap().bytes);
        }
        while out < len
            invariant
                len == out_buf@.len(),
                len == old(out_buf)@.len(),
                len % 8 == 0,
                out % 8 == 0,
                out <= len,
                self.wf(),
                self.inner.buffer.capacity() == old(self).inner.buffer.capacity(),
                p == old(self).remaining(),
                0 <= consumed <= p.len(),
                self.remaining() == p.skip(consumed),
                out_buf@.skip(out as int) == old(out_buf)@.skip(out as int),
                unpack(p, len as int) == unpack_after(
                    Unpacked { bytes: out_buf@.take(out as int), consumed },
                    unpack(self.remaining(), len - out),
                ),
                *final(self.inner) == *final(old(self).inner),
                *final(self.inner.inner) == *final(old(self).inner.inner),
            decreases len - out,
        {
            let ghost cur = self.remaining();
            let ghost before = out_buf@;
            let ghost done = Unpacked { bytes: before.take(out as int), consumed };
            if self.inner.eof() {
                proof {
                    assert(done.bytes + Seq::<u8>::empty() =~= done.bytes);
                    assert(out_buf@ =~= done.bytes + old(out_buf)@.skip(out as int));
                }
                return Ok(out);
            }
            proof {
                lemma_unpack_group_bounds(cur, len - out);
                lemma_unpack_step(done, cur, len - out);
            }
            match self.read_group(out_buf, out) {
                Err(e) => {
                    return Err(e);
                },
                Ok(next) => {
                    proof {
                        let g = unpack_group(cur, len - out).unwrap();
                        assert(cur.skip(g.consumed) =~= p.skip(consumed + g.consumed));
                        assert(out_buf@.take(next as int) =~= done.bytes + g.bytes);
                        assert(out_buf@.skip(next as int) =~= before.skip(next as int));
                        assert(before.skip(next as int) =~= before.skip(out as int).skip(
                            next - out,
                        ));
                        assert(old(out_buf)@.skip(next as int) =~= old(out_buf)@.skip(
                            out as int,
                        ).skip(next - out));
                        consumed = consumed + g.consumed;
                    }
                    out = next;
                },
            }
        }
        proof {
            assert(out_buf@.take(len as int) + Seq::<u8>::empty() =~= out_buf@);
            assert(out_buf@ + old(out_buf)@.skip(len as int) =~= out_buf@);
        }
        Ok(len)
    }
}

/// What a read of `room` bytes returns where decoding comes to `outcome`.
pub open spec fn read_result(outcome: Result<Unpacked, PackedError>) -> Result<usize, PackedError> {
    match outcome {
        Ok(u) => Ok(u.bytes.len() as usize),
        Err(e) => Err(e),
    }
}

/// Whether what a read into `len` bytes returned stands whatever bytes
/// follow those that the stream held: the buffer was filled, or the
/// stream is at fault in a way that more bytes do not mend. Someone who
/// feeds a stream piece by piece asks for more only while this is false.
pub fn read_is_settled(result: &Result<usize, PackedError>, len: usize) -> (yes: bool)
    ensures
        yes == match *result {
            Ok(n) => n == len,
            Err(PackedError::Truncated) => false,
            Err(_) => true,
        },
        forall|outcome: Result<Unpacked, PackedError>|
            #[trigger] read_result(outcome) == *result && (outcome is Ok
                ==> outcome->Ok_0.bytes.len() <= len) ==> yes == settled(outcome, len as int),
{
    match result {
        Ok(n) => *n == len,
        Err(PackedError::Truncated) => false,
        Err(_) => true,
    }
}

/// Something that a message can be written to in packed form.
pub trait WritePacked {
    /// Whether the writer is fit to be written to.
    spec fn packed_wf(&self) -> bool;

    /// Everything written through the writer so far.
    spec fn packed_written(&self) -> Seq<u8>;

    /// Writes the message: its segment table and then the words that are
    /// taken in each of its segments, each of these pieces packed by
    /// itself. The message stays as it is.
    fn write_packed_message<'m, M: MessageBuilder<'m>>(&mut self, message: &mut M)
        requires
            old(self).packed_wf(),
            old(message).spec_arena().wf(),
        ensures
            final(self).packed_wf(),
            final(message).spec_arena() == old(message).spec_arena(),
            final(self).packed_written() == old(self).packed_written() + pack_all(
                message_chunks(old(message).spec_arena().allocated()),
            ),
    ;
}

impl<'a, W: ByteSink> WritePacked for BufferedOutputStream<'a, W> {
    open spec fn packed_wf(&self) -> bool {
        self.wf()
    }

    open spec fn packed_written(&self) -> Seq<u8> {
        self.written()
    }

    fn write_packed_message<'m, M: MessageBuilder<'m>>(&mut self, message: &mut M)
        ensures
            final(self).buffer.capacity() == old(self).buffer.capacity(),
            *final(final(self).inner) == *final(old(self).inner),
    {
        let ghost allocated = message.spec_arena().allocated();
        proof {
            assert forall|segments: &[&[Word]]|
                segment_views(segments) == allocated implies call_requires(
                message_chunk_bytes,
                (segments,),
            ) by {
                message.spec_arena().lemma_allocated_bounds();
                assert(segment_views(segments).len() == segments@.len());
                assert forall|i: int| 0 <= i < segments@.len() implies (
                #[trigger] segments@[i])@.len() <= MAX_SEGMENT_WORDS by {
                    assert(segment_views(segments)[i] == segments@[i]@);
                }
            }
        }
        let chunks = message.get_segments_for_output(message_chunk_bytes);
        proof {
            assert(Seq::new(chunks@.len(), |i: int| chunks@[i]@) =~= message_chunks(allocated));
        }
        let mut packed_output_stream = PackedOutputStream { inner: self };
        packed_output_stream.write_chunks(&chunks);
    }
}

/// A byte sink to which messages are written in packed form, each through
/// a buffer that is emptied into the sink before the call returns.
pub struct WritePackedWrapper<'a, T: ByteSink> {
    /// The sink that takes the packed bytes.
    pub writer: &'a mut T,
}

impl<'a, T: ByteSink> WritePacked for WritePackedWrapper<'a, T> {
    open spec fn packed_wf(&self) -> bool {
        true
    }

    open spec fn packed_written(&self) -> Seq<u8> {
        self.writer.written()
    }

    fn write_packed_message<'m, M: MessageBuilder<'m>>(&mut self, message: &mut M)
        ensures
            *final(final(self).writer) == *final(old(self).writer),
    {
        let mut buffered = BufferedOutputStream::new(&mut *self.writer);
        buffered.write_packed_message(message);
        buffered.flush();
    }
}

} // verus!
