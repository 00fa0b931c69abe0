//! The packed byte format, stated on byte sequences.
//!
//! A message is a sequence of eight-byte words. In packed form every word is
//! a tag byte, whose bit `i` says whether byte `i` of the word is nonzero,
//! followed by the nonzero bytes in order. After an all-zero word (tag
//! `0x00`) comes one byte that counts further all-zero words; after a word
//! without a zero byte (tag `0xff`) comes one byte that counts further words
//! which follow unpacked.
//!
//! [`pack`] is the encoding that the writer produces, [`unpack`] is what the
//! reader makes of a byte stream when it is asked for a given number of
//! bytes.

use vstd::prelude::*;
use crate::common::zeros;

verus! {

/// Why a packed stream could not be decoded.
#[derive(Clone, Copy, Debug, PartialEq, Eq, Structural)]
pub enum PackedError {
    /// The number of bytes asked for is not a whole number of words.
    UnalignedLength,
    /// The stream ends inside a word or inside a run.
    Truncated,
    /// A run of zero or unpacked words does not fit in what was asked for.
    RunOverflow,
}

impl PackedError {
    /// What went wrong, in words.
    pub open spec fn spec_description(self) -> Seq<char> {
        match self {
            PackedError::UnalignedLength => "packed reads must be word-aligned"@,
            PackedError::Truncated => "packed input ended inside a word or a run"@,
            PackedError::RunOverflow => "packed input did not end cleanly on a segment boundary"@,
        }
    }

    /// What went wrong, in words.
    pub fn description(&self) -> (text: &'static str)
        ensures
            text@ == self.spec_description(),
    {
        match self {
            PackedError::UnalignedLength => "packed reads must be word-aligned",
            PackedError::Truncated => "packed input ended inside a word or a run",
            PackedError::RunOverflow => "packed input did not end cleanly on a segment boundary",
        }
    }
}

/// Largest number of further words that one count byte can announce.
pub const MAX_RUN_WORDS: usize = 255;

/// Whether bit `i` of the tag is set.
pub open spec fn tag_bit(tag: u8, i: u8) -> bool {
    (tag >> i) & 1u8 == 1u8
}

/// One for a nonzero byte, zero for a zero byte.
pub open spec fn nonzero_bit(b: u8) -> u8 {
    if b != 0 {
        1u8
    } else {
        0u8
    }
}

/// The tag of the word that `w` starts with: bit `i` is set where byte `i`
/// is nonzero.
pub open spec fn word_tag(w: Seq<u8>) -> u8 {
    nonzero_bit(w[0]) | (nonzero_bit(w[1]) << 1u8) | (nonzero_bit(w[2]) << 2u8) | (nonzero_bit(
        w[3],
    ) << 3u8) | (nonzero_bit(w[4]) << 4u8) | (nonzero_bit(w[5]) << 5u8) | (nonzero_bit(w[6])
        << 6u8) | (nonzero_bit(w[7]) << 7u8)
}

/// How many of the first `n` bytes of `w` are nonzero.
pub open spec fn nonzero_count(w: Seq<u8>, n: int) -> int
    decreases n,
{
    if n <= 0 {
        0
    } else {
        nonzero_count(w, n - 1) + if w[n - 1] != 0 {
            1int
        } else {
            0int
        }
    }
}

/// The nonzero bytes among the first `n` bytes of `w`, in order.
pub open spec fn literals(w: Seq<u8>, n: int) -> Seq<u8>
    decreases n,
{
    if n <= 0 {
        Seq::empty()
    } else if w[n - 1] != 0 {
        literals(w, n - 1).push(w[n - 1])
    } else {
        literals(w, n - 1)
    }
}

/// How many of the bits `0..n` of the tag are set.
pub open spec fn literal_count(tag: u8, n: int) -> int
    decreases n,
{
    if n <= 0 {
        0
    } else {
        literal_count(tag, n - 1) + if tag_bit(tag, (n - 1) as u8) {
            1int
        } else {
            0int
        }
    }
}

/// The word that a tag and the bytes after it stand for: byte `i` is zero
/// where bit `i` is clear, and the next unused byte of `src` where it is set.
pub open spec fn expand(tag: u8, src: Seq<u8>) -> Seq<u8> {
    Seq::new(
        8,
        |i: int|
            if tag_bit(tag, i as u8) {
                src[literal_count(tag, i)]
            } else {
                0u8
            },
    )
}

/// The number of all-zero words that `s` starts with, but at most `limit`.
pub open spec fn zero_run(s: Seq<u8>, limit: int) -> int
    decreases limit,
{
    if limit <= 0 || s.len() < 8 || nonzero_count(s, 8) != 0 {
        0
    } else {
        1 + zero_run(s.skip(8), limit - 1)
    }
}

/// The number of words with at most one zero byte that `s` starts with, but
/// at most `limit`.
pub open spec fn raw_run(s: Seq<u8>, limit: int) -> int
    decreases limit,
{
    if limit <= 0 || s.len() < 8 || nonzero_count(s, 8) < 7 {
        0
    } else {
        1 + raw_run(s.skip(8), limit - 1)
    }
}

/// The number of words after the first that the first tag group of `s`
/// covers.
pub open spec fn group_run(s: Seq<u8>) -> int {
    if word_tag(s) == 0u8 {
        zero_run(s.skip(8), MAX_RUN_WORDS as int)
    } else if word_tag(s) == 0xffu8 {
        raw_run(s.skip(8), MAX_RUN_WORDS as int)
    } else {
        0
    }
}

/// The number of bytes of `s` that its first tag group covers.
pub open spec fn group_len(s: Seq<u8>) -> int {
    8 * (1 + group_run(s))
}

/// The head of the packed form of the first tag group of `s`: the tag, the
/// literals, and after tag `0x00` or `0xff` the count.
pub open spec fn group_head(s: Seq<u8>) -> Seq<u8> {
    let head = seq![word_tag(s)] + literals(s, 8);
    if word_tag(s) == 0u8 || word_tag(s) == 0xffu8 {
        head.push(group_run(s) as u8)
    } else {
        head
    }
}

/// The words that follow the head unpacked: those that the count after tag
/// `0xff` announces.
pub open spec fn group_tail(s: Seq<u8>) -> Seq<u8> {
    if word_tag(s) == 0xffu8 {
        s.subrange(8, group_len(s))
    } else {
        Seq::empty()
    }
}

/// The packed form of the first tag group of `s`.
pub open spec fn pack_group(s: Seq<u8>) -> Seq<u8> {
    group_head(s) + group_tail(s)
}

/// The packed form of `s`, a whole number of words. Runs are as long as the
/// input and the count byte allow.
pub open spec fn pack(s: Seq<u8>) -> Seq<u8>
    decreases s.len(),
    via pack_decreases
{
    if s.len() < 8 {
        Seq::empty()
    } else {
        pack_group(s) + pack(s.skip(group_len(s)))
    }
}

/// The packed form of pieces that are packed one by one, each a whole
/// number of words: no run reaches from one piece into the next.
pub open spec fn pack_all(chunks: Seq<Seq<u8>>) -> Seq<u8>
    decreases chunks.len(),
{
    if chunks.len() == 0 {
        Seq::empty()
    } else {
        pack_all(chunks.drop_last()) + pack(chunks.last())
    }
}

#[via_fn]
proof fn pack_decreases(s: Seq<u8>) {
    if s.len() >= 8 {
        lemma_group_len(s);
    }
}

/// What decoding produced and how much of the stream it used.
pub struct Unpacked {
    /// The decoded bytes.
    pub bytes: Seq<u8>,
    /// The number of packed bytes that were used up.
    pub consumed: int,
}

/// Whether the tag is followed, behind its literals, by a count.
pub open spec fn has_count(tag: u8) -> bool {
    tag == 0u8 || tag == 0xffu8
}

/// The length of the head of the tag group that the nonempty stream `p`
/// starts with: the tag, its literals, and after tag `0x00` or `0xff` the
/// count.
pub open spec fn head_len(p: Seq<u8>) -> int {
    1 + literal_count(p[0], 8) + if has_count(p[0]) {
        1int
    } else {
        0int
    }
}

/// Decodes the tag group at the start of the nonempty stream `p`, when
/// `room >= 8` bytes of output are still wanted.
pub open spec fn unpack_group(p: Seq<u8>, room: int) -> Result<Unpacked, PackedError> {
    let tag = p[0];
    let word = expand(tag, p.skip(1));
    let head = head_len(p);
    if p.len() < head {
        Err(PackedError::Truncated)
    } else if !has_count(tag) {
        Ok(Unpacked { bytes: word, consumed: head })
    } else {
        let run = 8 * (p[head - 1] as int);
        if run > room - 8 {
            Err(PackedError::RunOverflow)
        } else if tag == 0u8 {
            Ok(Unpacked { bytes: word + zeros(run as nat), consumed: head })
        } else if p.len() < head + run {
            Err(PackedError::Truncated)
        } else {
            Ok(Unpacked { bytes: word + p.subrange(head, head + run), consumed: head + run })
        }
    }
}

/// What decoding comes to when `done` was decoded first and `rest` is what
/// decoding the remainder gives.
pub open spec fn unpack_after(done: Unpacked, rest: Result<Unpacked, PackedError>) -> Result<
    Unpacked,
    PackedError,
> {
    match rest {
        Err(e) => Err(e),
        Ok(r) => Ok(
            Unpacked { bytes: done.bytes + r.bytes, consumed: done.consumed + r.consumed },
        ),
    }
}

/// Decodes the stream `p` when `room` bytes of output are wanted, `room` a
/// whole number of words: tag group after tag group, until the output is
/// full or the stream ends at a tag.
pub open spec fn unpack(p: Seq<u8>, room: int) -> Result<Unpacked, PackedError>
    decreases room,
    via unpack_decreases
{
    if room < 8 || p.len() == 0 {
        Ok(Unpacked { bytes: Seq::empty(), consumed: 0 })
    } else {
        match unpack_group(p, room) {
            Err(e) => Err(e),
            Ok(g) => unpack_after(g, unpack(p.skip(g.consumed), room - g.bytes.len())),
        }
    }
}

#[via_fn]
proof fn unpack_decreases(p: Seq<u8>, room: int) {
    if room >= 8 && p.len() > 0 {
        lemma_unpack_group_bounds(p, room);
    }
}

/// The tag has between zero and `n` of its first `n` bits set.
pub proof fn lemma_literal_count_bounds(tag: u8, n: int)
    requires
        0 <= n,
    ensures
        0 <= literal_count(tag, n) <= n,
    decreases n,
{
    if n > 0 {
        lemma_literal_count_bounds(tag, n - 1);
    }
}

/// A decoded tag group is at least one word long, fits in the room that was
/// left, and uses up at least the tag and no more than the stream holds.
pub proof fn lemma_unpack_group_bounds(p: Seq<u8>, room: int)
    requires
        room >= 8,
        p.len() > 0,
    ensures
        match unpack_group(p, room) {
            Ok(g) => 8 <= g.bytes.len() <= room && g.bytes.len() % 8 == 0 && 1 <= g.consumed
                <= p.len(),
            Err(_) => true,
        },
{
    lemma_literal_count_bounds(p[0], 8);
}

/// A run is neither negative nor longer than its limit or than the input.
pub proof fn lemma_zero_run_bounds(s: Seq<u8>, limit: int)
    requires
        limit >= 0,
    ensures
        0 <= zero_run(s, limit) <= limit,
        8 * zero_run(s, limit) <= s.len(),
    decreases limit,
{
    if !(limit <= 0 || s.len() < 8 || nonzero_count(s, 8) != 0) {
        lemma_zero_run_bounds(s.skip(8), limit - 1);
    }
}

/// A run is neither negative nor longer than its limit or than the input.
pub proof fn lemma_raw_run_bounds(s: Seq<u8>, limit: int)
    requires
        limit >= 0,
    ensures
        0 <= raw_run(s, limit) <= limit,
        8 * raw_run(s, limit) <= s.len(),
    decreases limit,
{
    if !(limit <= 0 || s.len() < 8 || nonzero_count(s, 8) < 7) {
        lemma_raw_run_bounds(s.skip(8), limit - 1);
    }
}

/// The packed form of what starts at `at` is the packed form of the tag
/// group there, then the packed form of what follows the group.
pub proof fn lemma_pack_step(s: Seq<u8>, at: int)
    requires
        0 <= at,
        at + 8 <= s.len(),
    ensures
        pack(s.skip(at)) == pack_group(s.skip(at)) + pack(s.skip(at + group_len(s.skip(at)))),
        8 <= group_len(s.skip(at)) <= s.len() - at,
{
    lemma_group_len(s.skip(at));
    assert(s.skip(at).skip(group_len(s.skip(at))) =~= s.skip(at + group_len(s.skip(at))));
}

/// A tag group covers at least one word, at most 256, and no more than the
/// input holds.
pub proof fn lemma_group_len(s: Seq<u8>)
    requires
        s.len() >= 8,
    ensures
        0 <= group_run(s) <= 255,
        8 <= group_len(s) <= s.len(),
{
    lemma_zero_run_bounds(s.skip(8), 255);
    lemma_raw_run_bounds(s.skip(8), 255);
}

} // verus!

verus! {

/// The bits of a tag that is put together from eight single bits.
proof fn lemma_tag_from_bits(b0: u8, b1: u8, b2: u8, b3: u8, b4: u8, b5: u8, b6: u8, b7: u8)
    by (bit_vector)
    requires
        b0 <= 1,
        b1 <= 1,
        b2 <= 1,
        b3 <= 1,
        b4 <= 1,
        b5 <= 1,
        b6 <= 1,
        b7 <= 1,
    ensures
        ({
            let t = b0 | (b1 << 1u8) | (b2 << 2u8) | (b3 << 3u8) | (b4 << 4u8) | (b5 << 5u8) | (b6
                << 6u8) | (b7 << 7u8);
            &&& ((t >> 0u8) & 1u8 == 1u8) == (b0 == 1)
            &&& ((t >> 1u8) & 1u8 == 1u8) == (b1 == 1)
            &&& ((t >> 2u8) & 1u8 == 1u8) == (b2 == 1)
            &&& ((t >> 3u8) & 1u8 == 1u8) == (b3 == 1)
            &&& ((t >> 4u8) & 1u8 == 1u8) == (b4 == 1)
            &&& ((t >> 5u8) & 1u8 == 1u8) == (b5 == 1)
            &&& ((t >> 6u8) & 1u8 == 1u8) == (b6 == 1)
            &&& ((t >> 7u8) & 1u8 == 1u8) == (b7 == 1)
        }),
{
}

/// A tag is zero exactly when none of its bits is set, and `0xff` exactly
/// when all eight are.
proof fn lemma_tag_extremes(t: u8)
    by (bit_vector)
    ensures
        t == 0 <==> ((t >> 0u8) & 1u8 != 1u8 && (t >> 1u8) & 1u8 != 1u8 && (t >> 2u8) & 1u8 != 1u8
            && (t >> 3u8) & 1u8 != 1u8 && (t >> 4u8) & 1u8 != 1u8 && (t >> 5u8) & 1u8 != 1u8 && (t
            >> 6u8) & 1u8 != 1u8 && (t >> 7u8) & 1u8 != 1u8),
        t == 0xff <==> ((t >> 0u8) & 1u8 == 1u8 && (t >> 1u8) & 1u8 == 1u8 && (t >> 2u8) & 1u8
            == 1u8 && (t >> 3u8) & 1u8 == 1u8 && (t >> 4u8) & 1u8 == 1u8 && (t >> 5u8) & 1u8 == 1u8
            && (t >> 6u8) & 1u8 == 1u8 && (t >> 7u8) & 1u8 == 1u8),
{
}

/// Bit `i` of a word's tag is set exactly where byte `i` is nonzero.
pub proof fn lemma_word_tag_bits(w: Seq<u8>)
    ensures
        forall|i: int| 0 <= i < 8 ==> #[trigger] tag_bit(word_tag(w), i as u8) == (w[i] != 0),
{
    lemma_tag_from_bits(
        nonzero_bit(w[0]),
        nonzero_bit(w[1]),
        nonzero_bit(w[2]),
        nonzero_bit(w[3]),
        nonzero_bit(w[4]),
        nonzero_bit(w[5]),
        nonzero_bit(w[6]),
        nonzero_bit(w[7]),
    );
    assert forall|i: int| 0 <= i < 8 implies #[trigger] tag_bit(word_tag(w), i as u8) == (w[i]
        != 0) by {
        if i == 0 {
        } else if i == 1 {
        } else if i == 2 {
        } else if i == 3 {
        } else if i == 4 {
        } else if i == 5 {
        } else if i == 6 {
        } else {
            assert(i == 7);
        }
    }
}

/// As many bits of a word's tag are set as the word has nonzero bytes,
/// among the first `n` as among all.
pub proof fn lemma_literal_count_of_word(w: Seq<u8>, n: int)
    requires
        0 <= n <= 8,
    ensures
        literal_count(word_tag(w), n) == nonzero_count(w, n),
    decreases n,
{
    if n > 0 {
        lemma_literal_count_of_word(w, n - 1);
        lemma_word_tag_bits(w);
        assert(tag_bit(word_tag(w), (n - 1) as u8) == (w[n - 1] != 0));
    }
}

/// A tag whose first `n` bits are all clear, or all set, counts so.
pub proof fn lemma_literal_count_uniform(tag: u8, n: int, set: bool)
    requires
        0 <= n <= 8,
        forall|i: int| 0 <= i < n ==> #[trigger] tag_bit(tag, i as u8) == set,
    ensures
        literal_count(tag, n) == if set {
            n
        } else {
            0
        },
    decreases n,
{
    if n > 0 {
        lemma_literal_count_uniform(tag, n - 1, set);
        assert(tag_bit(tag, (n - 1) as u8) == set);
    }
}

/// Tag `0x00` has no bit set and tag `0xff` has all eight set, and no
/// other tag has none or all.
pub proof fn lemma_tag_zero_or_full(tag: u8)
    ensures
        tag == 0 <==> literal_count(tag, 8) == 0,
        tag == 0xff <==> literal_count(tag, 8) == 8,
        tag == 0 <==> (forall|i: int| 0 <= i < 8 ==> !#[trigger] tag_bit(tag, i as u8)),
        tag == 0xff <==> (forall|i: int| 0 <= i < 8 ==> #[trigger] tag_bit(tag, i as u8)),
{
    lemma_tag_extremes(tag);
    assert(tag_bit(tag, 0int as u8) == ((tag >> 0u8) & 1u8 == 1u8));
    assert(tag_bit(tag, 1int as u8) == ((tag >> 1u8) & 1u8 == 1u8));
    assert(tag_bit(tag, 2int as u8) == ((tag >> 2u8) & 1u8 == 1u8));
    assert(tag_bit(tag, 3int as u8) == ((tag >> 3u8) & 1u8 == 1u8));
    assert(tag_bit(tag, 4int as u8) == ((tag >> 4u8) & 1u8 == 1u8));
    assert(tag_bit(tag, 5int as u8) == ((tag >> 5u8) & 1u8 == 1u8));
    assert(tag_bit(tag, 6int as u8) == ((tag >> 6u8) & 1u8 == 1u8));
    assert(tag_bit(tag, 7int as u8) == ((tag >> 7u8) & 1u8 == 1u8));
    if tag == 0 {
        lemma_literal_count_uniform(tag, 8, false);
    }
    if tag == 0xff {
        lemma_literal_count_uniform(tag, 8, true);
    }
    lemma_literal_count_extremes(tag, 8);
}

/// Where none of the first `n` bits is counted, none is set; where all
/// are counted, all are set.
pub proof fn lemma_literal_count_extremes(tag: u8, n: int)
    requires
        0 <= n <= 8,
    ensures
        literal_count(tag, n) == 0 ==> (forall|i: int|
            0 <= i < n ==> !#[trigger] tag_bit(tag, i as u8)),
        literal_count(tag, n) == n ==> (forall|i: int|
            0 <= i < n ==> #[trigger] tag_bit(tag, i as u8)),
    decreases n,
{
    if n > 0 {
        lemma_literal_count_extremes(tag, n - 1);
        lemma_literal_count_bounds(tag, n - 1);
    }
}

/// The tag of a word is `0x00` exactly when all its bytes are zero, and
/// `0xff` exactly when none is.
pub proof fn lemma_word_tag_zero_or_full(w: Seq<u8>)
    ensures
        word_tag(w) == 0 <==> nonzero_count(w, 8) == 0,
        word_tag(w) == 0xff <==> nonzero_count(w, 8) == 8,
{
    lemma_tag_zero_or_full(word_tag(w));
    lemma_literal_count_of_word(w, 8);
}

/// Decoding a stream after `done` is decoding its first tag group, adding
/// it to `done`, and decoding what follows the group after that. Where the
/// first tag group fails, decoding fails as it does.
pub proof fn lemma_unpack_step(done: Unpacked, p: Seq<u8>, room: int)
    requires
        room >= 8,
        p.len() > 0,
    ensures
        match unpack_group(p, room) {
            Ok(g) => unpack_after(done, unpack(p, room)) == unpack_after(
                Unpacked { bytes: done.bytes + g.bytes, consumed: done.consumed + g.consumed },
                unpack(p.skip(g.consumed), room - g.bytes.len()),
            ),
            Err(e) => unpack_after(done, unpack(p, room)) == Err::<Unpacked, PackedError>(e),
        },
{
    match unpack_group(p, room) {
        Ok(g) => {
            let rest = unpack(p.skip(g.consumed), room - g.bytes.len());
            match rest {
                Ok(r) => {
                    assert(done.bytes + (g.bytes + r.bytes) =~= done.bytes + g.bytes + r.bytes);
                },
                Err(_) => {},
            }
        },
        Err(_) => {},
    }
}

/// Among more bits no fewer are set.
pub proof fn lemma_literal_count_monotonic(tag: u8, n: int, m: int)
    requires
        0 <= n <= m,
    ensures
        literal_count(tag, n) <= literal_count(tag, m),
    decreases m,
{
    if n < m {
        lemma_literal_count_monotonic(tag, n, m - 1);
    }
}

/// Bit `n` of a tag, taken by shifting and masking, is zero or one; the
/// mask that is zero minus the bit lets a byte through where the bit is
/// set and blanks it where the bit is clear.
pub proof fn lemma_bit_mask(tag: u8, n: u8, x: u8)
    by (bit_vector)
    requires
        n < 8,
    ensures
        (tag >> n) & 1u8 == 0u8 || (tag >> n) & 1u8 == 1u8,
        x & 0u8 == 0u8,
        x & 0xffu8 == x,
{
}

/// There are as many literals as nonzero bytes, and the literal that
/// stands for a nonzero byte is that byte.
pub proof fn lemma_literals_index(w: Seq<u8>, n: int, i: int)
    requires
        0 <= i < n,
    ensures
        literals(w, n).len() == nonzero_count(w, n),
        0 <= nonzero_count(w, i) <= nonzero_count(w, n),
        w[i] != 0 ==> nonzero_count(w, i) < nonzero_count(w, n) && literals(w, n)[nonzero_count(
            w,
            i,
        )] == w[i],
    decreases n,
{
    lemma_literals_len(w, n - 1);
    lemma_literals_len(w, i);
    if i < n - 1 {
        lemma_literals_index(w, n - 1, i);
    }
}

/// There are as many literals as nonzero bytes, at least none and at most
/// as many as bytes.
pub proof fn lemma_literals_len(w: Seq<u8>, n: int)
    requires
        0 <= n,
    ensures
        literals(w, n).len() == nonzero_count(w, n),
        0 <= nonzero_count(w, n) <= n,
    decreases n,
{
    if n > 0 {
        lemma_literals_len(w, n - 1);
    }
}

/// Where none of the first `n` bytes is counted as nonzero all are zero,
/// and where all are counted none is zero and the literals are the bytes
/// themselves.
pub proof fn lemma_nonzero_count_extremes(w: Seq<u8>, n: int)
    requires
        0 <= n <= w.len(),
    ensures
        nonzero_count(w, n) == 0 <==> (forall|i: int| 0 <= i < n ==> w[i] == 0),
        nonzero_count(w, n) == n <==> (forall|i: int| 0 <= i < n ==> w[i] != 0),
        nonzero_count(w, n) == n ==> literals(w, n) == w.take(n),
    decreases n,
{
    if n > 0 {
        lemma_nonzero_count_extremes(w, n - 1);
        lemma_literals_len(w, n - 1);
        if nonzero_count(w, n) == n {
            assert(literals(w, n) =~= w.take(n)) by {
                assert(w.take(n - 1).push(w[n - 1]) =~= w.take(n));
            }
        }
    } else {
        assert(literals(w, n) =~= w.take(n));
    }
}

/// The words of a zero run are zero: the run is the sequence of zeros of
/// its length.
pub proof fn lemma_zero_run_is_zero(s: Seq<u8>, limit: int)
    requires
        limit >= 0,
    ensures
        s.take(8 * zero_run(s, limit)) == zeros((8 * zero_run(s, limit)) as nat),
    decreases limit,
{
    lemma_zero_run_bounds(s, limit);
    if !(limit <= 0 || s.len() < 8 || nonzero_count(s, 8) != 0) {
        let t = s.skip(8);
        lemma_zero_run_is_zero(t, limit - 1);
        lemma_zero_run_bounds(t, limit - 1);
        lemma_nonzero_count_extremes(s, 8);
        let r = zero_run(t, limit - 1);
        assert(s.take(8 * (1 + r)) =~= zeros((8 * (1 + r)) as nat)) by {
            assert forall|j: int| 0 <= j < 8 * (1 + r) implies s[j] == 0u8 by {
                if j >= 8 {
                    assert(t.take(8 * r)[j - 8] == 0u8);
                }
            }
        }
    } else {
        assert(s.take(0) =~= zeros(0));
    }
}

/// The word that the head of a packed tag group expands to is the word
/// that was packed.
pub proof fn lemma_expand_packed_word(s: Seq<u8>, after: Seq<u8>)
    requires
        s.len() >= 8,
    ensures
        expand(word_tag(s), literals(s, 8) + after) == s.take(8),
{
    let tag = word_tag(s);
    let src = literals(s, 8) + after;
    lemma_word_tag_bits(s);
    assert forall|i: int| 0 <= i < 8 implies expand(tag, src)[i] == s[i] by {
        lemma_literal_count_of_word(s, i);
        lemma_literals_index(s, 8, i);
        assert(tag_bit(tag, i as u8) == (s[i] != 0));
    }
    assert(expand(tag, src) =~= s.take(8));
}

/// Decoding the packed form of a tag group, with anything behind it, gives
/// back the bytes that the group covers and uses up exactly the group's
/// packed form, provided that room for the group is left.
pub proof fn lemma_unpack_group_of_pack(s: Seq<u8>, after: Seq<u8>, room: int)
    requires
        s.len() >= 8,
        group_len(s) <= room,
    ensures
        unpack_group(pack_group(s) + after, room) == Ok::<Unpacked, PackedError>(
            Unpacked { bytes: s.take(group_len(s)), consumed: pack_group(s).len() as int },
        ),
{
    let tag = word_tag(s);
    let p = pack_group(s) + after;
    let run = group_run(s);
    lemma_group_len(s);
    lemma_literals_len(s, 8);
    lemma_literal_count_of_word(s, 8);
    lemma_word_tag_zero_or_full(s);
    assert(p[0] == tag);
    let head = head_len(p);
    assert(head == group_head(s).len());
    let behind = p.skip(1 + literals(s, 8).len() as int);
    assert(p.skip(1) =~= literals(s, 8) + behind);
    lemma_expand_packed_word(s, behind);
    let word = expand(tag, p.skip(1));
    assert(word == s.take(8));
    if !has_count(tag) {
        assert(s.take(8) =~= s.take(group_len(s)));
    } else {
        assert(p[head - 1] == run as u8);
        if tag == 0u8 {
            lemma_zero_run_is_zero(s.skip(8), MAX_RUN_WORDS as int);
            assert(s.take(group_len(s)) =~= word + zeros((8 * run) as nat)) by {
                assert forall|j: int| 8 <= j < group_len(s) implies s[j] == 0u8 by {
                    assert(s.skip(8).take(8 * run)[j - 8] == 0u8);
                }
            }
        } else {
            assert(p.subrange(head, head + 8 * run) =~= s.subrange(8, group_len(s)));
            assert(s.take(group_len(s)) =~= word + s.subrange(8, group_len(s)));
        }
    }
}

/// Decoding what was packed gives it back, and goes on behind it.
///
/// For every `s` that is a whole number of words: where the packed form of
/// `s` is followed by `rest`, and room is wanted for `s` and for `extra`
/// bytes more, decoding yields `s` and then whatever decoding `rest` yields
/// with room for `extra`.
pub proof fn lemma_unpack_pack_then(s: Seq<u8>, rest: Seq<u8>, extra: int)
    requires
        s.len() % 8 == 0,
        extra >= 0,
    ensures
        unpack(pack(s) + rest, s.len() + extra) == unpack_after(
            Unpacked { bytes: s, consumed: pack(s).len() as int },
            unpack(rest, extra),
        ),
    decreases s.len(),
{
    let done = Unpacked { bytes: s, consumed: pack(s).len() as int };
    if s.len() < 8 {
        assert(s =~= Seq::<u8>::empty());
        assert(pack(s) + rest =~= rest);
        match unpack(rest, extra) {
            Ok(r) => {
                assert(s + r.bytes =~= r.bytes);
            },
            Err(_) => {},
        }
    } else {
        lemma_group_len(s);
        let len = group_len(s);
        let t = s.skip(len);
        let p = pack(s) + rest;
        let after = pack(t) + rest;
        let room = s.len() + extra;
        assert(p =~= pack_group(s) + after);
        lemma_unpack_group_of_pack(s, after, room);
        let g = unpack_group(p, room).unwrap();
        assert(p.skip(g.consumed) =~= after);
        assert(p.len() > 0);
        lemma_unpack_pack_then(t, rest, extra);
        match unpack(rest, extra) {
            Ok(r) => {
                assert(s.take(len) + (t + r.bytes) =~= s + r.bytes);
            },
            Err(_) => {},
        }
    }
}

/// Round trip: for every `s` that is a whole number of words, decoding the
/// packed form of `s` with room for `s` yields exactly `s` and uses up the
/// whole packed form.
pub proof fn lemma_round_trip(s: Seq<u8>)
    requires
        s.len() % 8 == 0,
    ensures
        unpack(pack(s), s.len() as int) == Ok::<Unpacked, PackedError>(
            Unpacked { bytes: s, consumed: pack(s).len() as int },
        ),
{
    lemma_unpack_pack_then(s, Seq::empty(), 0);
    assert(pack(s) + Seq::<u8>::empty() =~= pack(s));
    assert(s + Seq::<u8>::empty() =~= s);
}

/// Pieces that were packed one by one are read back one by one: where the
/// packed form of `s` is followed by anything, a request for as many bytes
/// as `s` has yields exactly `s` and leaves the stream at what follows.
pub proof fn lemma_unpack_first_piece(s: Seq<u8>, rest: Seq<u8>)
    requires
        s.len() % 8 == 0,
    ensures
        unpack(pack(s) + rest, s.len() as int) == Ok::<Unpacked, PackedError>(
            Unpacked { bytes: s, consumed: pack(s).len() as int },
        ),
        (pack(s) + rest).skip(pack(s).len() as int) == rest,
{
    lemma_unpack_pack_then(s, rest, 0);
    assert(s + Seq::<u8>::empty() =~= s);
    assert((pack(s) + rest).skip(pack(s).len() as int) =~= rest);
}

/// Length preservation: what decoding the packed form of `s` yields is as
/// long as `s`.
pub proof fn lemma_round_trip_len(s: Seq<u8>)
    requires
        s.len() % 8 == 0,
    ensures
        unpack(pack(s), s.len() as int) is Ok,
        unpack(pack(s), s.len() as int).unwrap().bytes.len() == s.len(),
{
    lemma_round_trip(s);
}

/// Alignment: decoding yields a whole number of words, no more than there
/// is room for, whatever the stream holds; so the output stands at a word
/// boundary at every tag. Packing likewise takes in whole words with every
/// tag group.
pub proof fn lemma_tag_boundaries_aligned(p: Seq<u8>, room: int)
    requires
        room >= 0,
        room % 8 == 0,
    ensures
        match unpack(p, room) {
            Ok(u) => u.bytes.len() % 8 == 0 && u.bytes.len() <= room && 0 <= u.consumed <= p.len(),
            Err(_) => true,
        },
        group_len(p) % 8 == 0,
    decreases room,
{
    if room >= 8 && p.len() > 0 {
        lemma_unpack_group_bounds(p, room);
        match unpack_group(p, room) {
            Ok(g) => {
                lemma_tag_boundaries_aligned(p.skip(g.consumed), room - g.bytes.len());
            },
            Err(_) => {},
        }
    }
}

/// A sequence of zeros starts with a zero run as long as its whole words
/// and the limit allow.
pub proof fn lemma_zero_run_of_zeros(words: int, limit: int)
    requires
        0 <= words,
        0 <= limit,
    ensures
        zero_run(zeros((8 * words) as nat), limit) == if words <= limit {
            words
        } else {
            limit
        },
    decreases limit,
{
    let z = zeros((8 * words) as nat);
    if limit > 0 && words > 0 {
        lemma_nonzero_count_extremes(z, 8);
        assert(z.skip(8) =~= zeros((8 * (words - 1)) as nat));
        lemma_zero_run_of_zeros(words - 1, limit - 1);
    }
}

/// Canonical zero run: between one and 256 all-zero words are packed as
/// two bytes, the tag `0x00` and the number of words less one.
pub proof fn lemma_pack_zero_words(words: int)
    requires
        1 <= words <= 256,
    ensures
        pack(zeros((8 * words) as nat)) == seq![0u8, (words - 1) as u8],
{
    let z = zeros((8 * words) as nat);
    lemma_nonzero_count_extremes(z, 8);
    lemma_word_tag_zero_or_full(z);
    lemma_literals_len(z, 8);
    assert(z.skip(8) =~= zeros((8 * (words - 1)) as nat));
    lemma_zero_run_of_zeros(words - 1, MAX_RUN_WORDS as int);
    assert(group_run(z) == words - 1);
    assert(pack(z.skip(group_len(z))) =~= Seq::<u8>::empty());
    assert(literals(z, 8) =~= Seq::<u8>::empty());
    assert(pack(z) =~= seq![0u8, (words - 1) as u8]);
}

/// Where each of the first `words` words of `s` has at most one zero byte,
/// the raw run at the start of `s` is as long as they and the limit allow.
pub proof fn lemma_raw_run_of_dense(s: Seq<u8>, words: int, limit: int)
    requires
        0 <= words,
        0 <= limit,
        s.len() == 8 * words,
        forall|k: int| 0 <= k < words ==> nonzero_count(#[trigger] s.skip(8 * k), 8) >= 7,
    ensures
        raw_run(s, limit) == if words <= limit {
            words
        } else {
            limit
        },
    decreases limit,
{
    if limit > 0 && words > 0 {
        assert(s.skip(8 * 0int) =~= s);
        let t = s.skip(8);
        assert forall|k: int| 0 <= k < words - 1 implies nonzero_count(
            #[trigger] t.skip(8 * k),
            8,
        ) >= 7 by {
            assert(t.skip(8 * k) =~= s.skip(8 * (k + 1)));
        }
        lemma_raw_run_of_dense(t, words - 1, limit - 1);
    }
}

/// Canonical raw run: between one and 256 words, the first without a zero
/// byte and each of the others with at most one, are packed as the tag
/// `0xff`, the first word, the number of words less one, and the other
/// words as they are.
pub proof fn lemma_pack_dense_words(s: Seq<u8>, words: int)
    requires
        1 <= words <= 256,
        s.len() == 8 * words,
        nonzero_count(s, 8) == 8,
        forall|k: int| 1 <= k < words ==> nonzero_count(#[trigger] s.skip(8 * k), 8) >= 7,
    ensures
        pack(s) == seq![0xffu8] + s.take(8) + seq![(words - 1) as u8] + s.skip(8),
{
    lemma_nonzero_count_extremes(s, 8);
    lemma_word_tag_zero_or_full(s);
    let t = s.skip(8);
    assert forall|k: int| 0 <= k < words - 1 implies nonzero_count(#[trigger] t.skip(8 * k), 8)
        >= 7 by {
        assert(t.skip(8 * k) =~= s.skip(8 * (k + 1)));
    }
    lemma_raw_run_of_dense(t, words - 1, MAX_RUN_WORDS as int);
    assert(group_run(s) == words - 1);
    assert(pack(s.skip(group_len(s))) =~= Seq::<u8>::empty());
    assert(s.subrange(8, group_len(s)) =~= s.skip(8));
    assert(pack(s) =~= seq![0xffu8] + s.take(8) + seq![(words - 1) as u8] + s.skip(8));
}

/// Whether what decoding came to stands whatever bytes follow the stream:
/// the output is full, or the stream is at fault in a way that more bytes
/// do not mend. A stream that ended early is not settled.
pub open spec fn settled(outcome: Result<Unpacked, PackedError>, room: int) -> bool {
    match outcome {
        Ok(u) => u.bytes.len() == room,
        Err(PackedError::Truncated) => false,
        Err(_) => true,
    }
}

/// A tag group that was decoded, or refused for its run, comes out the
/// same with more bytes behind the stream.
pub proof fn lemma_unpack_group_settled(p: Seq<u8>, more: Seq<u8>, room: int)
    requires
        room >= 8,
        p.len() > 0,
        unpack_group(p, room) != Err::<Unpacked, PackedError>(PackedError::Truncated),
    ensures
        unpack_group(p + more, room) == unpack_group(p, room),
        unpack_group(p, room) is Ok || unpack_group(p, room) == Err::<Unpacked, PackedError>(
            PackedError::RunOverflow,
        ),
{
    let q = p + more;
    let tag = p[0];
    lemma_literal_count_bounds(tag, 8);
    assert(q[0] == tag);
    assert(head_len(q) == head_len(p));
    assert(expand(tag, q.skip(1)) =~= expand(tag, p.skip(1))) by {
        assert forall|i: int| 0 <= i < 8 implies expand(tag, q.skip(1))[i] == expand(
            tag,
            p.skip(1),
        )[i] by {
            lemma_literal_count_bounds(tag, i);
            lemma_literal_count_monotonic(tag, i + 1, 8);
        }
    }
    if has_count(tag) {
        let head = head_len(p);
        assert(q[head - 1] == p[head - 1]);
        let run = 8 * (p[head - 1] as int);
        if run <= room - 8 && tag != 0u8 {
            assert(q.subrange(head, head + run) =~= p.subrange(head, head + run));
        }
    }
}

/// Decoding that is settled comes out the same with more bytes behind the
/// stream: a reader that has taken only part of its input may stop asking
/// for more once the outcome is settled.
pub proof fn lemma_unpack_settled(p: Seq<u8>, more: Seq<u8>, room: int)
    requires
        settled(unpack(p, room), room),
    ensures
        unpack(p + more, room) == unpack(p, room),
    decreases room,
{
    let q = p + more;
    if room >= 8 {
        if p.len() > 0 {
            lemma_unpack_group_bounds(p, room);
            lemma_unpack_group_settled(p, more, room);
            match unpack_group(p, room) {
                Ok(g) => {
                    assert(q.skip(g.consumed) =~= p.skip(g.consumed) + more);
                    lemma_unpack_settled(p.skip(g.consumed), more, room - g.bytes.len());
                },
                Err(_) => {},
            }
        }
    }
}

} // verus!
