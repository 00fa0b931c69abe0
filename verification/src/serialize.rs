//! The frame of a message on the wire: a table that says how many segments
//! there are and how many words each has, and behind it the words of the
//! segments.
//!
//! The table is made of numbers of four bytes, lowest byte first: the
//! number of segments less one, then the number of words of each segment,
//! then four zero bytes where that is needed to end on a word boundary.

use vstd::prelude::*;
use crate::arena::{segment_views, MAX_SEGMENTS, MAX_SEGMENT_WORDS};
use crate::common::{words_to_bytes, zeros, Word};

verus! {

/// The four bytes of `n`, lowest byte first.
pub open spec fn le32(n: int) -> Seq<u8> {
    seq![
        (n % 256) as u8,
        ((n / 256) % 256) as u8,
        ((n / 65536) % 256) as u8,
        ((n / 16777216) % 256) as u8,
    ]
}

/// The sizes of the segments in words, four bytes each.
pub open spec fn segment_sizes(segments: Seq<Seq<Word>>) -> Seq<u8>
    decreases segments.len(),
{
    if segments.len() == 0 {
        Seq::empty()
    } else {
        segment_sizes(segments.drop_last()) + le32(segments.last().len() as int)
    }
}

/// The segment table of a message with the given segments.
pub open spec fn segment_table(segments: Seq<Seq<Word>>) -> Seq<u8> {
    le32(segments.len() - 1) + segment_sizes(segments) + if segments.len() % 2 == 0 {
        zeros(4)
    } else {
        Seq::empty()
    }
}

/// The pieces in which a message is written: the segment table, then the
/// bytes of each segment.
pub open spec fn message_chunks(segments: Seq<Seq<Word>>) -> Seq<Seq<u8>> {
    seq![segment_table(segments)] + Seq::new(
        segments.len(),
        |i: int| words_to_bytes(segments[i]),
    )
}

/// The sizes of `n` segments take four bytes each.
pub proof fn lemma_segment_sizes_len(segments: Seq<Seq<Word>>)
    ensures
        segment_sizes(segments).len() == 4 * segments.len(),
    decreases segments.len(),
{
    if segments.len() > 0 {
        lemma_segment_sizes_len(segments.drop_last());
    }
}

/// The segment table is a whole number of words.
pub proof fn lemma_segment_table_len(segments: Seq<Seq<Word>>)
    ensures
        segment_table(segments).len() % 8 == 0,
        segment_table(segments).len() == 4 * (segments.len() + 1) + if segments.len() % 2 == 0 {
            4int
        } else {
            0int
        },
{
    lemma_segment_sizes_len(segments);
}

/// Appends the four bytes of `n`, lowest byte first.
fn push_le32(buf: &mut Vec<u8>, n: u32)
    ensures
        final(buf)@ == old(buf)@ + le32(n as int),
{
    buf.push((n % 256) as u8);
    buf.push(((n / 256) % 256) as u8);
    buf.push(((n / 65536) % 256) as u8);
    buf.push(((n / 16777216) % 256) as u8);
    assert(buf@ =~= old(buf)@ + le32(n as int));
}

/// The segment table of the given segments.
pub fn segment_table_bytes(segments: &[&[Word]]) -> (table: Vec<u8>)
    requires
        1 <= segments@.len() <= MAX_SEGMENTS,
        forall|i: int|
            0 <= i < segments@.len() ==> (#[trigger] segments@[i])@.len() <= MAX_SEGMENT_WORDS,
    ensures
        table@ == segment_table(segment_views(segments)),
        table@.len() % 8 == 0,
{
    let ghost views = segment_views(segments);
    let count = segments.len();
    let mut table: Vec<u8> = Vec::new();
    push_le32(&mut table, (count - 1) as u32);
    let ghost first = table@;
    let mut i: usize = 0;
    assert(views.take(0) =~= Seq::<Seq<Word>>::empty());
    assert(table@ =~= first + segment_sizes(views.take(0)));
    while i < count
        invariant
            i <= count,
            count == segments@.len(),
            count <= MAX_SEGMENTS,
            views == segment_views(segments),
            forall|k: int|
                0 <= k < segments@.len() ==> (#[trigger] segments@[k])@.len() <= MAX_SEGMENT_WORDS,
            table@ == first + segment_sizes(views.take(i as int)),
        decreases count - i,
    {
        let size = segments[i].len();
        push_le32(&mut table, size as u32);
        proof {
            assert(views.take(i + 1).drop_last() =~= views.take(i as int));
            assert(views.take(i + 1).last() == segments@[i as int]@);
            assert(table@ =~= first + segment_sizes(views.take(i + 1)));
        }
        i += 1;
    }
    assert(views.take(count as int) =~= views);
    if count % 2 == 0 {
        push_le32(&mut table, 0);
        assert(le32(0) =~= zeros(4));
    }
    proof {
        assert(table@ =~= segment_table(views));
        lemma_segment_table_len(views);
    }
    table
}

/// The bytes of the given words, word after word.
pub fn words_to_byte_vec(words: &[Word]) -> (bytes: Vec<u8>)
    requires
        words@.len() <= MAX_SEGMENT_WORDS,
    ensures
        bytes@ == words_to_bytes(words@),
        bytes@.len() == 8 * words@.len(),
{
    let count = words.len();
    let mut bytes: Vec<u8> = Vec::with_capacity(8 * count);
    let mut i: usize = 0;
    while i < count
        invariant
            i <= count,
            count == words@.len(),
            count <= MAX_SEGMENT_WORDS,
            bytes@.len() == 8 * i,
            forall|k: int| 0 <= k < 8 * i ==> bytes@[k] == #[trigger] words@[k / 8]@[k % 8],
        decreases count - i,
    {
        let word = words[i];
        let mut j: usize = 0;
        while j < 8
            invariant
                j <= 8,
                i < count,
                word == words@[i as int],
                bytes@.len() == 8 * i + j,
                forall|k: int|
                    0 <= k < 8 * i + j ==> bytes@[k] == #[trigger] words@[k / 8]@[k % 8],
            decreases 8 - j,
        {
            bytes.push(word.byte(j));
            j += 1;
        }
        i += 1;
    }
    proof {
        assert forall|k: int| 0 <= k < words@.len() implies (#[trigger] words@[k])@.len() == 8 by {
            words@[k].lemma_len();
        }
        assert(bytes@ =~= words_to_bytes(words@));
    }
    bytes
}

/// The pieces in which the message with the given segments is written:
/// the segment table, then the bytes of each segment.
pub fn message_chunk_bytes(segments: &[&[Word]]) -> (chunks: Vec<Vec<u8>>)
    requires
        1 <= segments@.len() <= MAX_SEGMENTS,
        forall|i: int|
            0 <= i < segments@.len() ==> (#[trigger] segments@[i])@.len() <= MAX_SEGMENT_WORDS,
    ensures
        chunks@.len() == segments@.len() + 1,
        forall|i: int|
            0 <= i < chunks@.len() ==> (#[trigger] chunks@[i])@ == message_chunks(
                segment_views(segments),
            )[i],
        forall|i: int| 0 <= i < chunks@.len() ==> (#[trigger] chunks@[i])@.len() % 8 == 0,
{
    let ghost views = segment_views(segments);
    let count = segments.len();
    let mut chunks: Vec<Vec<u8>> = Vec::new();
    chunks.push(segment_table_bytes(segments));
    let mut i: usize = 0;
    while i < count
        invariant
            i <= count,
            count == segments@.len(),
            views == segment_views(segments),
            forall|k: int|
                0 <= k < segments@.len() ==> (#[trigger] segments@[k])@.len() <= MAX_SEGMENT_WORDS,
            chunks@.len() == i + 1,
            forall|k: int|
                0 <= k < chunks@.len() ==> (#[trigger] chunks@[k])@ == message_chunks(views)[k],
            forall|k: int| 0 <= k < chunks@.len() ==> (#[trigger] chunks@[k])@.len() % 8 == 0,
        decreases count - i,
    {
        chunks.push(words_to_byte_vec(segments[i]));
        i += 1;
    }
    chunks
}

} // verus!
