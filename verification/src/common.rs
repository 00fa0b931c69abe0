//! The word, the unit in which every segment is measured, and zeroed
//! allocation.

use vstd::prelude::*;

verus! {

/// Number of bytes in one word.
pub const BYTES_PER_WORD: usize = 8;

/// Number of words that one pointer occupies in a segment.
pub const WORDS_PER_POINTER: usize = 1;

/// An opaque unit of eight bytes. Segments are sequences of words; the codec
/// and the framing look at a word only through its bytes.
#[derive(Clone, Copy, Debug)]
pub struct Word {
    bytes: [u8; 8],
}

impl View for Word {
    type V = Seq<u8>;

    closed spec fn view(&self) -> Seq<u8> {
        self.bytes@
    }
}

/// The sequence of `n` zero bytes.
pub open spec fn zeros(n: nat) -> Seq<u8> {
    Seq::new(n, |i: int| 0u8)
}

/// The bytes of a sequence of words, word after word.
pub open spec fn words_to_bytes(words: Seq<Word>) -> Seq<u8> {
    Seq::new(words.len() * 8, |i: int| words[i / 8]@[i % 8])
}

impl Word {
    /// Every word has exactly eight bytes.
    pub broadcast proof fn lemma_len(self)
        ensures
            #[trigger] self@.len() == 8,
    {
    }

    /// The all-zero word.
    pub fn zero() -> (w: Word)
        ensures
            w@ == zeros(8),
    {
        let w = Word { bytes: [0u8; 8] };
        assert(w@ =~= zeros(8));
        w
    }

    /// The word with the given bytes.
    pub fn from_bytes(bytes: [u8; 8]) -> (w: Word)
        ensures
            w@ == bytes@,
    {
        Word { bytes }
    }

    /// The eight bytes of the word.
    pub fn to_bytes(&self) -> (bytes: [u8; 8])
        ensures
            bytes@ == self@,
    {
        self.bytes
    }

    /// Byte `i` of the word.
    pub fn byte(&self, i: usize) -> (b: u8)
        requires
            i < 8,
        ensures
            b == self@[i as int],
    {
        self.bytes[i]
    }

    /// Whether every byte of the word is zero.
    pub fn is_zero(&self) -> (z: bool)
        ensures
            z <==> self@ == zeros(8),
    {
        let mut i: usize = 0;
        while i < 8
            invariant
                i <= 8,
                forall|j: int| 0 <= j < i ==> self@[j] == 0u8,
            decreases 8 - i,
        {
            if self.bytes[i] != 0 {
                return false;
            }
            i += 1;
        }
        assert(self@ =~= zeros(8));
        true
    }
}

/// A buffer of `size` zero bytes.
pub fn allocate_zeroed_bytes(size: usize) -> (buf: Vec<u8>)
    ensures
        buf@ == zeros(size as nat),
{
    let mut buf: Vec<u8> = Vec::with_capacity(size);
    let mut i: usize = 0;
    while i < size
        invariant
            i <= size,
            buf@ == zeros(i as nat),
        decreases size - i,
    {
        buf.push(0u8);
        assert(buf@ =~= zeros((i + 1) as nat));
        i += 1;
    }
    buf
}

/// A buffer of `size` zero words.
pub fn allocate_zeroed_words(size: usize) -> (buf: Vec<Word>)
    ensures
        buf@.len() == size,
        forall|i: int| 0 <= i < size ==> (#[trigger] buf@[i])@ == zeros(8),
{
    let mut buf: Vec<Word> = Vec::with_capacity(size);
    let mut i: usize = 0;
    while i < size
        invariant
            i <= size,
            buf@.len() == i,
            forall|j: int| 0 <= j < i ==> (#[trigger] buf@[j])@ == zeros(8),
        decreases size - i,
    {
        buf.push(Word::zero());
        i += 1;
    }
    buf
}

/// The words that the given bytes make up, eight bytes to a word.
pub fn bytes_to_words(bytes: &[u8]) -> (words: Vec<Word>)
    requires
        bytes@.len() % 8 == 0,
    ensures
        8 * words@.len() == bytes@.len(),
        words_to_bytes(words@) == bytes@,
{
    let count = bytes.len() / 8;
    let mut words: Vec<Word> = Vec::with_capacity(count);
    let mut i: usize = 0;
    while i < count
        invariant
            i <= count,
            8 * count == bytes@.len(),
            bytes@.len() == bytes.len(),
            words@.len() == i,
            forall|k: int|
                0 <= k < i ==> (#[trigger] words@[k])@ == bytes@.subrange(8 * k, 8 * k + 8),
        decreases count - i,
    {
        let at = 8 * i;
        let word = Word::from_bytes(
            [
                bytes[at],
                bytes[at + 1],
                bytes[at + 2],
                bytes[at + 3],
                bytes[at + 4],
                bytes[at + 5],
                bytes[at + 6],
                bytes[at + 7],
            ],
        );
        assert(word@ =~= bytes@.subrange(8 * i, 8 * i + 8));
        words.push(word);
        i += 1;
    }
    assert(words_to_bytes(words@) =~= bytes@) by {
        assert forall|j: int| 0 <= j < bytes@.len() implies words@[j / 8]@[j % 8] == bytes@[j] by {
            assert(words@[j / 8]@ == bytes@.subrange(8 * (j / 8), 8 * (j / 8) + 8));
        }
    }
    words
}

} // verus!
