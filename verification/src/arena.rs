//! Segmented arenas: the words of a message, split into segments.
//!
//! A [`ReaderArena`] refers to the segments of a message that is read. A
//! [`BuilderArena`] owns the segments of a message that is built, hands out
//! room in them word by word, and adds a segment when none has room left.

use vstd::prelude::*;
use crate::common::{allocate_zeroed_words, zeros, Word};

verus! {

/// Largest number of words in one segment. The frame of a message gives
/// the size of a segment in four bytes, and the bytes of a segment are
/// counted in a `usize`, which may have no more than 32 bits.
pub const MAX_SEGMENT_WORDS: usize = 0x1fff_ffff;

/// Largest number of segments in one message. The frame gives the number
/// in four bytes, and the bytes of its table are counted in a `usize`.
pub const MAX_SEGMENTS: usize = 0x1fff_ffff;

/// How an arena sizes the segments that it adds.
#[allow(non_camel_case_types)]
#[derive(Clone, Copy, Debug, PartialEq, Eq, Structural)]
pub enum AllocationStrategy {
    /// Every added segment has the size of the first segment.
    FIXED_SIZE,
    /// Every added segment is at least as large as all segments before it
    /// together, as far as the size of a segment may go, so that the
    /// message doubles.
    GROW_HEURISTICALLY,
}

/// One segment of a message that is read.
#[derive(Clone, Copy)]
pub struct SegmentReader<'a> {
    /// The words of the segment.
    pub segment: &'a [Word],
}

impl<'a> SegmentReader<'a> {
    /// The number of words in the segment.
    pub fn len(&self) -> (n: usize)
        ensures
            n == self.segment@.len(),
    {
        self.segment.len()
    }

    /// The word at `offset`, if the segment has one there.
    pub fn get_word(&self, offset: usize) -> (w: Option<Word>)
        ensures
            w == if offset < self.segment@.len() {
                Some(self.segment@[offset as int])
            } else {
                None
            },
    {
        if offset < self.segment.len() {
            Some(self.segment[offset])
        } else {
            None
        }
    }
}

/// The segments of a message that is read. There is always a first
/// segment; the others are found by their number.
pub struct ReaderArena<'a> {
    /// The first segment.
    pub segment0: SegmentReader<'a>,
    /// All segments, the first included.
    pub segments: &'a [&'a [Word]],
}

impl<'a> ReaderArena<'a> {
    /// There is a first segment, and `segment0` is it.
    pub open spec fn wf(&self) -> bool {
        self.segments@.len() >= 1 && self.segment0.segment@ == self.segments@[0]@
    }

    /// The words of each segment.
    pub open spec fn view_segments(&self) -> Seq<Seq<Word>> {
        Seq::new(self.segments@.len(), |i: int| self.segments@[i]@)
    }

    /// The arena of the given segments, of which there is at least one.
    pub fn new(segments: &'a [&'a [Word]]) -> (arena: ReaderArena<'a>)
        requires
            segments@.len() > 0,
        ensures
            arena.wf(),
            arena.segments@ == segments@,
    {
        ReaderArena { segment0: SegmentReader { segment: segments[0] }, segments }
    }

    /// The segment with the given number, if there is one.
    pub fn try_get_segment(&self, id: u32) -> (s: Option<SegmentReader<'a>>)
        requires
            self.wf(),
        ensures
            match s {
                Some(reader) => id < self.segments@.len() && reader.segment@
                    == self.segments@[id as int]@,
                None => id >= self.segments@.len(),
            },
    {
        if id == 0 {
            Some(self.segment0)
        } else if (id as usize) < self.segments.len() {
            Some(SegmentReader { segment: self.segments[id as usize] })
        } else {
            None
        }
    }
}

/// Where the words of a segment that is built are kept: in memory of the
/// arena's own, or in a buffer that the caller lends.
pub enum SegmentWords<'a> {
    /// Words that the arena allocated.
    Heap(Vec<Word>),
    /// Words in a buffer lent by the caller.
    Scratch(&'a mut [Word]),
}

impl<'a> View for SegmentWords<'a> {
    type V = Seq<Word>;

    open spec fn view(&self) -> Seq<Word> {
        match self {
            SegmentWords::Heap(v) => v@,
            SegmentWords::Scratch(s) => s@,
        }
    }
}

impl<'a> SegmentWords<'a> {
    /// The number of words.
    pub fn len(&self) -> (n: usize)
        ensures
            n == self@.len(),
    {
        match self {
            SegmentWords::Heap(v) => v.len(),
            SegmentWords::Scratch(s) => s.len(),
        }
    }

    /// The word at `i`.
    pub fn get(&self, i: usize) -> (w: Word)
        requires
            i < self@.len(),
        ensures
            w == self@[i as int],
    {
        match self {
            SegmentWords::Heap(v) => v[i],
            SegmentWords::Scratch(s) => s[i],
        }
    }

    /// Puts `w` at `i`. The words stay where they are kept.
    pub fn set(&mut self, i: usize, w: Word)
        requires
            i < old(self)@.len(),
        ensures
            final(self)@ == old(self)@.update(i as int, w),
            *old(self) is Heap ==> *final(self) is Heap,
            *old(self) is Scratch ==> *final(self) is Scratch
                && final((*final(self))->Scratch_0)@ == final((*old(self))->Scratch_0)@,
    {
        match self {
            SegmentWords::Heap(v) => {
                v[i] = w;
            },
            SegmentWords::Scratch(s) => {
                s[i] = w;
            },
        }
    }

    /// The first `n` words.
    pub fn prefix(&self, n: usize) -> (s: &[Word])
        requires
            n <= self@.len(),
        ensures
            s@ == self@.take(n as int),
    {
        match self {
            SegmentWords::Heap(v) => vstd::slice::slice_subrange(v.as_slice(), 0, n),
            SegmentWords::Scratch(s) => vstd::slice::slice_subrange(s, 0, n),
        }
    }
}

/// One segment of a message that is built: its words, and how many of them
/// are taken.
pub struct SegmentBuilder<'a> {
    /// The number of the segment in its message.
    pub id: u32,
    /// The words of the segment, taken or not.
    pub words: SegmentWords<'a>,
    /// The number of words that are taken. They are the first ones.
    pub pos: usize,
}

impl<'a> SegmentBuilder<'a> {
    /// No more words are taken than there are, and there are no more than
    /// a segment may have.
    pub open spec fn wf(&self) -> bool {
        self.pos <= self.words@.len() <= MAX_SEGMENT_WORDS
    }

    /// The words that are taken.
    pub open spec fn allocated(&self) -> Seq<Word> {
        self.words@.take(self.pos as int)
    }

    /// Whether `amount` more words can be taken.
    pub open spec fn has_room(&self, amount: int) -> bool {
        self.pos + amount <= self.words@.len()
    }

    /// Whether the segment is in order.
    pub fn is_well_formed(&self) -> (ok: bool)
        ensures
            ok == self.wf(),
    {
        let len = self.words.len();
        self.pos <= len && len <= MAX_SEGMENT_WORDS
    }

    /// A segment over `words`, none of them taken.
    pub fn new(id: u32, words: SegmentWords<'a>) -> (segment: SegmentBuilder<'a>)
        requires
            words@.len() <= MAX_SEGMENT_WORDS,
        ensures
            segment.wf(),
            segment.id == id,
            segment.words == words,
            segment.pos == 0,
    {
        SegmentBuilder { id, words, pos: 0 }
    }

    /// The number of words that are taken.
    pub fn current_size(&self) -> (n: usize)
        ensures
            n == self.pos,
    {
        self.pos
    }

    /// Takes the next `amount` words and returns where they start, or
    /// nothing if that many are not left.
    pub fn allocate(&mut self, amount: usize) -> (offset: Option<usize>)
        requires
            old(self).wf(),
        ensures
            final(self).wf(),
            final(self).id == old(self).id,
            final(self).words == old(self).words,
            match offset {
                Some(at) => old(self).has_room(amount as int) && at == old(self).pos
                    && final(self).pos == at + amount,
                None => !old(self).has_room(amount as int) && final(self).pos == old(self).pos,
            },
    {
        if amount > self.words.len() - self.pos {
            None
        } else {
            let at = self.pos;
            self.pos = at + amount;
            Some(at)
        }
    }

    /// The word at `offset` among the words that are taken.
    pub fn get_word(&self, offset: usize) -> (w: Word)
        requires
            self.wf(),
            offset < self.pos,
        ensures
            w == self.words@[offset as int],
    {
        self.words.get(offset)
    }

    /// Puts `w` at `offset` among the words that are taken.
    pub fn set_word(&mut self, offset: usize, w: Word)
        requires
            old(self).wf(),
            offset < old(self).pos,
        ensures
            final(self).wf(),
            final(self).id == old(self).id,
            final(self).pos == old(self).pos,
            final(self).words@ == old(self).words@.update(offset as int, w),
            old(self).words is Heap ==> final(self).words is Heap,
            old(self).words is Scratch ==> final(self).words is Scratch
                && final(final(self).words->Scratch_0)@ == final(old(self).words->Scratch_0)@,
    {
        self.words.set(offset, w);
    }

    /// The words that are taken.
    pub fn get_allocated(&self) -> (s: &[Word])
        requires
            self.wf(),
        ensures
            s@ == self.allocated(),
    {
        self.words.prefix(self.pos)
    }

    /// Sets every word to zero, taken or not, and takes none of them any
    /// more.
    pub fn clear(&mut self)
        ensures
            final(self).id == old(self).id,
            final(self).pos == 0,
            final(self).words@.len() == old(self).words@.len(),
            old(self).words@.len() <= MAX_SEGMENT_WORDS ==> final(self).wf(),
            forall|i: int|
                0 <= i < final(self).words@.len() ==> (#[trigger] final(self).words@[i])@ == zeros(
                    8,
                ),
            old(self).words is Heap ==> final(self).words is Heap,
            old(self).words is Scratch ==> final(self).words is Scratch
                && final(final(self).words->Scratch_0)@ == final(old(self).words->Scratch_0)@,
    {
        let n = self.words.len();
        let mut i: usize = 0;
        while i < n
            invariant
                i <= n,
                n == self.words@.len(),
                n == old(self).words@.len(),
                self.id == old(self).id,
                forall|j: int| 0 <= j < i ==> (#[trigger] self.words@[j])@ == zeros(8),
                old(self).words is Heap ==> self.words is Heap,
                old(self).words is Scratch ==> self.words is Scratch
                    && final(self.words->Scratch_0)@ == final(old(self).words->Scratch_0)@,
            decreases n - i,
        {
            self.words.set(i, Word::zero());
            i += 1;
        }
        self.pos = 0;
    }
}

} // verus!

verus! {

/// What the first segment of a message that is built is made of.
pub enum FirstSegment<'a> {
    /// That many words, which the arena allocates.
    NumWords(usize),
    /// The words of a buffer that the caller lends.
    ZeroedWords(&'a mut [Word]),
}

/// A place in a message that is built: a segment and a word in it.
#[derive(Clone, Copy, Debug, PartialEq, Eq, Structural)]
pub struct Allocation {
    /// The number of the segment.
    pub segment_id: u32,
    /// The number of the word in the segment.
    pub offset: usize,
}

/// The segments of a message that is built, and the rule by which
/// segments are added.
pub struct BuilderArena<'a> {
    /// The first segment.
    pub segment0: SegmentBuilder<'a>,
    /// The segments that were added, in the order of their numbers.
    pub more_segments: Vec<SegmentBuilder<'a>>,
    /// How an added segment is sized.
    pub allocation_strategy: AllocationStrategy,
    /// The least size of the segment that is added next.
    pub next_size: usize,
}

impl<'a> BuilderArena<'a> {
    /// The number of segments.
    pub open spec fn segment_count(&self) -> int {
        1 + self.more_segments@.len() as int
    }

    /// The segment with number `i`.
    pub open spec fn segment(&self, i: int) -> SegmentBuilder<'a> {
        if i == 0 {
            self.segment0
        } else {
            self.more_segments@[i - 1]
        }
    }

    /// Every segment is in order and carries its number, the added ones
    /// are the arena's own, and the limits on segments hold.
    pub open spec fn wf(&self) -> bool {
        &&& self.segment0.wf()
        &&& self.segment0.id == 0
        &&& self.segment_count() <= MAX_SEGMENTS
        &&& self.next_size <= MAX_SEGMENT_WORDS
        &&& forall|i: int|
            0 <= i < self.more_segments@.len() ==> {
                &&& (#[trigger] self.more_segments@[i]).wf()
                &&& self.more_segments@[i].id == i + 1
                &&& self.more_segments@[i].words is Heap
            }
    }

    /// The words that are taken, segment by segment: what a writer puts
    /// out.
    pub open spec fn allocated(&self) -> Seq<Seq<Word>> {
        Seq::new(self.segment_count() as nat, |i: int| self.segment(i).allocated())
    }

    /// The size of the segment that would be added for a request of
    /// `amount` words.
    pub open spec fn new_segment_size(&self, amount: int) -> int {
        match self.allocation_strategy {
            AllocationStrategy::FIXED_SIZE => self.next_size as int,
            AllocationStrategy::GROW_HEURISTICALLY => if amount > self.next_size {
                amount
            } else {
                self.next_size as int
            },
        }
    }

    /// Whether a segment can be added that holds `amount` words.
    pub open spec fn can_grow(&self, amount: int) -> bool {
        &&& self.segment_count() < MAX_SEGMENTS
        &&& amount <= self.new_segment_size(amount) <= MAX_SEGMENT_WORDS
    }

    /// The least size of the next segment once one was added for a request
    /// of `amount` words.
    pub open spec fn next_size_after(&self, amount: int) -> int {
        match self.allocation_strategy {
            AllocationStrategy::FIXED_SIZE => self.next_size as int,
            AllocationStrategy::GROW_HEURISTICALLY => if self.next_size + self.new_segment_size(
                amount,
            ) > MAX_SEGMENT_WORDS {
                MAX_SEGMENT_WORDS as int
            } else {
                self.next_size + self.new_segment_size(amount)
            },
        }
    }

    /// Whether `amount` words are taken at `at` in a segment that `self`
    /// has, which then is the first one with room, and `after` is the arena
    /// that results.
    pub open spec fn takes_in_place(&self, after: Self, amount: int, at: Allocation) -> bool {
        let id = at.segment_id as int;
        &&& 0 <= id < self.segment_count()
        &&& self.segment(id).has_room(amount)
        &&& forall|j: int| 0 <= j < id ==> !(#[trigger] self.segment(j)).has_room(amount)
        &&& at.offset == self.segment(id).pos
        &&& after.segment_count() == self.segment_count()
        &&& after.segment(id).pos == at.offset + amount
        &&& after.segment(id).words == self.segment(id).words
        &&& forall|k: int|
            0 <= k < self.segment_count() && k != id ==> #[trigger] after.segment(k)
                == self.segment(k)
        &&& after.allocation_strategy == self.allocation_strategy
        &&& after.next_size == self.next_size
    }

    /// Whether no segment of `self` has room for `amount` words, one is
    /// added for them, `at` is its start, and `after` is the arena that
    /// results.
    pub open spec fn takes_in_new_segment(&self, after: Self, amount: int, at: Allocation) -> bool {
        let id = at.segment_id as int;
        &&& forall|j: int|
            0 <= j < self.segment_count() ==> !(#[trigger] self.segment(j)).has_room(amount)
        &&& self.can_grow(amount)
        &&& id == self.segment_count()
        &&& at.offset == 0
        &&& after.segment_count() == self.segment_count() + 1
        &&& after.segment(id).pos == amount
        &&& after.segment(id).words@.len() == self.new_segment_size(amount)
        &&& forall|i: int|
            0 <= i < after.segment(id).words@.len() ==> (#[trigger] after.segment(id).words@[i])@
                == zeros(8)
        &&& forall|k: int|
            0 <= k < self.segment_count() ==> #[trigger] after.segment(k) == self.segment(k)
        &&& after.allocation_strategy == self.allocation_strategy
        &&& after.next_size == self.next_size_after(amount)
    }

    /// Whether `other` has the same segments and the same rule as `self`.
    pub open spec fn same_as(&self, other: Self) -> bool {
        &&& self.segment0 == other.segment0
        &&& self.more_segments@ == other.more_segments@
        &&& self.allocation_strategy == other.allocation_strategy
        &&& self.next_size == other.next_size
    }

    /// What a request for `amount` words comes to: `after` is the arena
    /// that results from `self`, and `r` is what the request returns. The
    /// words are taken in the first segment that has room for them; where
    /// none has, in a segment that is added; and where none can be added,
    /// nothing is taken and nothing changes.
    pub open spec fn allocates(&self, after: Self, amount: int, r: Option<Allocation>) -> bool {
        match r {
            Some(at) => self.takes_in_place(after, amount, at) || self.takes_in_new_segment(
                after,
                amount,
                at,
            ),
            None => {
                &&& forall|j: int|
                    0 <= j < self.segment_count() ==> !(#[trigger] self.segment(j)).has_room(
                        amount,
                    )
                &&& !self.can_grow(amount)
                &&& after.same_as(*self)
            },
        }
    }

    /// An arena with the given first segment. A buffer that is lent is set
    /// to zero.
    pub fn new(allocation_strategy: AllocationStrategy, first: FirstSegment<'a>) -> (arena: Self)
        requires
            match first {
                FirstSegment::NumWords(n) => n <= MAX_SEGMENT_WORDS,
                FirstSegment::ZeroedWords(buf) => buf@.len() <= MAX_SEGMENT_WORDS,
            },
        ensures
            arena.wf(),
            arena.segment_count() == 1,
            arena.allocation_strategy == allocation_strategy,
            arena.segment0.pos == 0,
            arena.next_size == arena.segment0.words@.len(),
            forall|i: int|
                0 <= i < arena.segment0.words@.len() ==> (#[trigger] arena.segment0.words@[i])@
                    == zeros(8),
            match first {
                FirstSegment::NumWords(n) => arena.segment0.words is Heap
                    && arena.segment0.words@.len() == n,
                FirstSegment::ZeroedWords(buf) => arena.segment0.words is Scratch
                    && arena.segment0.words@.len() == buf@.len() && final(
                    arena.segment0.words->Scratch_0
                )@ == final(buf)@,
            },
    {
        let words = match first {
            FirstSegment::NumWords(n) => SegmentWords::Heap(allocate_zeroed_words(n)),
            FirstSegment::ZeroedWords(buf) => SegmentWords::Scratch(buf),
        };
        let mut segment0 = SegmentBuilder::new(0, words);
        segment0.clear();
        let next_size = segment0.words.len();
        BuilderArena { segment0, more_segments: Vec::new(), allocation_strategy, next_size }
    }

    /// Takes `amount` words in the first segment that has room for them,
    /// and adds a segment if none has. The words lie in one segment, and
    /// behind all words taken there before.
    pub fn allocate(&mut self, amount: usize) -> (r: Option<Allocation>)
        requires
            old(self).wf(),
        ensures
            final(self).wf(),
            old(self).allocates(*final(self), amount as int, r),
    {
        match self.segment0.allocate(amount) {
            Some(offset) => {
                let at = Allocation { segment_id: 0, offset };
                assert(old(self).takes_in_place(*self, amount as int, at));
                return Some(at);
            },
            None => {},
        }
        let count = self.more_segments.len();
        let mut i: usize = 0;
        while i < count
            invariant
                i <= count,
                count == self.more_segments@.len(),
                self.same_as(*old(self)),
                self.wf(),
                forall|j: int|
                    0 <= j <= i ==> !(#[trigger] old(self).segment(j)).has_room(amount as int),
            ensures
                i < count ==> self.more_segments@[i as int].has_room(amount as int),
            decreases count - i,
        {
            let segment = &self.more_segments[i];
            if amount <= segment.words.len() - segment.pos {
                break;
            }
            assert(old(self).segment(i + 1) == self.more_segments@[i as int]);
            i += 1;
        }
        if i < count {
            assert(old(self).segment(i + 1) == self.more_segments@[i as int]);
            let ghost before = self.more_segments@;
            match self.more_segments[i].allocate(amount) {
                Some(offset) => {
                    let at = Allocation { segment_id: (i + 1) as u32, offset };
                    proof {
                        assert(self.more_segments@.len() == before.len());
                        assert(self.segment(i + 1) == self.more_segments@[i as int]);
                        assert forall|k: int|
                            0 <= k < old(self).segment_count() && k != i + 1 implies self.segment(k)
                            == old(self).segment(k) by {
                            if k > 0 {
                                assert(self.more_segments@[k - 1] == before[k - 1]);
                            }
                        }
                        assert(old(self).takes_in_place(*self, amount as int, at));
                    }
                    return Some(at);
                },
                None => {
                    // The segment was found to have room.
                    assert(false);
                    return None;
                },
            }
        }
        let size = match self.allocation_strategy {
            AllocationStrategy::FIXED_SIZE => self.next_size,
            AllocationStrategy::GROW_HEURISTICALLY => if amount > self.next_size {
                amount
            } else {
                self.next_size
            },
        };
        if count + 1 >= MAX_SEGMENTS || amount > size || size > MAX_SEGMENT_WORDS {
            return None;
        }
        let ghost before = self.more_segments@;
        let mut segment = SegmentBuilder::new(
            (count + 1) as u32,
            SegmentWords::Heap(allocate_zeroed_words(size)),
        );
        segment.pos = amount;
        match self.allocation_strategy {
            AllocationStrategy::FIXED_SIZE => {},
            AllocationStrategy::GROW_HEURISTICALLY => {
                self.next_size = if size > MAX_SEGMENT_WORDS - self.next_size {
                    MAX_SEGMENT_WORDS
                } else {
                    self.next_size + size
                };
            },
        }
        self.more_segments.push(segment);
        let at = Allocation { segment_id: (count + 1) as u32, offset: 0 };
        proof {
            assert(self.more_segments@ == before.push(segment));
            assert(self.segment(count + 1) == segment);
            assert forall|k: int| 0 <= k < old(self).segment_count() implies self.segment(k)
                == old(self).segment(k) by {
                if k > 0 {
                    assert(self.more_segments@[k - 1] == before[k - 1]);
                }
            }
            assert(old(self).takes_in_new_segment(*self, amount as int, at));
        }
        Some(at)
    }
}

} // verus!

verus! {

/// The words of each of the given segments.
pub open spec fn segment_views(segments: &[&[Word]]) -> Seq<Seq<Word>> {
    Seq::new(segments@.len(), |i: int| segments@[i]@)
}

impl<'a> BuilderArena<'a> {
    /// Whether the arena is in order.
    pub fn is_well_formed(&self) -> (ok: bool)
        ensures
            ok == self.wf(),
    {
        let count = self.more_segments.len();
        if !self.segment0.is_well_formed() || self.segment0.id != 0 || count >= MAX_SEGMENTS
            || self.next_size > MAX_SEGMENT_WORDS {
            return false;
        }
        let mut i: usize = 0;
        while i < count
            invariant
                i <= count,
                count == self.more_segments@.len(),
                count < MAX_SEGMENTS,
                forall|k: int|
                    0 <= k < i ==> {
                        &&& (#[trigger] self.more_segments@[k]).wf()
                        &&& self.more_segments@[k].id == k + 1
                        &&& self.more_segments@[k].words is Heap
                    },
            decreases count - i,
        {
            let segment = &self.more_segments[i];
            let heap = match &segment.words {
                SegmentWords::Heap(_) => true,
                SegmentWords::Scratch(_) => false,
            };
            if !heap || !segment.is_well_formed() || segment.id as usize != i + 1 {
                return false;
            }
            i += 1;
        }
        true
    }

    /// The word at `at`, which must be taken.
    pub fn get_word(&self, at: Allocation) -> (w: Word)
        requires
            self.wf(),
            at.segment_id < self.segment_count(),
            at.offset < self.segment(at.segment_id as int).pos,
        ensures
            w == self.segment(at.segment_id as int).words@[at.offset as int],
    {
        if at.segment_id == 0 {
            self.segment0.get_word(at.offset)
        } else {
            self.more_segments[(at.segment_id - 1) as usize].get_word(at.offset)
        }
    }

    /// Puts `w` at `at`, which must be taken. Nothing else changes.
    pub fn set_word(&mut self, at: Allocation, w: Word)
        requires
            old(self).wf(),
            at.segment_id < old(self).segment_count(),
            at.offset < old(self).segment(at.segment_id as int).pos,
        ensures
            final(self).wf(),
            final(self).segment_count() == old(self).segment_count(),
            final(self).allocation_strategy == old(self).allocation_strategy,
            final(self).next_size == old(self).next_size,
            final(self).segment(at.segment_id as int).pos == old(self).segment(
                at.segment_id as int,
            ).pos,
            final(self).segment(at.segment_id as int).words@ == old(self).segment(
                at.segment_id as int,
            ).words@.update(at.offset as int, w),
            forall|k: int|
                0 <= k < old(self).segment_count() && k != at.segment_id ==> #[trigger] final(
                    self
                ).segment(k) == old(self).segment(k),
            old(self).segment0.words is Scratch ==> final(self).segment0.words is Scratch && final(
                final(self).segment0.words->Scratch_0
            )@ == final(old(self).segment0.words->Scratch_0)@,
    {
        if at.segment_id == 0 {
            self.segment0.set_word(at.offset, w);
        } else {
            let ghost before = self.more_segments@;
            let index = (at.segment_id - 1) as usize;
            assert(self.segment(at.segment_id as int) == self.more_segments@[index as int]);
            self.more_segments[index].set_word(at.offset, w);
            proof {
                assert(self.more_segments@.len() == before.len());
                assert forall|i: int| 0 <= i < self.more_segments@.len() implies {
                    &&& (#[trigger] self.more_segments@[i]).wf()
                    &&& self.more_segments@[i].id == i + 1
                    &&& self.more_segments@[i].words is Heap
                } by {
                    if i != index {
                        assert(self.more_segments@[i] == before[i]);
                    }
                }
                assert forall|k: int|
                    0 <= k < old(self).segment_count() && k != at.segment_id implies self.segment(k)
                    == old(self).segment(k) by {
                    if k > 0 {
                        assert(self.more_segments@[k - 1] == before[k - 1]);
                    }
                }
            }
        }
    }

    /// Hands the words that are taken, segment by segment in the order of
    /// the segments' numbers, to `cont`, and returns what `cont` returns.
    pub fn get_segments_for_output<T, F: FnOnce(&[&[Word]]) -> T>(&self, cont: F) -> (r: T)
        requires
            self.wf(),
            forall|segments: &[&[Word]]|
                segment_views(segments) == self.allocated() ==> call_requires(cont, (segments,)),
        ensures
            exists|segments: &[&[Word]]|
                segment_views(segments) == self.allocated() && call_ensures(cont, (segments,), r),
    {
        let mut list: Vec<&[Word]> = Vec::new();
        list.push(self.segment0.get_allocated());
        let count = self.more_segments.len();
        let mut i: usize = 0;
        while i < count
            invariant
                i <= count,
                count == self.more_segments@.len(),
                self.wf(),
                list@.len() == i + 1,
                forall|k: int| 0 <= k < list@.len() ==> (#[trigger] list@[k])@ == self.segment(
                    k,
                ).allocated(),
            decreases count - i,
        {
            list.push(self.more_segments[i].get_allocated());
            i += 1;
        }
        let segments = list.as_slice();
        assert(segment_views(segments) =~= self.allocated());
        cont(segments)
    }

    /// There are between one segment and as many as a message may have,
    /// and of none more words are taken than a segment may have.
    pub proof fn lemma_allocated_bounds(self)
        requires
            self.wf(),
        ensures
            1 <= self.allocated().len() <= MAX_SEGMENTS,
            self.allocated().len() == self.segment_count(),
            forall|i: int|
                0 <= i < self.allocated().len() ==> (#[trigger] self.allocated()[i]).len()
                    <= MAX_SEGMENT_WORDS,
    {
        assert forall|i: int| 0 <= i < self.allocated().len() implies (
        #[trigger] self.allocated()[i]).len() <= MAX_SEGMENT_WORDS by {
            if i > 0 {
                assert(self.more_segments@[i - 1].wf());
            }
            assert(self.segment(i).wf());
        }
    }

    /// Subsequent allocations lie behind earlier ones: a request leaves in
    /// every segment at least as many words taken as before, and the words
    /// it takes start where the taken words of their segment ended. So a
    /// word that is taken, such as the root pointer at the start of the
    /// first segment, is never handed out again.
    pub proof fn lemma_allocation_behind_taken(
        self,
        after: Self,
        amount: int,
        at: Allocation,
        k: int,
    )
        requires
            amount >= 0,
            self.allocates(after, amount, Some(at)),
            0 <= k < self.segment_count(),
        ensures
            after.segment(k).pos >= self.segment(k).pos,
            at.segment_id == k ==> at.offset == self.segment(k).pos && after.segment(k).pos
                == at.offset + amount,
            at.segment_id < after.segment_count(),
    {
        if self.takes_in_place(after, amount, at) {
            if k != at.segment_id {
                assert(after.segment(k) == self.segment(k));
            }
        } else {
            assert(after.segment(k) == self.segment(k));
        }
    }

    /// The root pointer stays reserved: once the first word of the first
    /// segment is taken, it is taken after every further request, and no
    /// request hands out words that start at it.
    pub proof fn lemma_root_stays_reserved(self, after: Self, amount: int, r: Option<Allocation>)
        requires
            amount >= 0,
            self.segment0.pos >= 1,
            self.allocates(after, amount, r),
        ensures
            after.segment0.pos >= 1,
            after.segment0.words == self.segment0.words,
            match r {
                Some(at) => at.segment_id == 0 ==> at.offset >= 1,
                None => true,
            },
    {
        match r {
            Some(at) => {
                self.lemma_allocation_behind_taken(after, amount, at, 0);
                if self.takes_in_place(after, amount, at) {
                    if at.segment_id != 0 {
                        assert(after.segment(0) == self.segment(0));
                    }
                } else {
                    assert(after.segment(0) == self.segment(0));
                }
            },
            None => {},
        }
    }
}

} // verus!
