//! Message containers: a reader over segments that someone else holds, and
//! builders that own an arena of segments which grows as words are taken.

use vstd::prelude::*;
use crate::arena::{
    segment_views, Allocation, BuilderArena, FirstSegment, ReaderArena, MAX_SEGMENT_WORDS,
};
use crate::common::{zeros, Word, WORDS_PER_POINTER};
use crate::layout::{FromPointerBuilder, FromPointerReader, PointerBuilder, PointerReader};

pub use crate::arena::AllocationStrategy;

verus! {

/// Limits that a reader of a message's contents keeps to. The container
/// stores them and hands them on.
#[allow(non_snake_case)]
#[derive(Clone, Copy, Debug, PartialEq, Eq, Structural)]
pub struct ReaderOptions {
    /// How many words may be read in all while pointers are followed.
    pub traversalLimitInWords: u64,
    /// How many pointers deep a reader may go.
    pub nestingLimit: usize,
}

/// The traversal limit in use where none is given, in words.
pub const DEFAULT_TRAVERSAL_LIMIT_IN_WORDS: u64 = 8 * 1024 * 1024;

/// The nesting limit in use where none is given.
pub const DEFAULT_NESTING_LIMIT: usize = 64;

impl Default for ReaderOptions {
    /// The limits in use where none are given.
    fn default() -> (options: ReaderOptions)
        ensures
            options == (ReaderOptions {
                traversalLimitInWords: DEFAULT_TRAVERSAL_LIMIT_IN_WORDS,
                nestingLimit: DEFAULT_NESTING_LIMIT,
            }),
    {
        ReaderOptions {
            traversalLimitInWords: DEFAULT_TRAVERSAL_LIMIT_IN_WORDS,
            nestingLimit: DEFAULT_NESTING_LIMIT,
        }
    }
}

/// The size of a first segment that suits most messages, in words.
pub const SUGGESTED_FIRST_SEGMENT_WORDS: usize = 1024;

/// The rule for adding segments that suits most messages.
pub const SUGGESTED_ALLOCATION_STRATEGY: AllocationStrategy =
    AllocationStrategy::GROW_HEURISTICALLY;

/// A message that is read.
pub trait MessageReader {
    /// The words of each segment of the message.
    spec fn spec_segments(&self) -> Seq<Seq<Word>>;

    /// The limits that the message was opened with.
    spec fn spec_options(&self) -> ReaderOptions;

    /// The words of segment `id`, which the message must have.
    fn get_segment(&self, id: usize) -> (segment: &[Word])
        requires
            id < self.spec_segments().len(),
        ensures
            segment@ == self.spec_segments()[id as int],
    ;

    /// The arena that refers to the segments of the message.
    fn arena(&self) -> (arena: &ReaderArena)
        ensures
            arena.wf(),
            arena.view_segments() == self.spec_segments(),
    ;

    /// The limits that the message was opened with.
    fn get_options(&self) -> (options: &ReaderOptions)
        ensures
            *options == self.spec_options(),
    ;

    /// The root of the message: the value made from the pointer in the
    /// first word of the first segment, with the nesting limit of the
    /// message's options.
    fn get_root<T: FromPointerReader>(&self) -> (root: T)
        ensures
            root == T::spec_from_pointer_reader(
                PointerReader {
                    segment_id: 0,
                    offset: 0,
                    nesting_limit: self.spec_options().nestingLimit,
                },
            ),
    {
        let nesting_limit = self.get_options().nestingLimit;
        T::from_pointer_reader(PointerReader { segment_id: 0, offset: 0, nesting_limit })
    }
}

/// A message over segments that the caller holds.
pub struct SegmentArrayMessageReader<'a> {
    segments: &'a [&'a [Word]],
    options: ReaderOptions,
    arena: ReaderArena<'a>,
}

impl<'a> SegmentArrayMessageReader<'a> {
    /// There is a first segment, and the arena refers to the segments.
    #[verifier::type_invariant]
    spec fn inv(self) -> bool {
        self.segments@.len() > 0 && self.arena.wf() && self.arena.segments@ == self.segments@
    }

    /// A message of the given segments, of which there is at least one,
    /// to be read within the given limits.
    pub fn new(segments: &'a [&'a [Word]], options: ReaderOptions) -> (reader: Self)
        requires
            segments@.len() > 0,
        ensures
            reader.spec_segments() == segment_views(segments),
            reader.spec_options() == options,
    {
        SegmentArrayMessageReader { segments, options, arena: ReaderArena::new(segments) }
    }
}

impl<'a> MessageReader for SegmentArrayMessageReader<'a> {
    closed spec fn spec_segments(&self) -> Seq<Seq<Word>> {
        segment_views(self.segments)
    }

    closed spec fn spec_options(&self) -> ReaderOptions {
        self.options
    }

    fn get_segment(&self, id: usize) -> (segment: &[Word]) {
        self.segments[id]
    }

    fn arena(&self) -> (arena: &ReaderArena) {
        proof {
            use_type_invariant(self);
        }
        &self.arena
    }

    fn get_options(&self) -> (options: &ReaderOptions) {
        &self.options
    }
}

} // verus!

verus! {

/// Why the root of a message could not be set up.
#[derive(Clone, Copy, Debug, PartialEq, Eq, Structural)]
pub enum MessageError {
    /// Words of the first segment are taken already, so the root pointer
    /// cannot be its first word.
    RootNotFirst,
    /// The first segment has no room for the root pointer.
    OutOfSpace,
}

impl MessageError {
    /// What went wrong, in words.
    pub open spec fn spec_description(self) -> Seq<char> {
        match self {
            MessageError::RootNotFirst => "the root pointer must be the first allocation"@,
            MessageError::OutOfSpace => "could not allocate root pointer"@,
        }
    }

    /// What went wrong, in words.
    pub fn description(&self) -> (text: &'static str)
        ensures
            text@ == self.spec_description(),
    {
        match self {
            MessageError::RootNotFirst => "the root pointer must be the first allocation",
            MessageError::OutOfSpace => "could not allocate root pointer",
        }
    }
}

/// A message that is built.
pub trait MessageBuilder<'a> {
    /// The arena that holds the segments of the message.
    spec fn spec_arena(&self) -> BuilderArena<'a>;

    /// The arena that holds the segments of the message.
    fn arena(&mut self) -> (arena: &mut BuilderArena<'a>)
        ensures
            *arena == old(self).spec_arena(),
            final(self).spec_arena() == *final(arena),
    ;

    /// Takes the first word of the first segment for the root pointer and
    /// returns the value made from its place. This must be the first
    /// request for words: where words of the first segment are taken
    /// already, and where the first segment has no word, nothing is taken
    /// and the arena stays as it is.
    fn init_root<T: FromPointerBuilder>(&mut self) -> (root: Result<T, MessageError>)
        requires
            old(self).spec_arena().wf(),
        ensures
            final(self).spec_arena().wf(),
            old(self).spec_arena().segment0.pos != 0 ==> root == Err::<T, MessageError>(
                MessageError::RootNotFirst,
            ) && final(self).spec_arena() == old(self).spec_arena(),
            old(self).spec_arena().segment0.pos == 0 && old(self).spec_arena().segment0.words@.len()
                == 0 ==> root == Err::<T, MessageError>(MessageError::OutOfSpace) && final(
                self
            ).spec_arena() == old(self).spec_arena(),
            old(self).spec_arena().segment0.pos == 0 && old(self).spec_arena().segment0.words@.len()
                > 0 ==> {
                &&& root == Ok::<T, MessageError>(
                    T::spec_from_pointer_builder(PointerBuilder { segment_id: 0, offset: 0 }),
                )
                &&& final(self).spec_arena().segment0.pos == WORDS_PER_POINTER
                &&& old(self).spec_arena().takes_in_place(
                    final(self).spec_arena(),
                    WORDS_PER_POINTER as int,
                    Allocation { segment_id: 0, offset: 0 },
                )
            },
    {
        let arena = self.arena();
        if arena.segment0.current_size() != 0 {
            return Err(MessageError::RootNotFirst);
        }
        match arena.segment0.allocate(WORDS_PER_POINTER) {
            None => Err(MessageError::OutOfSpace),
            Some(location) => Ok(
                T::from_pointer_builder(PointerBuilder { segment_id: 0, offset: location }),
            ),
        }
    }

    /// Hands the words that are taken, segment by segment in the order of
    /// the segments' numbers, to `cont`, and returns what `cont` returns.
    /// The message stays as it is.
    fn get_segments_for_output<T, F: FnOnce(&[&[Word]]) -> T>(&mut self, cont: F) -> (r: T)
        requires
            old(self).spec_arena().wf(),
            forall|segments: &[&[Word]]|
                segment_views(segments) == old(self).spec_arena().allocated() ==> call_requires(
                    cont,
                    (segments,),
                ),
        ensures
            final(self).spec_arena() == old(self).spec_arena(),
            exists|segments: &[&[Word]]|
                segment_views(segments) == old(self).spec_arena().allocated() && call_ensures(
                    cont,
                    (segments,),
                    r,
                ),
    {
        self.arena().get_segments_for_output(cont)
    }
}

/// A message that is built in memory of its own.
pub struct MallocMessageBuilder {
    arena: BuilderArena<'static>,
}

impl MallocMessageBuilder {
    /// A message whose first segment has `first_segment_size` words, which
    /// may be no more than a segment can have, and that adds segments by
    /// the given rule.
    pub fn new(first_segment_size: usize, allocation_strategy: AllocationStrategy) -> (builder:
        MallocMessageBuilder)
        requires
            first_segment_size <= MAX_SEGMENT_WORDS,
        ensures
            builder.spec_arena().wf(),
            builder.spec_arena().segment_count() == 1,
            builder.spec_arena().allocation_strategy == allocation_strategy,
            builder.spec_arena().next_size == first_segment_size,
            builder.spec_arena().segment0.pos == 0,
            builder.spec_arena().segment0.words is Heap,
            builder.spec_arena().segment0.words@.len() == first_segment_size,
            forall|i: int|
                0 <= i < first_segment_size ==> (
                #[trigger] builder.spec_arena().segment0.words@[i])@ == zeros(8),
    {
        let arena = BuilderArena::new(
            allocation_strategy,
            FirstSegment::NumWords(first_segment_size),
        );
        MallocMessageBuilder { arena }
    }

    /// A message with a first segment of the suggested size that adds
    /// segments by the suggested rule.
    pub fn new_default() -> (builder: MallocMessageBuilder)
        ensures
            builder.spec_arena().wf(),
            builder.spec_arena().segment_count() == 1,
            builder.spec_arena().allocation_strategy == SUGGESTED_ALLOCATION_STRATEGY,
            builder.spec_arena().next_size == SUGGESTED_FIRST_SEGMENT_WORDS,
            builder.spec_arena().segment0.pos == 0,
            builder.spec_arena().segment0.words is Heap,
            builder.spec_arena().segment0.words@.len() == SUGGESTED_FIRST_SEGMENT_WORDS,
            forall|i: int|
                0 <= i < SUGGESTED_FIRST_SEGMENT_WORDS ==> (
                #[trigger] builder.spec_arena().segment0.words@[i])@ == zeros(8),
    {
        MallocMessageBuilder::new(SUGGESTED_FIRST_SEGMENT_WORDS, SUGGESTED_ALLOCATION_STRATEGY)
    }
}

impl MessageBuilder<'static> for MallocMessageBuilder {
    closed spec fn spec_arena(&self) -> BuilderArena<'static> {
        self.arena
    }

    fn arena(&mut self) -> (arena: &mut BuilderArena<'static>) {
        &mut self.arena
    }
}

} // verus!

verus! {

/// A message that is built in a buffer which the caller lends: the buffer
/// is the first segment, and segments that are added are the message's
/// own. The buffer is lent for as long as the message lives, and is handed
/// back holding zeros by [`ScratchSpaceMallocMessageBuilder::release`].
pub struct ScratchSpaceMallocMessageBuilder<'a> {
    arena: BuilderArena<'a>,
}

impl<'a> ScratchSpaceMallocMessageBuilder<'a> {
    /// A message whose first segment is `scratch_space`, which may have no
    /// more words than a segment can have, and that adds segments by the
    /// given rule. The buffer is set to zero.
    pub fn new(scratch_space: &'a mut [Word], allocation_strategy: AllocationStrategy) -> (builder:
        Self)
        requires
            old(scratch_space)@.len() <= MAX_SEGMENT_WORDS,
        ensures
            builder.spec_arena().wf(),
            builder.spec_arena().segment_count() == 1,
            builder.spec_arena().allocation_strategy == allocation_strategy,
            builder.spec_arena().next_size == old(scratch_space)@.len(),
            builder.spec_arena().segment0.pos == 0,
            builder.spec_arena().segment0.words is Scratch,
            builder.spec_arena().segment0.words@.len() == old(scratch_space)@.len(),
            forall|i: int|
                0 <= i < old(scratch_space)@.len() ==> (
                #[trigger] builder.spec_arena().segment0.words@[i])@ == zeros(8),
            final(builder.spec_arena().segment0.words->Scratch_0)@ == final(scratch_space)@,
    {
        let arena = BuilderArena::new(
            allocation_strategy,
            FirstSegment::ZeroedWords(scratch_space),
        );
        ScratchSpaceMallocMessageBuilder { arena }
    }

    /// A message whose first segment is `scratch_space` and that adds
    /// segments by the suggested rule.
    pub fn new_default(scratch_space: &'a mut [Word]) -> (builder: Self)
        requires
            old(scratch_space)@.len() <= MAX_SEGMENT_WORDS,
        ensures
            builder.spec_arena().wf(),
            builder.spec_arena().segment_count() == 1,
            builder.spec_arena().allocation_strategy == SUGGESTED_ALLOCATION_STRATEGY,
            builder.spec_arena().next_size == old(scratch_space)@.len(),
            builder.spec_arena().segment0.pos == 0,
            builder.spec_arena().segment0.words is Scratch,
            builder.spec_arena().segment0.words@.len() == old(scratch_space)@.len(),
            forall|i: int|
                0 <= i < old(scratch_space)@.len() ==> (
                #[trigger] builder.spec_arena().segment0.words@[i])@ == zeros(8),
            final(builder.spec_arena().segment0.words->Scratch_0)@ == final(scratch_space)@,
    {
        ScratchSpaceMallocMessageBuilder::new(scratch_space, SUGGESTED_ALLOCATION_STRATEGY)
    }

    /// Ends the message and hands the buffer back: every word of it is
    /// zero from then on, so that nothing of the message stays behind in
    /// memory that is used again.
    pub fn release(self)
        ensures
            self.spec_arena().segment0.words is Scratch ==> {
                &&& final(self.spec_arena().segment0.words->Scratch_0)@.len()
                    == self.spec_arena().segment0.words@.len()
                &&& forall|i: int|
                    0 <= i < self.spec_arena().segment0.words@.len() ==> (#[trigger] final(
                        self.spec_arena().segment0.words->Scratch_0
                    )@[i])@ == zeros(8)
            },
    {
        let mut arena = self.arena;
        arena.segment0.clear();
    }
}

impl<'a> MessageBuilder<'a> for ScratchSpaceMallocMessageBuilder<'a> {
    closed spec fn spec_arena(&self) -> BuilderArena<'a> {
        self.arena
    }

    fn arena(&mut self) -> (arena: &mut BuilderArena<'a>) {
        &mut self.arena
    }
}

} // verus!
