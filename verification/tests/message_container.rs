use capnp::arena::{Allocation, AllocationStrategy, BuilderArena, FirstSegment, ReaderArena};
use capnp::common::{allocate_zeroed_bytes, allocate_zeroed_words, Word};
use capnp::io::{BufferedInputStream, BufferedOutputStream, MemorySource};
use capnp::layout::{PointerBuilder, PointerReader};
use capnp::message::{
    MallocMessageBuilder, MessageBuilder, MessageError, MessageReader, ReaderOptions,
    ScratchSpaceMallocMessageBuilder, SegmentArrayMessageReader, SUGGESTED_FIRST_SEGMENT_WORDS,
};
use capnp::serialize::{message_chunk_bytes, segment_table_bytes, words_to_byte_vec};
use capnp::serialize_packed::{PackedInputStream, WritePacked, WritePackedWrapper};

fn word(bytes: [u8; 8]) -> Word {
    Word::from_bytes(bytes)
}

fn segment_lengths(segments: &[&[Word]]) -> Vec<usize> {
    segments.iter().map(|s| s.len()).collect()
}

#[test]
fn zeroed_buffers_hold_zeros() {
    assert_eq!(allocate_zeroed_bytes(5), vec![0u8; 5]);
    let words = allocate_zeroed_words(3);
    assert_eq!(words.len(), 3);
    assert!(words.iter().all(|w| w.is_zero()));
    assert_eq!(Word::zero().to_bytes(), [0u8; 8]);
    assert_eq!(word([1, 2, 3, 4, 5, 6, 7, 8]).byte(2), 3);
    assert!(!word([0, 0, 0, 0, 0, 0, 0, 1]).is_zero());
}

#[test]
fn default_reader_options() {
    let options = ReaderOptions::default();
    assert_eq!(options.traversalLimitInWords, 8 * 1024 * 1024);
    assert_eq!(options.nestingLimit, 64);
}

#[test]
fn segment_array_reader_hands_out_segments() {
    let first = [word([1, 0, 0, 0, 0, 0, 0, 0]), word([2, 0, 0, 0, 0, 0, 0, 0])];
    let second = [word([3, 0, 0, 0, 0, 0, 0, 0])];
    let segments: [&[Word]; 2] = [&first, &second];
    let options = ReaderOptions { traversalLimitInWords: 100, nestingLimit: 7 };
    let reader = SegmentArrayMessageReader::new(&segments, options);
    assert_eq!(reader.get_segment(0).len(), 2);
    assert_eq!(reader.get_segment(1)[0].to_bytes(), [3, 0, 0, 0, 0, 0, 0, 0]);
    assert_eq!(*reader.get_options(), options);
    let arena = reader.arena();
    assert_eq!(arena.segment0.len(), 2);
    assert_eq!(arena.segment0.get_word(1).unwrap().to_bytes(), [2, 0, 0, 0, 0, 0, 0, 0]);
    assert!(arena.segment0.get_word(2).is_none());
    assert_eq!(arena.try_get_segment(1).unwrap().len(), 1);
    assert!(arena.try_get_segment(2).is_none());
    let root: PointerReader = reader.get_root();
    assert_eq!(root, PointerReader { segment_id: 0, offset: 0, nesting_limit: 7 });
}

#[test]
fn reader_arena_first_segment() {
    let only = [word([9, 9, 9, 9, 9, 9, 9, 9])];
    let segments: [&[Word]; 1] = [&only];
    let arena = ReaderArena::new(&segments);
    assert_eq!(arena.try_get_segment(0).unwrap().get_word(0).unwrap().to_bytes(), [9u8; 8]);
}

#[test]
fn root_is_first_word_of_first_segment() {
    let mut builder = MallocMessageBuilder::new_default();
    let root: Result<PointerBuilder, MessageError> = builder.init_root();
    assert_eq!(root, Ok(PointerBuilder { segment_id: 0, offset: 0 }));
    assert_eq!(builder.arena().segment0.current_size(), 1);
    let next = builder.arena().allocate(3);
    assert_eq!(next, Some(Allocation { segment_id: 0, offset: 1 }));
    let after = builder.arena().allocate(2);
    assert_eq!(after, Some(Allocation { segment_id: 0, offset: 4 }));
}

#[test]
fn root_must_come_first() {
    let mut builder = MallocMessageBuilder::new(16, AllocationStrategy::FIXED_SIZE);
    assert_eq!(builder.arena().allocate(1), Some(Allocation { segment_id: 0, offset: 0 }));
    let root: Result<PointerBuilder, MessageError> = builder.init_root();
    assert_eq!(root, Err(MessageError::RootNotFirst));
    let mut second = MallocMessageBuilder::new_default();
    assert!(second.init_root::<PointerBuilder>().is_ok());
    assert_eq!(second.init_root::<PointerBuilder>(), Err(MessageError::RootNotFirst));
}

#[test]
fn root_needs_a_word() {
    let mut builder = MallocMessageBuilder::new(0, AllocationStrategy::GROW_HEURISTICALLY);
    let root: Result<PointerBuilder, MessageError> = builder.init_root();
    assert_eq!(root, Err(MessageError::OutOfSpace));
    assert_eq!(builder.arena().segment0.current_size(), 0);
}

#[test]
fn fixed_size_adds_segments_of_the_first_size() {
    let mut arena = BuilderArena::new(AllocationStrategy::FIXED_SIZE, FirstSegment::NumWords(4));
    assert_eq!(arena.allocate(3), Some(Allocation { segment_id: 0, offset: 0 }));
    assert_eq!(arena.allocate(2), Some(Allocation { segment_id: 1, offset: 0 }));
    assert_eq!(arena.more_segments[0].words.len(), 4);
    assert_eq!(arena.allocate(1), Some(Allocation { segment_id: 0, offset: 3 }));
    assert_eq!(arena.allocate(2), Some(Allocation { segment_id: 1, offset: 2 }));
    assert_eq!(arena.allocate(5), None);
    assert_eq!(arena.more_segments.len(), 1);
    assert_eq!(arena.allocate(4), Some(Allocation { segment_id: 2, offset: 0 }));
}

#[test]
fn growing_arena_doubles() {
    let mut arena =
        BuilderArena::new(AllocationStrategy::GROW_HEURISTICALLY, FirstSegment::NumWords(4));
    assert_eq!(arena.allocate(4), Some(Allocation { segment_id: 0, offset: 0 }));
    assert_eq!(arena.allocate(1), Some(Allocation { segment_id: 1, offset: 0 }));
    assert_eq!(arena.more_segments[0].words.len(), 4);
    assert_eq!(arena.next_size, 8);
    assert_eq!(arena.allocate(20), Some(Allocation { segment_id: 2, offset: 0 }));
    assert_eq!(arena.more_segments[1].words.len(), 20);
    assert_eq!(arena.next_size, 28);
    assert_eq!(arena.allocate(0), Some(Allocation { segment_id: 0, offset: 4 }));
}

#[test]
fn words_are_kept_where_they_are_put() {
    let mut arena = BuilderArena::new(AllocationStrategy::FIXED_SIZE, FirstSegment::NumWords(2));
    let a = arena.allocate(2).unwrap();
    let b = arena.allocate(1).unwrap();
    arena.set_word(Allocation { segment_id: a.segment_id, offset: 1 }, word([1; 8]));
    arena.set_word(b, word([2; 8]));
    assert_eq!(arena.get_word(Allocation { segment_id: 0, offset: 0 }).to_bytes(), [0; 8]);
    assert_eq!(arena.get_word(Allocation { segment_id: 0, offset: 1 }).to_bytes(), [1; 8]);
    assert_eq!(arena.get_word(b).to_bytes(), [2; 8]);
    let lengths = arena.get_segments_for_output(segment_lengths);
    assert_eq!(lengths, vec![2, 1]);
}

#[test]
fn segments_for_output_are_the_taken_words() {
    let mut builder = MallocMessageBuilder::new(8, AllocationStrategy::FIXED_SIZE);
    builder.init_root::<PointerBuilder>().unwrap();
    builder.arena().allocate(2).unwrap();
    let lengths = builder.get_segments_for_output(segment_lengths);
    assert_eq!(lengths, vec![3]);
}

#[test]
fn segment_table_of_one_and_two_segments() {
    let a = [Word::zero(); 3];
    let b = [Word::zero(); 258];
    let one: [&[Word]; 1] = [&a];
    assert_eq!(segment_table_bytes(&one), vec![0, 0, 0, 0, 3, 0, 0, 0]);
    let two: [&[Word]; 2] = [&a, &b];
    assert_eq!(
        segment_table_bytes(&two),
        vec![1, 0, 0, 0, 3, 0, 0, 0, 2, 1, 0, 0, 0, 0, 0, 0]
    );
    let chunks = message_chunk_bytes(&two);
    assert_eq!(chunks.len(), 3);
    assert_eq!(chunks[1], vec![0u8; 24]);
    assert_eq!(chunks[2].len(), 258 * 8);
    let words = [word([1, 2, 3, 4, 5, 6, 7, 8]), word([0, 0, 0, 0, 0, 0, 0, 9])];
    assert_eq!(
        words_to_byte_vec(&words),
        vec![1, 2, 3, 4, 5, 6, 7, 8, 0, 0, 0, 0, 0, 0, 0, 9]
    );
}

fn build_message(builder: &mut MallocMessageBuilder) {
    builder.init_root::<PointerBuilder>().unwrap();
    let body = builder.arena().allocate(2).unwrap();
    builder
        .arena()
        .set_word(Allocation { segment_id: 0, offset: 0 }, word([0, 0, 0, 0, 2, 0, 0, 0]));
    builder.arena().set_word(body, word([1, 2, 3, 4, 5, 6, 7, 8]));
}

#[test]
fn packed_message_bytes() {
    let mut builder = MallocMessageBuilder::new(16, AllocationStrategy::FIXED_SIZE);
    build_message(&mut builder);
    let mut sink: Vec<u8> = Vec::new();
    {
        let mut wrapper = WritePackedWrapper { writer: &mut sink };
        wrapper.write_packed_message(&mut builder);
    }
    assert_eq!(
        sink,
        vec![
            0x10, 3, // table: one segment of three words
            0x10, 2, // root pointer word
            0xff, 1, 2, 3, 4, 5, 6, 7, 8, 0, // dense word, no further unpacked word
            0x00, 0, // zero word
        ]
    );
}

#[test]
fn packed_message_reads_back() {
    let mut builder = MallocMessageBuilder::new(2, AllocationStrategy::GROW_HEURISTICALLY);
    build_message(&mut builder);
    let extra = builder.arena().allocate(1).unwrap();
    assert_eq!(extra, Allocation { segment_id: 0, offset: 1 });
    builder.arena().set_word(extra, word([0, 0, 7, 0, 0, 0, 0, 0]));
    let mut sink: Vec<u8> = Vec::new();
    {
        let mut buffered = BufferedOutputStream::with_capacity(&mut sink, 16);
        buffered.write_packed_message(&mut builder);
        buffered.flush();
    }
    let mut source = MemorySource::with_chunk(sink, 5);
    let mut buffered = BufferedInputStream::with_capacity(&mut source, 7);
    let mut stream = PackedInputStream { inner: &mut buffered };
    let mut table = [0u8; 16];
    assert_eq!(stream.read(&mut table), Ok(16));
    assert_eq!(table, [1, 0, 0, 0, 2, 0, 0, 0, 2, 0, 0, 0, 0, 0, 0, 0]);
    let mut body = [0u8; 32];
    assert_eq!(stream.read(&mut body), Ok(32));
    assert_eq!(&body[0..8], &[0, 0, 0, 0, 2, 0, 0, 0]);
    assert_eq!(&body[8..16], &[0, 0, 7, 0, 0, 0, 0, 0]);
    assert_eq!(&body[16..24], &[1, 2, 3, 4, 5, 6, 7, 8]);
    assert_eq!(&body[24..32], &[0u8; 8]);
    assert!(stream.eof());
}

#[test]
fn scratch_space_is_first_segment_and_zero_after_release() {
    let mut scratch = [word([0xee; 8]); 4];
    {
        let mut builder = ScratchSpaceMallocMessageBuilder::new_default(&mut scratch);
        assert_eq!(
            builder.init_root::<PointerBuilder>(),
            Ok(PointerBuilder { segment_id: 0, offset: 0 })
        );
        let at = builder.arena().allocate(3).unwrap();
        assert_eq!(at, Allocation { segment_id: 0, offset: 1 });
        builder.arena().set_word(at, word([5; 8]));
        assert_eq!(builder.arena().get_word(at).to_bytes(), [5; 8]);
        assert_eq!(
            builder.arena().get_word(Allocation { segment_id: 0, offset: 0 }).to_bytes(),
            [0; 8]
        );
        let overflow = builder.arena().allocate(2).unwrap();
        assert_eq!(overflow, Allocation { segment_id: 1, offset: 0 });
        builder.release();
    }
    assert!(scratch.iter().all(|w| w.is_zero()));
}

#[test]
fn scratch_space_holds_the_words_while_lent() {
    let mut scratch = [Word::zero(); 2];
    let mut builder =
        ScratchSpaceMallocMessageBuilder::new(&mut scratch, AllocationStrategy::FIXED_SIZE);
    builder.init_root::<PointerBuilder>().unwrap();
    builder.arena().set_word(Allocation { segment_id: 0, offset: 0 }, word([3; 8]));
    let firsts = builder.get_segments_for_output(|segments: &[&[Word]]| segments[0][0].to_bytes());
    assert_eq!(firsts, [3; 8]);
    assert_eq!(SUGGESTED_FIRST_SEGMENT_WORDS, 1024);
}

#[test]
fn bytes_and_words_convert_both_ways() {
    let bytes: Vec<u8> = (1..=24).collect();
    let words = capnp::common::bytes_to_words(&bytes);
    assert_eq!(words.len(), 3);
    assert_eq!(words[1].to_bytes(), [9, 10, 11, 12, 13, 14, 15, 16]);
    assert_eq!(words_to_byte_vec(&words), bytes);
    assert!(capnp::common::bytes_to_words(&[]).is_empty());
}

#[test]
fn errors_describe_themselves() {
    assert_eq!(MessageError::OutOfSpace.description(), "could not allocate root pointer");
    assert_eq!(
        MessageError::RootNotFirst.description(),
        "the root pointer must be the first allocation"
    );
}

#[test]
fn arena_checks_its_own_order() {
    let mut arena = BuilderArena::new(AllocationStrategy::FIXED_SIZE, FirstSegment::NumWords(2));
    arena.allocate(2).unwrap();
    arena.allocate(1).unwrap();
    assert!(arena.is_well_formed());
    assert!(arena.segment0.is_well_formed());
    arena.more_segments[0].pos = 3;
    assert!(!arena.is_well_formed());
    arena.more_segments[0].pos = 1;
    arena.segment0.id = 4;
    assert!(!arena.is_well_formed());
}
