use capnp::io::{BufferedInputStream, BufferedOutputStream, MemorySource};
use capnp::packed::PackedError;
use capnp::serialize_packed::{read_is_settled, PackedInputStream, PackedOutputStream};

const W0: [u8; 8] = [0, 0, 0, 0, 0, 0, 0, 0];
const W1: [u8; 8] = [1, 2, 3, 4, 5, 6, 7, 8];

fn pack_with_capacity(input: &[u8], capacity: usize) -> Vec<u8> {
    let mut sink: Vec<u8> = Vec::new();
    {
        let mut buffered = BufferedOutputStream::with_capacity(&mut sink, capacity);
        {
            let mut packed = PackedOutputStream { inner: &mut buffered };
            packed.write(input);
            packed.flush();
        }
    }
    sink
}

fn pack_bytes(input: &[u8]) -> Vec<u8> {
    pack_with_capacity(input, 8192)
}

fn unpack_with(
    packed: &[u8],
    len: usize,
    window: usize,
    chunk: usize,
) -> Result<(usize, Vec<u8>), PackedError> {
    let mut source = MemorySource::with_chunk(packed.to_vec(), chunk);
    let mut buffered = BufferedInputStream::with_capacity(&mut source, window);
    let mut stream = PackedInputStream { inner: &mut buffered };
    let mut out = vec![0xaau8; len];
    let n = stream.read(&mut out)?;
    Ok((n, out))
}

fn unpack_bytes(packed: &[u8], len: usize) -> Vec<u8> {
    let (n, out) = unpack_with(packed, len, 8192, usize::MAX).expect("well-formed stream");
    assert_eq!(n, len);
    out
}

fn words(list: &[[u8; 8]]) -> Vec<u8> {
    let mut v = Vec::new();
    for w in list {
        v.extend_from_slice(w);
    }
    v
}

#[test]
fn single_zero_word() {
    let input = words(&[W0]);
    let packed = pack_bytes(&input);
    assert_eq!(packed, vec![0x00, 0x00]);
    assert_eq!(unpack_bytes(&packed, 8), input);
}

#[test]
fn three_zero_words() {
    let input = words(&[W0, W0, W0]);
    let packed = pack_bytes(&input);
    assert_eq!(packed, vec![0x00, 0x02]);
    assert_eq!(unpack_bytes(&packed, 24), input);
}

#[test]
fn mixed_word() {
    let input = vec![0, 0, 0, 0, 0, 0, 0, 8];
    let packed = pack_bytes(&input);
    assert_eq!(packed, vec![0x80, 0x08]);
    assert_eq!(unpack_bytes(&packed, 8), input);
}

#[test]
fn dense_word() {
    let input = words(&[W1]);
    let packed = pack_bytes(&input);
    assert_eq!(packed, vec![0xff, 1, 2, 3, 4, 5, 6, 7, 8, 0x00]);
    assert_eq!(unpack_bytes(&packed, 8), input);
}

#[test]
fn dense_run_of_two() {
    let input = words(&[W1, W1]);
    let packed = pack_bytes(&input);
    assert_eq!(
        packed,
        vec![0xff, 1, 2, 3, 4, 5, 6, 7, 8, 0x01, 1, 2, 3, 4, 5, 6, 7, 8]
    );
    assert_eq!(unpack_bytes(&packed, 16), input);
}

#[test]
fn zero_run_cap() {
    let input = vec![0u8; 300 * 8];
    let packed = pack_bytes(&input);
    assert_eq!(packed, vec![0x00, 0xff, 0x00, 0x2b]);
    assert_eq!(unpack_bytes(&packed, 300 * 8), input);
}

#[test]
fn mid_stream_refill() {
    let input = words(&[W1, W0, [0, 7, 0, 0, 9, 0, 0, 1], W1, W1, W0, W0]);
    let packed = pack_bytes(&input);
    let (n, out) = unpack_with(&packed, input.len(), 3, usize::MAX).expect("well-formed stream");
    assert_eq!(n, input.len());
    assert_eq!(out, input);
}

fn sample(words: usize, seed: u64) -> Vec<u8> {
    let mut state = seed;
    let mut out = Vec::with_capacity(words * 8);
    let mut mode = 0u64;
    for w in 0..words {
        if w % 5 == 0 {
            state = state.wrapping_mul(6364136223846793005).wrapping_add(1442695040888963407);
            mode = (state >> 33) % 4;
        }
        for _ in 0..8 {
            state = state.wrapping_mul(6364136223846793005).wrapping_add(1442695040888963407);
            let r = (state >> 33) as u8;
            let byte = match mode {
                0 => 0,
                1 => r | 1,
                2 => {
                    if r % 4 == 0 {
                        r | 1
                    } else {
                        0
                    }
                }
                _ => {
                    if r % 8 == 0 {
                        0
                    } else {
                        r | 1
                    }
                }
            };
            out.push(byte);
        }
    }
    out
}

#[test]
fn empty_input_packs_to_nothing() {
    assert_eq!(pack_bytes(&[]), Vec::<u8>::new());
    assert_eq!(unpack_with(&[], 0, 8, 1), Ok((0, vec![])));
    assert_eq!(unpack_with(&[0x00, 0x00], 0, 8, 1), Ok((0, vec![])));
}

#[test]
fn zero_words_up_to_the_cap() {
    for n in 1..=256usize {
        let packed = pack_bytes(&vec![0u8; n * 8]);
        assert_eq!(packed, vec![0x00, (n - 1) as u8]);
    }
    assert_eq!(pack_bytes(&vec![0u8; 257 * 8]), vec![0x00, 0xff, 0x00, 0x00]);
}

#[test]
fn dense_words_up_to_the_cap() {
    for n in [1usize, 2, 3, 100, 255, 256] {
        let mut input = Vec::new();
        for k in 0..n {
            let mut w = [(k % 250) as u8 + 1; 8];
            if k > 0 && k % 3 == 0 {
                w[k % 8] = 0;
            }
            input.extend_from_slice(&w);
        }
        let packed = pack_bytes(&input);
        let mut expected = vec![0xff];
        expected.extend_from_slice(&input[..8]);
        expected.push((n - 1) as u8);
        expected.extend_from_slice(&input[8..]);
        assert_eq!(packed, expected);
        assert_eq!(unpack_bytes(&packed, input.len()), input);
    }
    let input = vec![7u8; 257 * 8];
    let packed = pack_bytes(&input);
    assert_eq!(packed.len(), 1 + 8 + 1 + 255 * 8 + 1 + 8 + 1);
    assert_eq!(packed[1 + 8], 255);
    assert_eq!(&packed[packed.len() - 10..], &[0xff, 7, 7, 7, 7, 7, 7, 7, 7, 0]);
}

#[test]
fn raw_run_ends_before_a_word_with_two_zeros() {
    let input = words(&[W1, [1, 0, 1, 1, 1, 1, 1, 1], [1, 0, 0, 1, 1, 1, 1, 1], W1]);
    let packed = pack_bytes(&input);
    let mut expected = vec![0xff, 1, 2, 3, 4, 5, 6, 7, 8, 1, 1, 0, 1, 1, 1, 1, 1, 1];
    expected.extend_from_slice(&[0xf9, 1, 1, 1, 1, 1, 1]);
    expected.extend_from_slice(&[0xff, 1, 2, 3, 4, 5, 6, 7, 8, 0]);
    assert_eq!(packed, expected);
    assert_eq!(unpack_bytes(&packed, input.len()), input);
}

#[test]
fn word_with_one_zero_is_tagged_when_it_comes_first() {
    let input = words(&[[1, 0, 1, 1, 1, 1, 1, 1], W1]);
    let packed = pack_bytes(&input);
    assert_eq!(
        packed,
        vec![0xfd, 1, 1, 1, 1, 1, 1, 1, 0xff, 1, 2, 3, 4, 5, 6, 7, 8, 0]
    );
}

#[test]
fn round_trip_of_mixed_data() {
    for seed in 0..20u64 {
        let input = sample(3 + (seed as usize) * 37, seed);
        let packed = pack_bytes(&input);
        assert_eq!(unpack_bytes(&packed, input.len()), input);
    }
}

#[test]
fn output_does_not_depend_on_the_buffer() {
    for seed in 0..6u64 {
        let input = sample(400, seed + 100);
        let reference = pack_bytes(&input);
        for capacity in [0usize, 1, 2, 9, 10, 11, 19, 20, 21, 29, 64, 100, 1000] {
            assert_eq!(pack_with_capacity(&input, capacity), reference);
        }
    }
}

#[test]
fn packing_in_several_writes() {
    let first = sample(50, 1);
    let second = sample(70, 2);
    let mut sink: Vec<u8> = Vec::new();
    {
        let mut buffered = BufferedOutputStream::with_capacity(&mut sink, 32);
        let mut packed = PackedOutputStream { inner: &mut buffered };
        packed.write(&first);
        packed.write(&second);
        packed.flush();
    }
    let mut expected = pack_bytes(&first);
    expected.extend_from_slice(&pack_bytes(&second));
    assert_eq!(sink, expected);
    let mut source = MemorySource::new(sink);
    let mut buffered = BufferedInputStream::with_capacity(&mut source, 16);
    let mut stream = PackedInputStream { inner: &mut buffered };
    let mut a = vec![0u8; first.len()];
    let mut b = vec![0u8; second.len()];
    assert_eq!(stream.read(&mut a), Ok(first.len()));
    assert_eq!(stream.read(&mut b), Ok(second.len()));
    assert_eq!(a, first);
    assert_eq!(b, second);
    assert!(stream.eof());
}

#[test]
fn decoding_does_not_depend_on_refills() {
    for seed in 0..5u64 {
        let input = sample(120, seed + 7);
        let packed = pack_bytes(&input);
        let reference = unpack_with(&packed, input.len(), 8192, usize::MAX);
        assert_eq!(reference, Ok((input.len(), input.clone())));
        for window in [1usize, 2, 3, 4, 7, 9, 10, 11, 16, 33, 257] {
            for chunk in [1usize, 2, 3, 5, 8, 13, 64, usize::MAX] {
                assert_eq!(unpack_with(&packed, input.len(), window, chunk), reference);
            }
        }
    }
}

#[test]
fn reading_stops_at_the_end_of_the_stream() {
    let input = words(&[W1, W0, W0]);
    let packed = pack_bytes(&input);
    let (n, out) = unpack_with(&packed, 40, 4, 3).expect("ends at a tag");
    assert_eq!(n, 24);
    assert_eq!(&out[..24], &input[..]);
    assert_eq!(&out[24..], &[0xaa; 16]);
}

#[test]
fn reading_stops_when_the_buffer_is_full() {
    let input = words(&[[0, 1, 0, 0, 0, 0, 0, 0], W1, [0, 0, 2, 0, 0, 0, 0, 0]]);
    let packed = pack_bytes(&input);
    let mut source = MemorySource::new(packed);
    let mut buffered = BufferedInputStream::with_capacity(&mut source, 5);
    let mut stream = PackedInputStream { inner: &mut buffered };
    let mut first = [0u8; 8];
    assert_eq!(stream.read(&mut first), Ok(8));
    assert_eq!(first, [0, 1, 0, 0, 0, 0, 0, 0]);
    assert!(!stream.eof());
    let mut rest = [0u8; 16];
    assert_eq!(stream.read(&mut rest), Ok(16));
    assert_eq!(&rest[..8], &W1);
    assert_eq!(&rest[8..], &[0, 0, 2, 0, 0, 0, 0, 0]);
    assert!(stream.eof());
    assert_eq!(stream.read(&mut rest), Ok(0));
}

#[test]
fn unaligned_length_is_refused() {
    let packed = pack_bytes(&words(&[W1]));
    for len in [1usize, 7, 9, 12] {
        assert_eq!(
            unpack_with(&packed, len, 8192, usize::MAX),
            Err(PackedError::UnalignedLength)
        );
    }
    let mut source = MemorySource::new(packed);
    let mut buffered = BufferedInputStream::new(&mut source);
    let mut stream = PackedInputStream { inner: &mut buffered };
    let mut odd = [0x55u8; 5];
    assert_eq!(stream.read(&mut odd), Err(PackedError::UnalignedLength));
    assert_eq!(odd, [0x55u8; 5]);
    let mut word = [0u8; 8];
    assert_eq!(stream.read(&mut word), Ok(8));
    assert_eq!(word, W1);
}

#[test]
fn truncated_streams_are_errors() {
    let cases: [&[u8]; 6] = [
        &[0x03, 1],
        &[0x00],
        &[0xff, 1, 2, 3, 4, 5, 6, 7, 8],
        &[0xff, 1, 2, 3, 4, 5, 6, 7],
        &[0xff, 1, 2, 3, 4, 5, 6, 7, 8, 1, 1, 2, 3],
        &[0x80],
    ];
    for packed in cases {
        for window in [1usize, 3, 10, 64] {
            assert_eq!(unpack_with(packed, 64, window, 2), Err(PackedError::Truncated));
        }
    }
}

#[test]
fn runs_that_overflow_the_buffer_are_errors() {
    for window in [1usize, 3, 10, 64] {
        assert_eq!(unpack_with(&[0x00, 0x01], 8, window, 4), Err(PackedError::RunOverflow));
        assert_eq!(unpack_with(&[0x00, 0x02], 16, window, 4), Err(PackedError::RunOverflow));
        assert_eq!(
            unpack_with(&[0xff, 1, 2, 3, 4, 5, 6, 7, 8, 1, 1, 2, 3, 4, 5, 6, 7, 8], 8, window, 4),
            Err(PackedError::RunOverflow)
        );
        assert_eq!(
            unpack_with(&[0x01, 9, 0x00, 0x05], 40, window, 4),
            Err(PackedError::RunOverflow)
        );
        assert_eq!(unpack_with(&[0x01, 9, 0x00, 0x05], 56, window, 4).map(|r| r.0), Ok(56));
    }
}

#[test]
fn decoder_takes_runs_the_encoder_would_not_write() {
    let packed = [0x00, 0x00, 0x00, 0x01, 0xff, 1, 0, 3, 4, 5, 6, 7, 8, 1, 0, 0, 0, 0, 0, 0, 0, 0];
    let expected = words(&[W0, W0, W0, [1, 0, 3, 4, 5, 6, 7, 8], W0]);
    for window in [1usize, 2, 10, 11, 64] {
        assert_eq!(
            unpack_with(&packed, 40, window, 3),
            Ok((40, expected.clone()))
        );
    }
}

#[test]
fn packed_errors_describe_themselves() {
    assert_eq!(
        PackedError::UnalignedLength.description(),
        "packed reads must be word-aligned"
    );
    assert_eq!(
        PackedError::Truncated.description(),
        "packed input ended inside a word or a run"
    );
    assert_eq!(
        PackedError::RunOverflow.description(),
        "packed input did not end cleanly on a segment boundary"
    );
}

#[test]
fn settled_reads_do_not_change_with_more_bytes() {
    assert!(read_is_settled(&Ok(16), 16));
    assert!(!read_is_settled(&Ok(8), 16));
    assert!(read_is_settled(&Ok(0), 0));
    assert!(!read_is_settled(&Err(PackedError::Truncated), 16));
    assert!(read_is_settled(&Err(PackedError::RunOverflow), 16));
    assert!(read_is_settled(&Err(PackedError::UnalignedLength), 15));
    let input = sample(40, 3);
    let packed = pack_bytes(&input);
    let whole = unpack_with(&packed, input.len(), 16, 5);
    for cut in 0..packed.len() {
        let part = unpack_with(&packed[..cut], input.len(), 16, 5);
        if read_is_settled(&part.as_ref().map(|r| r.0).map_err(|e| *e), input.len()) {
            assert_eq!(part, whole);
        }
    }
    let bad = [0x01, 9, 0x00, 0x09, 1, 2, 3];
    let part = unpack_with(&bad[..4], 16, 8, 2);
    assert_eq!(part, Err(PackedError::RunOverflow));
    assert_eq!(unpack_with(&bad, 16, 8, 2), part);
}
