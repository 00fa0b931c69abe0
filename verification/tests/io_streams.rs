use capnp::io::{
    copy_bytes, zero_bytes, BufferedInputStream, BufferedOutputStream, ByteSink, ByteSource,
    MemorySource, DEFAULT_BUFFER_SIZE,
};

#[test]
fn copy_and_zero_touch_only_their_range() {
    let mut dst = [9u8; 6];
    copy_bytes(&mut dst, 1, &[1, 2, 3, 4, 5], 2, 3);
    assert_eq!(dst, [9, 3, 4, 5, 9, 9]);
    zero_bytes(&mut dst, 2, 2);
    assert_eq!(dst, [9, 3, 0, 0, 9, 9]);
    copy_bytes(&mut dst, 6, &[1], 1, 0);
    assert_eq!(dst, [9, 3, 0, 0, 9, 9]);
}

#[test]
fn vec_sink_appends() {
    let mut sink: Vec<u8> = vec![1];
    ByteSink::write(&mut sink, &[2, 3]);
    ByteSink::write(&mut sink, &[]);
    assert_eq!(sink, vec![1, 2, 3]);
}

#[test]
fn memory_source_reads_in_chunks() {
    let mut source = MemorySource::with_chunk(vec![1, 2, 3, 4, 5], 2);
    let mut buf = [0u8; 4];
    assert_eq!(source.read(&mut buf), 2);
    assert_eq!(buf, [1, 2, 0, 0]);
    assert_eq!(source.read(&mut buf[..1]), 1);
    assert_eq!(buf, [3, 2, 0, 0]);
    assert_eq!(source.read(&mut buf), 2);
    assert_eq!(buf, [4, 5, 0, 0]);
    assert_eq!(source.read(&mut buf), 0);
    assert_eq!(source.unread(), 0);
    let mut whole = MemorySource::new(vec![7, 8, 9]);
    assert_eq!(whole.unread(), 3);
    assert_eq!(whole.read(&mut []), 0);
    assert_eq!(whole.read(&mut buf), 3);
    assert_eq!(buf, [7, 8, 9, 0]);
}

#[test]
fn read_window_refills_and_skips() {
    let mut source = MemorySource::new(vec![1, 2, 3, 4, 5, 6, 7]);
    let mut stream = BufferedInputStream::with_capacity(&mut source, 3);
    assert_eq!(stream.get_read_buffer(), &[1, 2, 3]);
    stream.skip(2);
    assert_eq!(stream.get_read_buffer(), &[3]);
    stream.skip(1);
    assert!(!stream.eof());
    assert_eq!(stream.get_read_buffer(), &[4, 5, 6]);
    stream.skip(3);
    assert_eq!(stream.get_read_buffer(), &[7]);
    stream.skip(1);
    assert_eq!(stream.get_read_buffer(), &[] as &[u8]);
    assert!(stream.eof());
}

#[test]
fn buffered_read_drains_window_then_source() {
    let mut source = MemorySource::new((1..=20).collect());
    let mut stream = BufferedInputStream::with_capacity(&mut source, 4);
    let mut two = [0u8; 2];
    assert_eq!(stream.read(&mut two), 2);
    assert_eq!(two, [1, 2]);
    let mut six = [0u8; 6];
    assert_eq!(stream.read(&mut six), 2);
    assert_eq!(&six[..2], &[3, 4]);
    assert_eq!(stream.read(&mut six), 6);
    assert_eq!(six, [5, 6, 7, 8, 9, 10]);
    assert_eq!(stream.get_read_buffer(), &[11, 12, 13, 14]);
    assert_eq!(stream.read(&mut []), 0);
    let mut rest = [0u8; 32];
    assert_eq!(stream.read(&mut rest), 4);
    assert_eq!(stream.read(&mut rest), 6);
    assert_eq!(&rest[..6], &[15, 16, 17, 18, 19, 20]);
    assert_eq!(stream.read(&mut rest), 0);
}

#[test]
fn default_buffers() {
    assert_eq!(DEFAULT_BUFFER_SIZE, 8192);
    let mut source = MemorySource::new(vec![5; 10000]);
    let mut input = BufferedInputStream::new(&mut source);
    assert_eq!(input.get_read_buffer().len(), 8192);
    let mut sink: Vec<u8> = Vec::new();
    let mut output = BufferedOutputStream::new(&mut sink);
    assert_eq!(output.getWriteBuffer().len(), 8192);
}

#[test]
fn write_that_fits_is_only_buffered() {
    let mut sink: Vec<u8> = Vec::new();
    {
        let mut stream = BufferedOutputStream::with_capacity(&mut sink, 4);
        stream.write(&[1, 2, 3]);
        assert!(stream.inner.is_empty());
        stream.flush();
        assert_eq!(*stream.inner, vec![1, 2, 3]);
        stream.flush();
    }
    assert_eq!(sink, vec![1, 2, 3]);
}

#[test]
fn write_over_the_edge_fills_buffer_first() {
    let mut sink: Vec<u8> = Vec::new();
    {
        let mut stream = BufferedOutputStream::with_capacity(&mut sink, 4);
        stream.write(&[1, 2, 3]);
        stream.write(&[4, 5, 6]);
        assert_eq!(*stream.inner, vec![1, 2, 3, 4]);
        assert_eq!(stream.getWriteBuffer().len(), 2);
        stream.flush();
    }
    assert_eq!(sink, vec![1, 2, 3, 4, 5, 6]);
}

#[test]
fn large_write_goes_straight_through() {
    let mut sink: Vec<u8> = Vec::new();
    {
        let mut stream = BufferedOutputStream::with_capacity(&mut sink, 4);
        stream.write(&[1]);
        stream.write(&[2, 3, 4, 5, 6]);
        assert_eq!(*stream.inner, vec![1, 2, 3, 4, 5, 6]);
        assert_eq!(stream.getWriteBuffer().len(), 4);
    }
    assert_eq!(sink, vec![1, 2, 3, 4, 5, 6]);
}

#[test]
fn window_is_filled_in_place_and_committed() {
    let mut sink: Vec<u8> = Vec::new();
    {
        let mut stream = BufferedOutputStream::with_capacity(&mut sink, 8);
        {
            let window = stream.getWriteBuffer();
            assert_eq!(window.len(), 8);
            window[0] = 10;
            window[1] = 11;
            window[2] = 12;
        }
        stream.advance(2);
        {
            let window = stream.getWriteBuffer();
            assert_eq!(window.len(), 6);
            assert_eq!(window[0], 12);
            window[0] = 20;
            window[5] = 25;
        }
        stream.write_ptr(6);
        assert_eq!(stream.getWriteBuffer().len(), 0);
        stream.write_ptr(0);
        stream.flush();
    }
    assert_eq!(sink, vec![10, 11, 20, 0, 0, 0, 0, 25]);
}

#[test]
fn new_output_stream_is_empty_and_zeroed() {
    let mut sink: Vec<u8> = vec![1, 2];
    {
        let mut stream = BufferedOutputStream::new(&mut sink);
        assert_eq!(stream.inner.len(), 2);
        let window = stream.getWriteBuffer();
        assert_eq!(window.len(), 8192);
        assert!(window.iter().all(|b| *b == 0));
        stream.flush();
    }
    assert_eq!(sink, vec![1, 2]);
    let mut other: Vec<u8> = Vec::new();
    let mut small = BufferedOutputStream::with_capacity(&mut other, 3);
    assert_eq!(small.getWriteBuffer(), &[0u8, 0, 0]);
}

#[test]
fn advance_commits_a_window_filled_to_its_end() {
    let mut sink: Vec<u8> = Vec::new();
    {
        let mut stream = BufferedOutputStream::with_capacity(&mut sink, 4);
        {
            let window = stream.getWriteBuffer();
            window[0] = 7;
            window[1] = 8;
            window[2] = 9;
            window[3] = 10;
        }
        stream.advance(4);
        assert_eq!(stream.getWriteBuffer().len(), 0);
        stream.advance(0);
        assert!(stream.inner.is_empty());
        stream.flush();
        assert_eq!(*stream.inner, vec![7, 8, 9, 10]);
        assert_eq!(stream.getWriteBuffer(), &[7u8, 8, 9, 10]);
        stream.write(&[1]);
        assert_eq!(stream.getWriteBuffer(), &[8u8, 9, 10]);
    }
    assert_eq!(sink, vec![7, 8, 9, 10]);
}

#[test]
fn window_after_writes_holds_what_the_buffer_held() {
    let mut sink: Vec<u8> = Vec::new();
    let mut stream = BufferedOutputStream::with_capacity(&mut sink, 4);
    stream.write(&[1, 2, 3]);
    stream.write(&[4, 5, 6]);
    assert_eq!(*stream.inner, vec![1, 2, 3, 4]);
    assert_eq!(stream.getWriteBuffer(), &[3u8, 4]);
    stream.write(&[7, 8, 9, 10, 11]);
    assert_eq!(*stream.inner, vec![1, 2, 3, 4, 5, 6, 7, 8, 9, 10, 11]);
    assert_eq!(stream.getWriteBuffer(), &[5u8, 6, 3, 4]);
}

#[test]
fn large_read_with_empty_window_goes_past_the_buffer() {
    let mut source = MemorySource::new((1..=10).collect());
    let mut stream = BufferedInputStream::with_capacity(&mut source, 4);
    let mut buf = [0u8; 6];
    assert_eq!(stream.read(&mut buf), 6);
    assert_eq!(buf, [1, 2, 3, 4, 5, 6]);
    assert_eq!(stream.inner.unread(), 4);
    assert_eq!(stream.get_read_buffer(), &[7, 8, 9, 10]);
    assert_eq!(stream.inner.unread(), 0);
}
