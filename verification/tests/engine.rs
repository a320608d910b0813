use cdchunking::{
    ChunkInput, Chunker, FixedSizeChunker, GearChunker, MIIChunker, Reader, SliceReader,
    TTTDChunker, ZPAQ,
};

const TEXT: &[u8] = b"The quick brown fox jumps over the lazy dog, and then the dog chases the fox across the frozen lake.";

/// The events of a stream, with `None` for `End`.
fn events<R: Reader<Error = E>, E: std::fmt::Debug>(
    mut stream: cdchunking::ChunkStream<R, impl cdchunking::ChunkerImpl>,
) -> Vec<Option<Vec<u8>>> {
    let mut result = Vec::new();
    while let Some(event) = stream.read() {
        match event.unwrap() {
            ChunkInput::Data(d) => result.push(Some(d.to_vec())),
            ChunkInput::End => result.push(None),
        }
    }
    // A stream that has ended stays ended.
    assert!(stream.read().is_none());
    result
}

/// Chunks of one or more data events that are not empty, each followed by one `End`.
fn assert_well_ordered(events: &[Option<Vec<u8>>]) {
    let mut in_chunk = false;
    for event in events {
        match event {
            Some(data) => {
                assert!(!data.is_empty());
                in_chunk = true;
            }
            None => {
                assert!(in_chunk);
                in_chunk = false;
            }
        }
    }
    assert!(!in_chunk);
}

fn chunks_of(events: &[Option<Vec<u8>>]) -> Vec<Vec<u8>> {
    let mut result = Vec::new();
    let mut chunk = Vec::new();
    for event in events {
        match event {
            Some(data) => chunk.extend(data),
            None => result.push(std::mem::take(&mut chunk)),
        }
    }
    result
}

#[test]
fn events_are_data_then_end_and_carry_the_input() {
    for piece in 1..=TEXT.len() {
        let stream = Chunker::new(ZPAQ::new(3)).stream(SliceReader::in_pieces(TEXT, piece));
        let events = events(stream);
        assert_well_ordered(&events);
        let chunks = chunks_of(&events);
        assert_eq!(chunks.concat(), TEXT);
        assert!(chunks.iter().all(|c| !c.is_empty()));
    }
}

#[test]
fn a_chunk_comes_in_parts_across_the_seams() {
    let stream = Chunker::new(FixedSizeChunker::new(5)).stream(SliceReader::in_pieces(
        b"0123456789ab",
        3,
    ));
    let expected: Vec<Option<Vec<u8>>> = vec![
        Some(b"012".to_vec()),
        Some(b"34".to_vec()),
        None,
        Some(b"5".to_vec()),
        Some(b"678".to_vec()),
        Some(b"9".to_vec()),
        None,
        Some(b"ab".to_vec()),
        None,
    ];
    assert_eq!(events(stream), expected);
}

#[test]
fn the_buffer_takes_4096_bytes_at_once() {
    let data = vec![7u8; 10_000];
    let stream = Chunker::new(FixedSizeChunker::new(20_000)).stream(SliceReader::new(&data));
    let lengths: Vec<Option<usize>> =
        events(stream).iter().map(|e| e.as_ref().map(|d| d.len())).collect();
    assert_eq!(lengths, vec![Some(4096), Some(4096), Some(1808), None]);
}

#[test]
fn an_empty_input_has_no_events_and_no_chunks() {
    let empty: &[u8] = b"";
    assert!(events(Chunker::new(ZPAQ::new(3)).stream(SliceReader::new(empty))).is_empty());
    assert!(Chunker::new(ZPAQ::new(3)).all_chunks(SliceReader::new(empty)).unwrap().is_empty());
    assert!(Chunker::new(ZPAQ::new(3)).whole_chunks(SliceReader::new(empty)).next().is_none());
    assert!(Chunker::new(ZPAQ::new(3)).chunks(SliceReader::new(empty)).next().is_none());
    assert!(Chunker::new(ZPAQ::new(3)).slices(empty).next().is_none());
}

#[test]
fn an_input_that_ends_at_a_boundary_has_one_end() {
    let stream = Chunker::new(FixedSizeChunker::new(4)).stream(SliceReader::in_pieces(
        b"01234567",
        4,
    ));
    let expected: Vec<Option<Vec<u8>>> =
        vec![Some(b"0123".to_vec()), None, Some(b"4567".to_vec()), None];
    assert_eq!(events(stream), expected);
}

#[test]
fn the_adapters_yield_the_same_chunks() {
    for piece in [1, 3, 8, 33, 4096] {
        let from_stream =
            chunks_of(&events(Chunker::new(GearChunker::new(0xe000_0000)).stream(
                SliceReader::in_pieces(TEXT, piece),
            )));

        let mut whole = Vec::new();
        let mut chunks = Chunker::new(GearChunker::new(0xe000_0000))
            .whole_chunks(SliceReader::in_pieces(TEXT, piece));
        while let Some(chunk) = chunks.next() {
            whole.push(chunk.unwrap());
        }

        let all = Chunker::new(GearChunker::new(0xe000_0000))
            .all_chunks(SliceReader::in_pieces(TEXT, piece))
            .unwrap();

        let mut described = Vec::new();
        let mut infos = Chunker::new(GearChunker::new(0xe000_0000))
            .chunks(SliceReader::in_pieces(TEXT, piece));
        while let Some(info) = infos.next() {
            let info = info.unwrap();
            described.push(TEXT[info.start()..info.end()].to_vec());
        }

        let mut sliced = Vec::new();
        let mut slices = Chunker::new(GearChunker::new(0xe000_0000)).slices(TEXT);
        while let Some(slice) = slices.next() {
            sliced.push(slice.to_vec());
        }

        assert_eq!(sliced.len(), 10);
        assert_eq!(sliced[1], b" quick br");
        assert_eq!(from_stream, sliced);
        assert_eq!(whole, sliced);
        assert_eq!(all, sliced);
        assert_eq!(described, sliced);
    }
}

#[test]
fn descriptors_follow_each_other() {
    let mut infos = Chunker::new(MIIChunker::new(2)).chunks(SliceReader::in_pieces(TEXT, 7));
    let mut end = 0;
    let mut count = 0;
    while let Some(info) = infos.next() {
        let info = info.unwrap();
        assert_eq!(info.start(), end);
        assert!(info.length() >= 1);
        assert_eq!(info.end(), info.start() + info.length());
        end = info.end();
        count += 1;
    }
    assert_eq!(end, TEXT.len());
    assert_eq!(count, 14);
    // The iteration ended with the input, not because the offsets ran over.
    assert!(!infos.has_overrun());
}

#[test]
fn max_size_limits_every_chunk() {
    let expected = vec![
        (0, 7), (7, 7), (14, 7), (21, 7), (28, 2), (30, 2), (32, 7), (39, 7), (46, 7), (53, 2),
        (55, 7), (62, 6), (68, 2), (70, 5), (75, 7), (82, 7), (89, 5), (94, 6),
    ];
    for piece in [1, 2, 5, 7, 8, 100] {
        let mut result = Vec::new();
        let mut infos = Chunker::new(GearChunker::new(0xf000_0000))
            .max_size(7)
            .chunks(SliceReader::in_pieces(TEXT, piece));
        while let Some(info) = infos.next() {
            let info = info.unwrap();
            assert!(info.length() <= 7);
            result.push((info.start(), info.length()));
        }
        assert_eq!(result, expected);
    }
    let mut slices = Chunker::new(GearChunker::new(0xf000_0000)).max_size(7).slices(TEXT);
    let mut lengths = Vec::new();
    while let Some(slice) = slices.next() {
        lengths.push(slice.len());
    }
    assert_eq!(lengths, expected.iter().map(|c| c.1).collect::<Vec<usize>>());
}

#[test]
fn max_size_of_one_cuts_at_every_byte() {
    let all = Chunker::new(MIIChunker::new(3)).max_size(1).all_chunks(SliceReader::new(b"abc"));
    assert_eq!(all.unwrap(), vec![b"a".to_vec(), b"b".to_vec(), b"c".to_vec()]);
}

#[test]
fn the_tighter_of_two_limits_holds() {
    let all = Chunker::new(MIIChunker::new(3))
        .max_size(10)
        .max_size(4)
        .all_chunks(SliceReader::in_pieces(TEXT, 3))
        .unwrap();
    assert_eq!(all.len(), 25);
    assert!(all.iter().all(|c| c.len() == 4));
}

#[test]
fn max_size_holds_around_a_strategy_that_depends_on_the_seams() {
    for piece in [1, 3, 8, 4096] {
        let all = Chunker::new(TTTDChunker::new(16, 4, 4, 16))
            .max_size(9)
            .all_chunks(SliceReader::in_pieces(TEXT, piece))
            .unwrap();
        assert!(all.iter().all(|c| 1 <= c.len() && c.len() <= 9));
        assert_eq!(all.concat(), TEXT);
    }
}

/// Hands out its bytes, then fails.
struct Failing<'a> {
    data: &'a [u8],
    reads: usize,
}

impl<'a> Reader for Failing<'a> {
    type Error = String;

    fn read(&mut self, buf: &mut [u8]) -> Result<usize, String> {
        self.reads += 1;
        if self.data.is_empty() {
            return Err(format!("failed at read {}", self.reads));
        }
        let n = self.data.len().min(buf.len()).min(8);
        buf[..n].copy_from_slice(&self.data[..n]);
        self.data = &self.data[n..];
        Ok(n)
    }
}

#[test]
fn the_error_of_the_reader_is_handed_on() {
    // The text has 100 bytes: the 14th read fails.
    let mut stream = Chunker::new(ZPAQ::new(3)).stream(Failing { data: TEXT, reads: 0 });
    let mut emitted: Vec<u8> = Vec::new();
    let error = loop {
        match stream.read() {
            Some(Ok(ChunkInput::Data(d))) => emitted.extend(d),
            Some(Ok(ChunkInput::End)) => {}
            Some(Err(e)) => break e,
            None => panic!("the stream ended"),
        }
    };
    assert_eq!(error, "failed at read 14");
    assert_eq!(emitted, TEXT);
    // The stream asks the reader again.
    assert_eq!(stream.read().unwrap().err().unwrap(), "failed at read 15");

    let all = Chunker::new(ZPAQ::new(3)).all_chunks(Failing { data: TEXT, reads: 0 });
    assert_eq!(all.unwrap_err(), "failed at read 14");

    let mut infos = Chunker::new(FixedSizeChunker::new(60)).chunks(Failing { data: TEXT, reads: 0 });
    let first = infos.next().unwrap().unwrap();
    assert_eq!((first.start(), first.length()), (0, 60));
    assert_eq!(infos.next().unwrap().err().unwrap(), "failed at read 14");

    let mut whole = Chunker::new(FixedSizeChunker::new(60)).whole_chunks(Failing {
        data: TEXT,
        reads: 0,
    });
    assert_eq!(whole.next().unwrap().unwrap(), &TEXT[..60]);
    assert_eq!(whole.next().unwrap().unwrap_err(), "failed at read 14");
}

/// Reports the end of its input, and then has more.
struct Resuming {
    reads: usize,
}

impl Reader for Resuming {
    type Error = ();

    fn read(&mut self, buf: &mut [u8]) -> Result<usize, ()> {
        self.reads += 1;
        if self.reads == 2 {
            return Ok(0);
        }
        buf[..3].copy_from_slice(b"abc");
        Ok(3)
    }
}

#[test]
fn the_end_of_the_input_is_final() {
    let mut stream = Chunker::new(FixedSizeChunker::new(10)).stream(Resuming { reads: 0 });
    assert!(matches!(stream.read(), Some(Ok(ChunkInput::Data(b"abc")))));
    assert!(matches!(stream.read(), Some(Ok(ChunkInput::End))));
    assert!(stream.read().is_none());
    assert!(stream.read().is_none());
}

#[test]
fn the_slice_reader_hands_out_pieces() {
    let mut reader = SliceReader::in_pieces(b"0123456789", 4);
    let mut buf = [0u8; 6];
    assert_eq!(reader.read(&mut buf), Ok(4));
    assert_eq!(&buf, b"0123\0\0");
    assert_eq!(reader.read(&mut buf[..3]), Ok(3));
    assert_eq!(&buf, b"4563\0\0");
    assert_eq!(reader.read(&mut buf), Ok(3));
    assert_eq!(&buf, b"7893\0\0");
    assert_eq!(reader.read(&mut buf), Ok(0));
    assert_eq!(reader.read(&mut buf[..0]), Ok(0));

    let mut reader = SliceReader::new(b"0123456789");
    assert_eq!(reader.read(&mut buf), Ok(6));
    assert_eq!(&buf, b"012345");
    assert_eq!(reader.read(&mut buf), Ok(4));
    assert_eq!(&buf, b"678945");
}

/// Counts its reads and the room that it is given, for the test to see.
struct Counting<'a> {
    data: &'a [u8],
    reads: std::rc::Rc<std::cell::Cell<usize>>,
    room: std::rc::Rc<std::cell::Cell<usize>>,
}

impl<'a> Reader for Counting<'a> {
    type Error = ();

    fn read(&mut self, buf: &mut [u8]) -> Result<usize, ()> {
        self.reads.set(self.reads.get() + 1);
        self.room.set(buf.len());
        let n = self.data.len().min(buf.len()).min(10);
        buf[..n].copy_from_slice(&self.data[..n]);
        self.data = &self.data[n..];
        Ok(n)
    }
}

#[test]
fn the_reader_is_asked_when_nothing_is_pending() {
    let reads = std::rc::Rc::new(std::cell::Cell::new(0));
    let room = std::rc::Rc::new(std::cell::Cell::new(0));
    let reader = Counting { data: b"0123456789abcdefghij", reads: reads.clone(), room: room.clone() };
    let mut stream = Chunker::new(FixedSizeChunker::new(4)).stream(reader);
    assert_eq!(reads.get(), 0);
    // The first read hands out 10 bytes, which make 5 events.
    let mut seen = Vec::new();
    for _ in 0..5 {
        match stream.read().unwrap().unwrap() {
            ChunkInput::Data(d) => seen.push(d.len()),
            ChunkInput::End => seen.push(0),
        }
        assert_eq!(reads.get(), 1);
        assert_eq!(room.get(), 4096);
    }
    assert_eq!(seen, vec![4, 0, 4, 0, 2]);
    // The next event takes the second read.
    assert!(matches!(stream.read(), Some(Ok(ChunkInput::Data(b"ab")))));
    assert_eq!(reads.get(), 2);
    while stream.read().is_some() {}
    // The third read reported the end, and no read follows it.
    assert_eq!(reads.get(), 3);
    assert!(stream.read().is_none());
    assert_eq!(reads.get(), 3);
}

#[test]
fn descriptors_and_whole_chunks_agree_for_a_strategy_that_depends_on_the_seams() {
    for piece in [1, 3, 5, 8, 4096] {
        let mut whole = Vec::new();
        let mut chunks = Chunker::new(TTTDChunker::new(16, 4, 4, 16))
            .whole_chunks(SliceReader::in_pieces(TEXT, piece));
        while let Some(chunk) = chunks.next() {
            whole.push(chunk.unwrap());
        }
        let mut described = Vec::new();
        let mut infos = Chunker::new(TTTDChunker::new(16, 4, 4, 16))
            .chunks(SliceReader::in_pieces(TEXT, piece));
        while let Some(info) = infos.next() {
            let info = info.unwrap();
            described.push(TEXT[info.start()..info.end()].to_vec());
        }
        assert_eq!(described, whole, "pieces of {}", piece);
        assert_eq!(whole.concat(), TEXT);
    }
}
