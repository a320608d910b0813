use std::str::from_utf8;

use cdchunking::{ChunkInput, Chunker, Reader, SliceReader, ZPAQ};
use rand::Rng;

fn base() -> (Chunker<ZPAQ>, &'static [u8], SliceReader<'static>, &'static [u8]) {
    let rollinghash = ZPAQ::new(3); // 8-byte chunk average
    let chunker = Chunker::new(rollinghash);
    let data = b"defghijklmnopqrstuvwxyz1234567890";
    let expected = b"de|fghijklmnopqr|stuvwxyz12345|67890|";
    // Pieces of 8 bytes, so that chunks run across the seams between reads.
    (chunker, data, SliceReader::in_pieces(data, 8), expected)
}

#[test]
fn test_whole_chunks() {
    let (chunker, _, reader, expected) = base();
    let mut result = Vec::new();

    // Read whole chunks accumulated in vectors
    let mut chunks = chunker.whole_chunks(reader);
    while let Some(chunk) = chunks.next() {
        let chunk = chunk.unwrap();
        result.extend(chunk);
        result.push(b'|');
    }
    assert_eq!(from_utf8(&result).unwrap(), from_utf8(expected).unwrap());
}

#[test]
fn test_all_chunks() {
    let (chunker, _, reader, expected) = base();
    let mut result = Vec::new();

    // Read all the chunks at once
    let chunks: Vec<Vec<u8>> = chunker.all_chunks(reader).unwrap();
    for chunk in chunks {
        result.extend(chunk);
        result.push(b'|');
    }
    assert_eq!(from_utf8(&result).unwrap(), from_utf8(expected).unwrap());
}

#[test]
fn test_stream() {
    let (chunker, _, reader, expected) = base();
    let mut result = Vec::new();

    // Zero-allocation by using a fixed-size internal buffer
    let mut chunk_iter = chunker.stream(reader);
    while let Some(chunk) = chunk_iter.read() {
        let chunk = chunk.unwrap();
        match chunk {
            ChunkInput::Data(d) => {
                result.extend(d);
            }
            ChunkInput::End => result.push(b'|'),
        }
    }
    assert_eq!(from_utf8(&result).unwrap(), from_utf8(expected).unwrap());
}

#[test]
fn test_slices() {
    let (chunker, data, _, expected) = base();
    let mut result = Vec::new();

    // Get slices from an in-memory buffer holding the whole input
    let mut slices = chunker.slices(data);
    while let Some(slice) = slices.next() {
        result.extend(slice);
        result.push(b'|');
    }
    assert_eq!(from_utf8(&result).unwrap(), from_utf8(expected).unwrap());
}

#[test]
fn test_chunks() {
    let (chunker, _, reader, _) = base();
    let mut result = Vec::new();

    // Get chunk positions
    let mut chunks = chunker.chunks(reader);
    while let Some(chunk_info) = chunks.next() {
        let chunk_info = chunk_info.unwrap();
        result.push((chunk_info.start(), chunk_info.length()));
    }
    assert_eq!(result, vec![(0, 2), (2, 13), (15, 13), (28, 5),]);
}

#[test]
fn test_max_size() {
    let (chunker, _, reader, _) = base();
    let mut result = Vec::new();

    // Get chunk positions
    let mut chunks = chunker.max_size(5).chunks(reader);
    while let Some(chunk_info) = chunks.next() {
        let chunk_info = chunk_info.unwrap();
        result.push((chunk_info.start(), chunk_info.length()));
    }
    // Some boundaries of the unlimited run are not here (11, 23, 29): the
    // ZPAQ state is reset when the maximum length is hit.
    assert_eq!(
        result,
        vec![(0, 2), (2, 5), (7, 5), (12, 2), (14, 5), (19, 5), (24, 5), (29, 4),]
    );
}

struct RngFile<R: Rng>(R);

impl<R: Rng> Reader for RngFile<R> {
    type Error = ();

    fn read(&mut self, buf: &mut [u8]) -> Result<usize, ()> {
        self.0.fill_bytes(buf);
        Ok(buf.len())
    }
}

#[test]
fn test_random() {
    let mut count = 0;
    let chunker = Chunker::new(ZPAQ::new(8));

    let random = RngFile(rand::thread_rng());

    let mut total_len = 0;

    let mut chunks = chunker.whole_chunks(random);
    while let Some(chunk) = chunks.next() {
        total_len += chunk.unwrap().len();
        count += 1;
        if count >= 4096 {
            break;
        }
    }

    assert!(240 * count <= total_len && total_len <= 270 * count);
}
