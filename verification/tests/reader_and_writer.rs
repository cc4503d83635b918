use dirsync::errors::GenericError;
use dirsync::file_chunk::FileChunk;
use dirsync::file_reader::FileReader;
use dirsync::file_writer::FileWriter;
use dirsync::FILE_CHUNK_SIZE;

#[test]
fn small_file_is_a_single_chunk() {
    let mut r = FileReader::new("hello.txt".to_string(), 11);
    r.produce_chunk(b"hello world".to_vec());
    let c = r.get_chunk().expect("one chunk");
    assert_eq!(c.offset, 0);
    assert_eq!(c.size, 11);
    assert_eq!(c.data, b"hello world".to_vec());
    assert!(r.get_chunk().is_none());
    assert!(r.get_chunk().is_none());
}

#[test]
fn exact_multiple_of_the_chunk_limit() {
    let size = 2 * FILE_CHUNK_SIZE as u64;
    let mut r = FileReader::new("a.bin".to_string(), size);
    r.produce_chunk(vec![0xAA; FILE_CHUNK_SIZE]);
    r.produce_chunk(vec![0xAA; FILE_CHUNK_SIZE]);
    let first = r.get_chunk().expect("first chunk");
    assert_eq!(first.offset, 0);
    assert_eq!(first.size, FILE_CHUNK_SIZE as u64);
    let last = r.get_chunk().expect("last chunk");
    assert_eq!(last.offset, FILE_CHUNK_SIZE as u64);
    assert_eq!(last.size, FILE_CHUNK_SIZE as u64);
    assert!(r.get_chunk().is_none());
}

#[test]
fn reader_offsets_are_cumulative() {
    let mut r = FileReader::new("f".to_string(), 11);
    r.produce_chunk(vec![1, 2, 3, 4]);
    r.produce_chunk(vec![5, 6]);
    r.produce_chunk(vec![7, 8, 9, 10, 11]);
    let offsets: Vec<u64> = (0..3).map(|_| r.get_chunk().unwrap().offset).collect();
    assert_eq!(offsets, vec![0, 4, 6]);
    assert!(r.get_chunk().is_none());
}

#[test]
fn writer_releases_chunks_in_file_order() {
    let mut w = FileWriter::new(10);
    let late = FileChunk { offset: 5, size: 5, data: b"fghij".to_vec() };
    let early = FileChunk { offset: 0, size: 5, data: b"abcde".to_vec() };
    let drained = w.push_chunk(late).unwrap();
    assert!(drained.is_empty());
    assert!(!w.is_finished());
    let drained = w.push_chunk(early).unwrap();
    assert_eq!(drained.len(), 2);
    let mut bytes = Vec::new();
    for c in &drained {
        bytes.extend_from_slice(&c.data);
    }
    assert_eq!(bytes, b"abcdefghij".to_vec());
    assert!(w.is_finished());
}

#[test]
fn writer_waits_on_a_hole() {
    let mut w = FileWriter::new(6);
    let tail = FileChunk { offset: 4, size: 2, data: vec![5, 6] };
    assert!(w.push_chunk(tail).unwrap().is_empty());
    let head = FileChunk { offset: 0, size: 2, data: vec![1, 2] };
    let drained = w.push_chunk(head).unwrap();
    assert_eq!(drained.len(), 1);
    assert!(!w.is_finished());
    let middle = FileChunk { offset: 2, size: 2, data: vec![3, 4] };
    let drained = w.push_chunk(middle).unwrap();
    assert_eq!(drained.len(), 2);
    assert!(w.is_finished());
}

#[test]
fn duplicate_offset_is_a_state_error() {
    let mut w = FileWriter::new(8);
    let a = FileChunk { offset: 4, size: 2, data: vec![1, 2] };
    let b = FileChunk { offset: 4, size: 2, data: vec![3, 4] };
    assert!(w.push_chunk(a).is_ok());
    assert!(matches!(w.push_chunk(b), Err(GenericError::StateError(_))));
}

#[test]
fn rewritten_prefix_is_a_state_error() {
    let mut w = FileWriter::new(4);
    let a = FileChunk { offset: 0, size: 2, data: vec![1, 2] };
    assert_eq!(w.push_chunk(a).unwrap().len(), 1);
    let again = FileChunk { offset: 0, size: 2, data: vec![9, 9] };
    assert!(matches!(w.push_chunk(again), Err(GenericError::StateError(_))));
}

#[test]
fn zero_size_chunk_is_a_framing_error() {
    let mut w = FileWriter::new(4);
    let z = FileChunk { offset: 1, size: 0, data: vec![] };
    assert!(matches!(w.push_chunk(z), Err(GenericError::FramingError(_))));
}

#[test]
fn chunk_past_the_end_is_a_state_error() {
    let mut w = FileWriter::new(4);
    let c = FileChunk { offset: 2, size: 3, data: vec![1, 2, 3] };
    assert!(matches!(w.push_chunk(c), Err(GenericError::StateError(_))));
}

#[test]
fn failed_push_leaves_the_writer_usable() {
    let mut w = FileWriter::new(4);
    let bad = FileChunk { offset: 9, size: 1, data: vec![0] };
    assert!(w.push_chunk(bad).is_err());
    let good = FileChunk { offset: 0, size: 4, data: vec![1, 2, 3, 4] };
    assert_eq!(w.push_chunk(good).unwrap().len(), 1);
    assert!(w.is_finished());
}

#[test]
fn large_file_fans_out_into_several_chunks_and_reassembles() {
    let size = 12 * 1024 * 1024u64;
    let mut reader = FileReader::new("a.bin".to_string(), size);
    reader.produce_chunk(vec![0xAA; FILE_CHUNK_SIZE]);
    reader.produce_chunk(vec![0xAA; (size as usize) - FILE_CHUNK_SIZE]);
    let first = reader.get_chunk().unwrap();
    let second = reader.get_chunk().unwrap();
    assert!(reader.get_chunk().is_none());
    assert_eq!(first.size + second.size, size);
    let mut writer = FileWriter::new(size);
    let mut rebuilt: Vec<u8> = Vec::new();
    for chunk in [second, first] {
        for c in writer.push_chunk(chunk).unwrap() {
            rebuilt.extend_from_slice(&c.data);
        }
    }
    assert!(writer.is_finished());
    assert_eq!(rebuilt.len() as u64, size);
    assert!(rebuilt.iter().all(|b| *b == 0xAA));
}

#[test]
fn frame_split_into_bursts_decodes_once_assembled() {
    let c = FileChunk { offset: 0, size: 11, data: b"hello world".to_vec() };
    let wire = c.to_bytes();
    let bursts = [&wire[..8], &wire[8..12], &wire[12..16], &wire[16..20], &wire[20..]];
    let mut assembled: Vec<u8> = Vec::new();
    for b in bursts {
        assembled.extend_from_slice(b);
    }
    let (offset, size) = dirsync::file_chunk::decode_chunk_header(&assembled[..16]).unwrap();
    assert_eq!((offset, size), (0, 11));
    let back = FileChunk::from_bytes(&assembled);
    assert_eq!(back.data, b"hello world".to_vec());
}

#[test]
fn sender_to_receiver_pipeline_rebuilds_the_bytes() {
    let source = b"hello world".to_vec();
    let mut reader = FileReader::new("hello.txt".to_string(), source.len() as u64);
    reader.produce_chunk(source.clone());
    let mut wire: Vec<u8> = Vec::new();
    while let Some(chunk) = reader.get_chunk() {
        wire.extend_from_slice(&chunk.to_bytes());
    }
    let mut writer = FileWriter::new(source.len() as u64);
    let mut rebuilt: Vec<u8> = Vec::new();
    let mut at = 0;
    while at < wire.len() {
        let header = &wire[at..at + 16];
        let (_, size) = dirsync::file_chunk::decode_chunk_header(header).unwrap();
        let frame = &wire[at..at + 16 + size as usize];
        at += 16 + size as usize;
        let chunk = FileChunk::from_bytes(frame);
        for c in writer.push_chunk(chunk).unwrap() {
            rebuilt.extend_from_slice(&c.data);
        }
    }
    assert!(writer.is_finished());
    assert_eq!(rebuilt, source);
}
