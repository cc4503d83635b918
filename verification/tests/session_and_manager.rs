use dirsync::errors::GenericError;
use dirsync::file_reader_manager::{FileReaderManager, ReaderResult, ReaderState};
use dirsync::messages::{DSMessage, DSMessageType, DownloadFile, FileStreamMessage, LoggerMessage, MessageFiles};
use dirsync::paths::FileEntry;
use dirsync::session::{FileStreamState, SessionState, FAN_OUT, FILE_PARALLELISM};

fn entry(components: &[&str], size: u64) -> FileEntry {
    FileEntry {
        partial_path: components.iter().map(|c| c.to_string()).collect(),
        size,
    }
}

#[test]
fn tuning_constants() {
    assert_eq!(FILE_PARALLELISM, 4);
    assert_eq!(FAN_OUT, 2);
}

#[test]
fn control_messages_carry_their_fields() {
    let m = DSMessage { message_type: DSMessageType::GetFileList };
    assert!(matches!(m.message_type, DSMessageType::GetFileList));
    let d = DownloadFile { id: 7 };
    assert_eq!(d.id, 7);
    let list = MessageFiles { files: vec![entry(&["hello.txt"], 11)] };
    assert_eq!(list.files[0].size, 11);
    assert_eq!(FileStreamMessage::Start(3), FileStreamMessage::Start(3));
    assert_ne!(FileStreamMessage::Start(3), FileStreamMessage::Finish(3));
    let ev = LoggerMessage::AddData { id: 1, data: 5 };
    assert!(matches!(ev, LoggerMessage::AddData { id: 1, data: 5 }));
}

#[test]
fn empty_file_list_is_done_at_once() {
    let s = SessionState::new(&Vec::new());
    assert!(s.done());
}

#[test]
fn zero_size_file_is_finished_at_list_time() {
    let files = vec![entry(&["empty"], 0), entry(&["data"], 5)];
    let mut s = SessionState::new(&files);
    assert_eq!(s.stream_state(0), FileStreamState::Finished);
    assert_eq!(s.stream_state(1), FileStreamState::NotStarted);
    assert!(!s.done());
    assert!(s.on_start(1).is_ok());
    assert_eq!(s.stream_state(1), FileStreamState::Working(1));
    assert_eq!(s.on_finish(1).unwrap(), true);
    assert_eq!(s.stream_state(1), FileStreamState::Finished);
    assert!(s.done());
}

#[test]
fn single_file_with_two_sub_streams() {
    let files = vec![entry(&["hello.txt"], 11)];
    let mut s = SessionState::new(&files);
    assert!(s.on_start(0).is_ok());
    assert!(s.on_start(0).is_ok());
    assert_eq!(s.stream_state(0), FileStreamState::Working(2));
    assert_eq!(s.on_finish(0).unwrap(), false);
    assert_eq!(s.on_finish(0).unwrap(), true);
    assert!(s.done());
}

#[test]
fn completion_is_reported_only_once() {
    let files = vec![entry(&["f"], 1)];
    let mut s = SessionState::new(&files);
    s.on_start(0).unwrap();
    assert_eq!(s.on_finish(0).unwrap(), true);
    assert_eq!(s.on_finish(0).unwrap(), false);
    assert_eq!(s.on_finish(0).unwrap(), false);
    assert!(s.on_start(0).is_ok());
    assert_eq!(s.stream_state(0), FileStreamState::Finished);
}

#[test]
fn two_files_finish_independently() {
    let files = vec![entry(&["a.bin"], 100), entry(&["b.bin"], 50)];
    let mut s = SessionState::new(&files);
    for id in 0..2u32 {
        s.on_start(id).unwrap();
        s.on_start(id).unwrap();
    }
    assert_eq!(s.on_finish(0).unwrap(), false);
    assert_eq!(s.on_finish(1).unwrap(), false);
    assert!(!s.done());
    assert_eq!(s.on_finish(1).unwrap(), true);
    assert!(!s.done());
    assert_eq!(s.on_finish(0).unwrap(), true);
    assert!(s.done());
}

#[test]
fn at_most_four_files_in_flight() {
    let files: Vec<FileEntry> = (0..5).map(|i| entry(&[&format!("f{}", i)], 10)).collect();
    let mut s = SessionState::new(&files);
    for id in 0..4u32 {
        assert!(s.on_start(id).is_ok());
    }
    assert!(matches!(s.on_start(4), Err(GenericError::StateError(_))));
    assert_eq!(s.on_finish(0).unwrap(), true);
    assert!(s.on_start(4).is_ok());
    assert_eq!(s.stream_state(4), FileStreamState::Working(1));
}

#[test]
fn finish_before_start_is_a_state_error() {
    let files = vec![entry(&["f"], 1)];
    let mut s = SessionState::new(&files);
    assert!(matches!(s.on_finish(0), Err(GenericError::StateError(_))));
    assert_eq!(s.stream_state(0), FileStreamState::NotStarted);
}

#[test]
fn manager_hands_out_each_reader_once_as_first() {
    let files = vec![entry(&["sub", "x.txt"], 3)];
    let mut m = FileReaderManager::new(files);
    assert_eq!(m.get_reader(0), ReaderResult::FirstInstance);
    assert_eq!(m.get_reader(0), ReaderResult::Instance);
    match &m.states[0] {
        ReaderState::Reader(r) => {
            assert_eq!(r.name, "sub/x.txt");
            assert_eq!(r.size, 3);
        }
        _ => panic!("expected a live reader"),
    }
    m.produce_chunk(0, vec![1, 2, 3]);
    let c = m.get_chunk(0).expect("one chunk");
    assert_eq!(c.offset, 0);
    assert_eq!(c.data, vec![1, 2, 3]);
    assert!(m.get_chunk(0).is_none());
    m.reader_finished(0);
    assert_eq!(m.get_reader(0), ReaderResult::NoReader);
}

#[test]
fn manager_keeps_one_state_per_file() {
    let files = vec![entry(&["a"], 1), entry(&["b"], 0), entry(&["c"], 2)];
    let mut m = FileReaderManager::new(files);
    assert_eq!(m.get_reader(2), ReaderResult::FirstInstance);
    assert!(matches!(m.states[0], ReaderState::Def(_)));
    assert!(matches!(m.states[1], ReaderState::Def(_)));
    assert!(matches!(m.states[2], ReaderState::Reader(_)));
}
