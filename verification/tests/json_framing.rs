use dirsync::json_frame::{FrameResult, JsonFramer};

#[test]
fn empty_buffer_needs_more() {
    let mut f = JsonFramer::new();
    assert!(matches!(f.take_frame(), FrameResult::NeedMore));
}

#[test]
fn one_object_in_one_push() {
    let mut f = JsonFramer::new();
    f.push_bytes(b"{\"message_type\":\"GetFileList\"}");
    match f.take_frame() {
        FrameResult::Frame(frame) => {
            assert_eq!(frame, b"{\"message_type\":\"GetFileList\"}".to_vec());
            let v: serde_json::Value = serde_json::from_slice(&frame).unwrap();
            assert_eq!(v["message_type"], "GetFileList");
        }
        _ => panic!("expected a frame"),
    }
    assert!(matches!(f.take_frame(), FrameResult::NeedMore));
}

#[test]
fn object_split_into_single_bytes() {
    let text = b"{\"id\":37}";
    let mut f = JsonFramer::new();
    for i in 0..text.len() - 1 {
        f.push_bytes(&text[i..i + 1]);
        assert!(matches!(f.take_frame(), FrameResult::NeedMore));
    }
    f.push_bytes(&text[text.len() - 1..]);
    match f.take_frame() {
        FrameResult::Frame(frame) => assert_eq!(frame, text.to_vec()),
        _ => panic!("expected a frame"),
    }
}

#[test]
fn three_objects_concatenated_come_back_in_order() {
    let a = b"{\"id\":0}".to_vec();
    let b = b"{\"files\":[]}".to_vec();
    let c = b"{\"payload\":\"NewConnection\"}".to_vec();
    let mut all = Vec::new();
    all.extend_from_slice(&a);
    all.extend_from_slice(&b);
    all.extend_from_slice(&c);
    let mut f = JsonFramer::new();
    f.push_bytes(&all);
    for expected in [a, b, c] {
        match f.take_frame() {
            FrameResult::Frame(frame) => assert_eq!(frame, expected),
            _ => panic!("expected a frame"),
        }
    }
    assert!(matches!(f.take_frame(), FrameResult::NeedMore));
}

#[test]
fn nested_braces_stay_in_one_frame() {
    let text = b"{\"a\":{\"b\":{\"c\":1}},\"d\":2}";
    let mut f = JsonFramer::new();
    f.push_bytes(text);
    match f.take_frame() {
        FrameResult::Frame(frame) => assert_eq!(frame, text.to_vec()),
        _ => panic!("expected a frame"),
    }
}

#[test]
fn leading_close_brace_is_malformed() {
    let mut f = JsonFramer::new();
    f.push_bytes(b"}{}");
    assert!(matches!(f.take_frame(), FrameResult::Malformed));
}

#[test]
fn leading_junk_byte_is_carved_alone() {
    let mut f = JsonFramer::new();
    f.push_bytes(b"x{}");
    match f.take_frame() {
        FrameResult::Frame(frame) => assert_eq!(frame, b"x".to_vec()),
        _ => panic!("expected a frame"),
    }
    match f.take_frame() {
        FrameResult::Frame(frame) => assert_eq!(frame, b"{}".to_vec()),
        _ => panic!("expected a frame"),
    }
}

#[test]
fn residue_between_pushes_is_kept() {
    let mut f = JsonFramer::new();
    f.push_bytes(b"{\"id\":1}{\"id");
    match f.take_frame() {
        FrameResult::Frame(frame) => assert_eq!(frame, b"{\"id\":1}".to_vec()),
        _ => panic!("expected a frame"),
    }
    assert!(matches!(f.take_frame(), FrameResult::NeedMore));
    f.push_bytes(b"\":2}");
    match f.take_frame() {
        FrameResult::Frame(frame) => assert_eq!(frame, b"{\"id\":2}".to_vec()),
        _ => panic!("expected a frame"),
    }
}
