use rendezvous::addressing::{split_addressed, trim};
use rendezvous::framing::{encode_line, line_or_blank};
use rendezvous::messages::ConnectedPeer;

#[test]
fn lines_end_with_a_newline() {
    assert_eq!(encode_line("{\"a\":1}"), b"{\"a\":1}\n".to_vec());
    assert_eq!(encode_line(""), b"\n".to_vec());
    assert_eq!(encode_line("é"), vec![0xc3, 0xa9, 10]);
    assert_eq!(line_or_blank::<()>(Ok("abc".to_string())), b"abc\n".to_vec());
    assert_eq!(line_or_blank::<String>(Err("failed".to_string())), b"\n".to_vec());
}

#[test]
fn addressed_lines() {
    let (names, msg) = split_addressed(" alice , bob,carol : hello there ").unwrap();
    assert_eq!(names, vec!["alice".to_string(), "bob".to_string(), "carol".to_string()]);
    assert_eq!(msg, "hello there");
    let (names, msg) = split_addressed("a,,b:x:y").unwrap();
    assert_eq!(names, vec!["a".to_string(), "".to_string(), "b".to_string()]);
    assert_eq!(msg, "x:y");
    let (names, msg) = split_addressed(":").unwrap();
    assert_eq!(names, vec!["".to_string()]);
    assert_eq!(msg, "");
    assert!(split_addressed("no colon here").is_none());
}

#[test]
fn trimming_matches_std() {
    for t in ["  a b  ", "\t\n x\u{3000}", "", "   ", "\u{85}y\u{a0}", "plain"] {
        assert_eq!(trim(t), t.trim());
    }
}

#[test]
fn duplicate_keeps_contents() {
    let p = ConnectedPeer::new("id".to_string(), "addr".to_string(), 5);
    assert_eq!(p.duplicate(), p);
}

#[test]
fn framed_line_decodes_back() {
    for text in ["{\"ClientLeft\":{\"id\":\"1\",\"client_id\":\"ä\"}}", "", "日本"] {
        let line = encode_line(text);
        assert_eq!(*line.last().unwrap(), 10u8);
        assert_eq!(String::from_utf8(line[..line.len() - 1].to_vec()).unwrap(), text);
    }
}
