use mail_parser::id::parse_id;
use mail_parser::stream::MessageStream;

#[test]
fn parse_message_ids() {
    let inputs = [
        (
            "<1234@local.machine.example>\n",
            vec!["1234@local.machine.example"],
        ),
        (
            "<1234@local.machine.example> <3456@example.net>\n",
            vec!["1234@local.machine.example", "3456@example.net"],
        ),
        (
            "<1234@local.machine.example>\n <3456@example.net> \n",
            vec!["1234@local.machine.example", "3456@example.net"],
        ),
        (
            "<1234@local.machine.example>\n\n <3456@example.net>\n",
            vec!["1234@local.machine.example"],
        ),
        (
            "              <testabcd.1234@silly.test>  \n",
            vec!["testabcd.1234@silly.test"],
        ),
        (
            "<5678.21-Nov-1997@example.com>\n",
            vec!["5678.21-Nov-1997@example.com"],
        ),
        (
            "<1234   @   local(blah)  .machine .example>\n",
            vec!["1234   @   local(blah)  .machine .example"],
        ),
    ];

    for input in inputs {
        let str = input.0.to_string();
        assert_eq!(
            input.1,
            parse_id(&mut MessageStream::new(str.as_bytes())).unwrap(),
            "Failed to parse '{:?}'",
            input.0
        );
    }
}

#[test]
fn no_identifier_is_absent() {
    let mut s = MessageStream::new(b"no identifiers here\nNext: x\n");
    assert_eq!(parse_id(&mut s), None);
    assert_eq!(s.pos, 20);
}

#[test]
fn empty_brackets_are_skipped() {
    let mut s = MessageStream::new(b"<> <a@b>\n");
    assert_eq!(parse_id(&mut s), Some(vec!["a@b".to_string()]));
    let mut s = MessageStream::new(b"<>\n");
    assert_eq!(parse_id(&mut s), None);
    assert_eq!(s.pos, 3);
}

#[test]
fn end_of_buffer_ends_field() {
    let mut s = MessageStream::new(b"<a@b.example>");
    assert_eq!(parse_id(&mut s), Some(vec!["a@b.example".to_string()]));
    assert_eq!(s.pos, 13);
    let mut s = MessageStream::new(b"<a>");
    assert_eq!(parse_id(&mut s), Some(vec!["a".to_string()]));
    assert_eq!(s.pos, 3);
    let mut s = MessageStream::new(b"  <>  ");
    assert_eq!(parse_id(&mut s), None);
    assert_eq!(s.pos, 6);
}

#[test]
fn latest_open_bracket_starts_identifier() {
    let mut s = MessageStream::new(b"<a<b@c>\n");
    assert_eq!(parse_id(&mut s), Some(vec!["b@c".to_string()]));
    assert_eq!(s.pos, 8);
}

#[test]
fn blank_line_same_as_single_line_end() {
    let mut a = MessageStream::new(b"<x@y> <z@w>\n\n<q@r>\n");
    let mut b = MessageStream::new(b"<x@y> <z@w>\n");
    let ra = parse_id(&mut a);
    assert_eq!(ra, parse_id(&mut b));
    assert_eq!(ra, Some(vec!["x@y".to_string(), "z@w".to_string()]));
    assert_eq!(a.pos, 12);
    assert_eq!(b.pos, 12);
}

#[test]
fn fold_with_tab_continues() {
    let mut s = MessageStream::new(b"<a@b>\n\t<c@d>\nTo: x\n");
    assert_eq!(
        parse_id(&mut s),
        Some(vec!["a@b".to_string(), "c@d".to_string()])
    );
    assert_eq!(s.pos, 13);
    assert_eq!(s.remaining(), b"To: x\n");
}

#[test]
fn fold_inside_identifier_is_kept() {
    let mut s = MessageStream::new(b"<a\n b>\n");
    assert_eq!(parse_id(&mut s), Some(vec!["a\n b".to_string()]));
}

#[test]
fn blank_line_ends_field() {
    let mut s = MessageStream::new(b"<a@b>\n\n <c@d>\n");
    assert_eq!(parse_id(&mut s), Some(vec!["a@b".to_string()]));
    assert_eq!(s.pos, 6);
}

#[test]
fn scan_starts_at_position() {
    let mut s = MessageStream::new(b"<x@y>\n<a@b>\n");
    s.pos = 6;
    assert_eq!(parse_id(&mut s), Some(vec!["a@b".to_string()]));
    assert_eq!(s.pos, 12);
}

#[test]
fn invalid_utf8_is_repaired() {
    let mut s = MessageStream::new(b"<a\xffb>\n");
    assert_eq!(parse_id(&mut s), Some(vec!["a\u{FFFD}b".to_string()]));
}

#[test]
fn carriage_return_is_ignored() {
    let mut s = MessageStream::new(b"<a@b>\r\n");
    assert_eq!(parse_id(&mut s), Some(vec!["a@b".to_string()]));
}
