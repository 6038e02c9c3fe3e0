use mail_parser::mbox::{take_line, MBoxParser};

#[test]
fn parse_mbox() {
    let message = br#"From Mon, 15 Jan 2018 15:30:00 +0100
Message 1

From Mon, 15 Jan 2018 15:30:00 +0100
Message 2

From Mon, 15 Jan 2018 15:30:00 +0100
Message 3
>From hello
>>From world
>>>From test

From Mon, 15 Jan 2018 15:30:00 +0100
Message 4
> From
>F
"#;

    let mut parser = MBoxParser::new(&message[..]);

    assert_eq!(parser.next().unwrap(), b"Message 1\n\n");
    assert_eq!(parser.next().unwrap(), b"Message 2\n\n");
    assert_eq!(
        parser.next().unwrap(),
        b"Message 3\nFrom hello\n>From world\n>>From test\n\n"
    );
    assert_eq!(parser.next().unwrap(), b"Message 4\n> From\n>F\n");
    assert!(parser.next().is_none());
}

#[test]
fn quoting_levels() {
    let mut parser =
        MBoxParser::new(b"From a\n>From x\n>>From x\n>Foo\n>>Fro\nFrom x\n");
    assert_eq!(
        parser.next().unwrap(),
        b"From x\n>From x\n>Foo\n>>Fro\n"
    );
    assert!(parser.next().is_none());
}

#[test]
fn preamble_is_dropped() {
    let mut parser = MBoxParser::new(b"junk\nmore\nFrom a\nbody\n");
    assert_eq!(parser.next().unwrap(), b"body\n");
    assert!(parser.is_exhausted());
}

#[test]
fn no_envelope_no_message() {
    let mut parser = MBoxParser::new(b"just text\n");
    assert!(parser.next().is_none());
    let mut parser = MBoxParser::new(b"");
    assert!(parser.is_exhausted());
    assert!(parser.next().is_none());
}

#[test]
fn trailing_message_once_then_none() {
    let mut parser = MBoxParser::new(b"From a\nfirst\nFrom b\nlast line without break");
    assert_eq!(parser.next().unwrap(), b"first\n");
    assert!(!parser.is_exhausted());
    assert_eq!(parser.next().unwrap(), b"last line without break");
    assert!(parser.is_exhausted());
    assert!(parser.next().is_none());
    assert!(parser.next().is_none());
    assert!(parser.is_exhausted());
}

#[test]
fn empty_message_is_passed_over() {
    let mut parser = MBoxParser::new(b"From a\nFrom b\nbody\n");
    assert_eq!(parser.next().unwrap(), b"body\n");
    assert!(parser.is_exhausted());
    assert!(parser.next().is_none());
    let mut parser = MBoxParser::new(b"From a\nX\nFrom b\nFrom c\nY\n");
    assert_eq!(parser.next().unwrap(), b"X\n");
    assert_eq!(parser.next().unwrap(), b"Y\n");
    assert!(parser.next().is_none());
}

#[test]
fn round_trip_three_messages() {
    let bodies: [&[u8]; 3] = [b"one\nFrom here\n", b"two\n>From there\n", b"three\nFrom the end"];
    let mut mailbox = Vec::new();
    for body in bodies.iter() {
        mailbox.extend_from_slice(b"From someone Mon Jan 15 2018\n");
        for line in body.split_inclusive(|&b| b == b'\n') {
            let rest = line.iter().skip_while(|&&b| b == b'>').copied().collect::<Vec<u8>>();
            if rest.starts_with(b"From ") {
                mailbox.push(b'>');
            }
            mailbox.extend_from_slice(line);
        }
    }
    let mut parser = MBoxParser::new(&mailbox);
    for body in bodies.iter() {
        assert_eq!(parser.next().unwrap(), *body);
    }
    assert!(parser.next().is_none());
}

#[test]
fn take_line_steps() {
    let mut found = false;
    let mut message = Vec::new();
    assert!(!take_line(&mut found, b"preamble\n", &mut message));
    assert!(!found);
    assert!(!take_line(&mut found, b"From x\n", &mut message));
    assert!(found);
    assert!(message.is_empty());
    assert!(!take_line(&mut found, b">>From y\n", &mut message));
    assert_eq!(message, b">From y\n");
    assert!(!take_line(&mut found, b">Foo\n", &mut message));
    assert_eq!(message, b">From y\n>Foo\n");
    assert!(take_line(&mut found, b"From z\n", &mut message));
    assert_eq!(message, b">From y\n>Foo\n");
}
