use tsfrv::telnet::ansi::strip_ansi;
use tsfrv::telnet::processor::{normalize_crlf, sanitize_output, TelnetProcessor};
use tsfrv::telnet::protocol::{
    find_subnegotiation_end, handle_subnegotiation, respond_to_command, CHARSET, DO, DONT, IAC, SB,
    SE, WILL, WONT,
};

#[test]
fn strips_bom_and_ansi_reset() {
    let mut processor = TelnetProcessor::new();
    let mut output = b"\xEF\xBB\xBF\x1B[0mhello".to_vec();
    sanitize_output(&mut processor, &mut output);
    assert_eq!(output, b"hello");
}

#[test]
fn strips_csi_color_sequence() {
    let mut processor = TelnetProcessor::new();
    let mut output = b"\x1B[31mred\x1B[0m".to_vec();
    sanitize_output(&mut processor, &mut output);
    assert_eq!(output, b"red");
}

#[test]
fn strips_ansi_across_chunk_boundary() {
    let mut pending = false;
    let first = strip_ansi(b"\x1B", &mut pending);
    assert!(pending);
    assert!(first.is_empty());

    let second = strip_ansi(b"[0mhi", &mut pending);
    assert!(!pending);
    assert_eq!(second, b"hi");
}

#[test]
fn finds_subnegotiation_frame() {
    let frame = [IAC, SB, CHARSET, 1, IAC, SE];
    assert_eq!(find_subnegotiation_end(&frame), Some(6));
}

#[test]
fn normalizes_crlf_line_endings() {
    assert_eq!(normalize_crlf(b"a\r\nb\r\nc"), b"a\nb\nc");
    assert_eq!(normalize_crlf(b"\n\r\n"), b"\n\n");
    assert_eq!(normalize_crlf(b"lone\r"), b"lone");
}

#[test]
fn carriage_returns_leave_once_and_for_all() {
    let once = normalize_crlf(b"\ra\r\rb\r\n");
    assert_eq!(once, b"ab\n");
    assert_eq!(normalize_crlf(&once), once);
    let mut joined = normalize_crlf(b"x\r");
    joined.extend(normalize_crlf(b"\ny"));
    assert_eq!(joined, normalize_crlf(b"x\r\ny"));
}

#[test]
fn an_operating_system_command_ends_with_a_bell_or_before_an_escape() {
    let mut pending = false;
    assert_eq!(strip_ansi(b"a\x1B]0;title\x07b", &mut pending), b"ab");
    assert_eq!(strip_ansi(b"a\x1B]0;title\x1B[0mb", &mut pending), b"ab");
    assert_eq!(strip_ansi(b"a\x1B]0;title", &mut pending), b"a");
    assert!(!pending);
}

#[test]
fn an_escape_before_another_byte_is_kept() {
    let mut pending = false;
    assert_eq!(strip_ansi(b"\x1BZ", &mut pending), b"\x1BZ");
    assert_eq!(strip_ansi(b"\x1B\x1B[1mx", &mut pending), b"\x1Bx");
    assert!(!pending);
}

#[test]
fn a_held_back_escape_is_released_by_anything_but_a_bracket() {
    let mut pending = true;
    assert_eq!(strip_ansi(b"Z", &mut pending), b"\x1BZ");
    assert!(!pending);

    pending = true;
    assert_eq!(strip_ansi(b"", &mut pending), b"\x1B");
    assert!(!pending);

    pending = true;
    assert_eq!(strip_ansi(b"]0;t\x07", &mut pending), b"\x1B]0;t\x07");
    assert!(!pending);

    pending = true;
    assert_eq!(strip_ansi(b"[1;2", &mut pending), b"");
    assert!(!pending);
}

#[test]
fn a_control_sequence_that_is_cut_off_is_not_resumed() {
    let mut pending = false;
    assert_eq!(strip_ansi(b"\x1B[3", &mut pending), b"");
    assert!(!pending);
    assert_eq!(strip_ansi(b"1mred", &mut pending), b"1mred");
}

#[test]
fn chunks_outside_control_sequences_join() {
    let whole = strip_ansi(b"ab\x1B[1mcd\x1B[0m", &mut false);
    let mut pending = false;
    let mut joined = strip_ansi(b"ab\x1B", &mut pending);
    joined.extend(strip_ansi(b"[1mc", &mut pending));
    joined.extend(strip_ansi(b"d\x1B[0m", &mut pending));
    assert_eq!(joined, whole);
    assert_eq!(whole, b"abcd");
}

#[test]
fn plain_text_is_kept() {
    let mut pending = false;
    assert_eq!(strip_ansi(b"plain [text] m", &mut pending), b"plain [text] m");
}

#[test]
fn a_byte_order_mark_is_stripped_at_the_start_only() {
    let mut processor = TelnetProcessor::new();
    let mut output = Vec::new();
    sanitize_output(&mut processor, &mut output);
    assert!(output.is_empty());
    output = b"\xEF\xBB\xBFa".to_vec();
    sanitize_output(&mut processor, &mut output);
    assert_eq!(output, b"a");
    output = b"\xEF\xBB\xBFb".to_vec();
    sanitize_output(&mut processor, &mut output);
    assert_eq!(output, b"\xEF\xBB\xBFb");
}

#[test]
fn a_split_byte_order_mark_is_kept() {
    let mut processor = TelnetProcessor::new();
    let mut output = b"\xEF".to_vec();
    sanitize_output(&mut processor, &mut output);
    assert_eq!(output, b"\xEF");
    output = b"\xBB\xBFa".to_vec();
    sanitize_output(&mut processor, &mut output);
    assert_eq!(output, b"\xBB\xBFa");
}

#[test]
fn a_subnegotiation_needs_its_start_and_its_end() {
    assert_eq!(find_subnegotiation_end(&[]), None);
    assert_eq!(find_subnegotiation_end(&[IAC]), None);
    assert_eq!(find_subnegotiation_end(&[IAC, SB]), None);
    assert_eq!(find_subnegotiation_end(&[IAC, SB, IAC]), None);
    assert_eq!(find_subnegotiation_end(&[IAC, SB, IAC, SE]), Some(4));
    assert_eq!(find_subnegotiation_end(&[IAC, DO, IAC, SE]), None);
    assert_eq!(find_subnegotiation_end(&[IAC, SB, 1, IAC, SE, IAC, SE]), Some(5));
}

#[test]
fn a_charset_request_is_answered_with_utf8() {
    let answer = vec![IAC, SB, CHARSET, 2, 1, b'U', b'T', b'F', b'-', b'8', IAC, SE];
    assert_eq!(handle_subnegotiation(&[IAC, SB, CHARSET, 1, IAC, SE]), Some(answer.clone()));
    assert_eq!(handle_subnegotiation(&[IAC, SB, CHARSET, 3, IAC, SE]), Some(answer));
    assert_eq!(handle_subnegotiation(&[IAC, SB, CHARSET, 2, IAC, SE]), None);
    assert_eq!(handle_subnegotiation(&[IAC, SB, 24, 1, IAC, SE]), None);
    assert_eq!(handle_subnegotiation(&[IAC, SB, CHARSET, 1]), None);
    assert_eq!(handle_subnegotiation(&[IAC, SB, IAC, SE]), None);
}

#[test]
fn options_other_than_charset_are_refused() {
    assert_eq!(respond_to_command(DO, CHARSET), Some(vec![IAC, WILL, CHARSET]));
    assert_eq!(respond_to_command(WILL, CHARSET), Some(vec![IAC, DO, CHARSET]));
    assert_eq!(respond_to_command(DO, 1), Some(vec![IAC, WONT, 1]));
    assert_eq!(respond_to_command(WILL, 1), Some(vec![IAC, DONT, 1]));
    assert_eq!(respond_to_command(WONT, 1), None);
    assert_eq!(respond_to_command(DONT, CHARSET), None);
    assert_eq!(respond_to_command(241, 1), None);
}

#[test]
fn a_chunk_is_split_into_text_and_answers() {
    let mut processor = TelnetProcessor::new();
    let mut output = Vec::new();
    let chunk = [
        b'a', IAC, DO, 1, b'b', IAC, IAC, IAC, SB, CHARSET, 1, IAC, SE, IAC, WONT, 3, b'\r', b'\n',
    ];
    let replies = processor.process_chunk(&chunk, &mut output);
    assert_eq!(output, [b'a', b'b', IAC, b'\n']);
    assert_eq!(
        replies,
        vec![
            vec![IAC, WONT, 1],
            vec![IAC, SB, CHARSET, 2, 1, b'U', b'T', b'F', b'-', b'8', IAC, SE],
        ]
    );
    assert_eq!(processor.pending_len(), 0);
}

#[test]
fn what_is_already_in_the_output_is_cleaned_with_it() {
    let mut processor = TelnetProcessor::new();
    let mut output = b"x\r".to_vec();
    processor.process_chunk(b"y", &mut output);
    assert_eq!(output, b"xy");
}

#[test]
fn incomplete_commands_wait_for_the_next_chunk() {
    for head in [
        vec![IAC],
        vec![IAC, DO],
        vec![IAC, SB],
        vec![IAC, SB, CHARSET, 1, IAC],
    ] {
        let mut processor = TelnetProcessor::new();
        let mut output = Vec::new();
        assert!(processor.process_chunk(&head, &mut output).is_empty());
        assert!(output.is_empty());
        assert_eq!(processor.pending_len(), head.len());
    }
}

#[test]
fn the_cut_into_chunks_does_not_matter() {
    let stream = [
        b'a', IAC, WILL, CHARSET, b'b', IAC, IAC, IAC, SB, CHARSET, 3, IAC, SE, b'c', IAC, DO, 7,
    ];
    let mut whole_output = Vec::new();
    let whole = TelnetProcessor::new().process_chunk(&stream, &mut whole_output);
    for cut in 0..=stream.len() {
        let mut processor = TelnetProcessor::new();
        let mut output = Vec::new();
        let mut replies = processor.process_chunk(&stream[..cut], &mut output);
        let mut more = Vec::new();
        replies.extend(processor.process_chunk(&stream[cut..], &mut more));
        output.extend(more);
        assert_eq!(replies, whole);
        assert_eq!(output, whole_output);
        assert_eq!(processor.pending_len(), 0);
    }
}

#[test]
fn reading_answer_by_answer_is_reading_at_once() {
    let stream = [b'a', IAC, DO, 1, b'b', IAC, WILL, 2, b'c', IAC];
    let mut processor = TelnetProcessor::new();
    processor.receive(&stream);
    let mut output = Vec::new();
    let (index, reply) = processor.next_reply(0, &mut output);
    assert_eq!((index, reply), (4, Some(vec![IAC, WONT, 1])));
    assert_eq!(output, b"a");
    let (index, reply) = processor.next_reply(index, &mut output);
    assert_eq!((index, reply), (8, Some(vec![IAC, DONT, 2])));
    assert_eq!(output, b"ab");
    let (index, reply) = processor.next_reply(index, &mut output);
    assert_eq!((index, reply), (9, None));
    processor.finish(index, &mut output);
    assert_eq!(output, b"abc");
    assert_eq!(processor.pending_len(), 1);
}

#[test]
fn doubled_command_bytes_come_back_as_data() {
    let data = [1, IAC, IAC, SB, 0, IAC];
    let mut sent = Vec::new();
    for byte in data {
        sent.push(byte);
        if byte == IAC {
            sent.push(IAC);
        }
    }
    let mut output = Vec::new();
    let mut processor = TelnetProcessor::new();
    assert!(processor.process_chunk(&sent, &mut output).is_empty());
    assert_eq!(output, data);
}

#[test]
fn plain_text_is_shown_unchanged() {
    let mut processor = TelnetProcessor::new();
    let mut output = b"one\ntwo [0m\n".to_vec();
    sanitize_output(&mut processor, &mut output);
    assert_eq!(output, b"one\ntwo [0m\n");
}

#[test]
fn an_escape_waits_in_the_processor_for_its_bracket() {
    let mut processor = TelnetProcessor::new();
    let mut first = Vec::new();
    processor.process_chunk(b"a\x1B", &mut first);
    let mut second = Vec::new();
    processor.process_chunk(b"[0mb", &mut second);
    assert_eq!((first, second), (b"a".to_vec(), b"b".to_vec()));

    let mut third = Vec::new();
    processor.process_chunk(b"\x1B", &mut third);
    processor.process_chunk(&[IAC, WONT, 1], &mut third);
    assert_eq!(third, b"\x1B");
}

#[test]
fn a_negotiation_is_over_with_one_answer() {
    for option in 0..=u8::MAX {
        for command in [DO, WILL] {
            let answer = respond_to_command(command, option).unwrap();
            assert_eq!((answer[0], answer[2]), (IAC, option));
            assert_eq!(respond_to_command(answer[1], option).is_some(), option == CHARSET);
        }
    }
}
