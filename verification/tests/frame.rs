use store::command::{Command, Response};
use store::frame::{ByteCursor, Frame};

#[test]
fn parse_key_value_frame() {
    let mut bytes: Vec<u8> = vec![];
    let key = 5_u32;
    let value = 99_u32;
    let value = value.to_be_bytes();
    bytes.extend_from_slice(b"$");
    bytes.extend_from_slice(&4_u32.to_be_bytes());
    bytes.extend_from_slice(b"\r\n");
    bytes.extend_from_slice(&key.to_be_bytes());
    bytes.extend_from_slice(b"\r\n");
    let value_len = value.len() as u32;
    bytes.extend_from_slice(&value_len.to_be_bytes());
    bytes.extend_from_slice(b"\r\n");
    bytes.extend_from_slice(&value);
    bytes.extend_from_slice(b"\r\n");

    let mut cursor = ByteCursor::new(bytes.as_slice());

    let frame = Frame::try_parse(&mut cursor).unwrap();

    match frame {
        Frame::KeyValue(k, v) => {
            assert_eq!(k, 5_u32.to_be_bytes());
            assert_eq!(v, 99_u32.to_be_bytes());
        }
        _ => assert!(false, "Frame was not parsed as key_value"),
    }
}

#[test]
fn a_key_value_frame_leaves_the_cursor_behind_it() {
    let bytes = b"$\x00\x00\x00\x01\r\nk\r\n\x00\x00\x00\x02\r\nvv\r\n+PING\r\n";
    let mut cursor = ByteCursor::new(bytes);
    let frame = Frame::try_parse(&mut cursor).unwrap();
    assert_eq!(frame, Frame::KeyValue(b"k".to_vec(), b"vv".to_vec()));
    assert_eq!(cursor.position(), 20);
    let next = Frame::try_parse(&mut cursor).unwrap();
    assert_eq!(next, Frame::Simple("PING".to_string()));
    assert_eq!(cursor.position(), bytes.len());
    assert_eq!(Frame::try_parse(&mut cursor), None);
}

#[test]
fn a_length_is_read_in_big_endian_order() {
    let bytes = [0x08_u8, 0x09, 0xA0, 0xA1, 0xff];
    let mut cursor = ByteCursor::new(&bytes);
    assert_eq!(Frame::get_u32(&mut cursor), Some(0x0809A0A1));
    assert_eq!(cursor.position(), 4);
    assert_eq!(Frame::get_u32(&mut cursor), None);
    assert_eq!(cursor.position(), 4);
    assert_eq!(Frame::get_u8(&mut cursor), Some(0xff));
    assert_eq!(Frame::get_u8(&mut cursor), None);
}

#[test]
fn a_byte_is_read_at_the_cursor_and_not_at_the_start() {
    let bytes = [1_u8, 2, 3];
    let mut cursor = ByteCursor::new(&bytes);
    cursor.advance(1);
    assert_eq!(Frame::get_u8(&mut cursor), Some(2));
    assert_eq!(Frame::get_u8(&mut cursor), Some(3));
    assert_eq!(cursor.remaining(), 0);
    assert!(!cursor.has_remaining());
}

#[test]
fn bytes_are_read_by_count() {
    let bytes = b"abcdef";
    let mut cursor = ByteCursor::new(bytes);
    assert_eq!(Frame::get_bytes(&mut cursor, 2), Some(b"ab".to_vec()));
    assert_eq!(Frame::get_bytes(&mut cursor, 5), None);
    assert_eq!(cursor.position(), 2);
    assert_eq!(Frame::get_bytes(&mut cursor, 4), Some(b"cdef".to_vec()));
    assert_eq!(Frame::get_bytes(&mut cursor, 0), Some(Vec::new()));
}

#[test]
fn a_delimiter_is_passed_only_where_it_stands() {
    let bytes = b"\r\nx\r";
    let mut cursor = ByteCursor::new(bytes);
    assert_eq!(Frame::advance_past_delimiter(&mut cursor), Some(()));
    assert_eq!(cursor.position(), 2);
    assert_eq!(Frame::advance_past_delimiter(&mut cursor), None);
    assert_eq!(cursor.position(), 2);
    cursor.advance(1);
    assert_eq!(Frame::advance_past_delimiter(&mut cursor), None);
}

#[test]
fn a_simple_frame_ends_at_the_first_line_end() {
    let bytes = b"+PONG\r\nrest\r\n";
    let mut cursor = ByteCursor::new(bytes);
    assert_eq!(
        Frame::try_parse(&mut cursor),
        Some(Frame::Simple("PONG".to_string()))
    );
    assert_eq!(cursor.position(), 7);
}

#[test]
fn a_simple_frame_with_bytes_that_are_no_utf8_is_read_with_replacements() {
    let bytes = b"+a\xffb\r\n";
    let mut cursor = ByteCursor::new(bytes);
    assert_eq!(
        Frame::try_parse(&mut cursor),
        Some(Frame::Simple("a\u{fffd}b".to_string()))
    );
}

#[test]
fn an_unfinished_frame_is_not_read() {
    let mut cursor = ByteCursor::new(b"+PING\r");
    assert_eq!(Frame::try_parse(&mut cursor), None);
    assert_eq!(cursor.position(), 1);

    let mut cursor = ByteCursor::new(b"$\x00\x00\x00\x05\r\nk\r\n");
    assert_eq!(Frame::try_parse(&mut cursor), None);
    assert_eq!(cursor.position(), 7);

    let mut cursor = ByteCursor::new(b"$\x00\x00\x00\x02\r\nk\r\n");
    assert_eq!(Frame::try_parse(&mut cursor), None);
    assert_eq!(cursor.position(), 9);

    let mut cursor = ByteCursor::new(b"");
    assert_eq!(Frame::try_parse(&mut cursor), None);
    assert_eq!(cursor.position(), 0);
}

#[test]
fn an_unknown_kind_of_frame_is_not_read() {
    let mut cursor = ByteCursor::new(b"\x00+PING\r\n");
    assert_eq!(Frame::try_parse(&mut cursor), None);
    assert_eq!(cursor.position(), 1);
    let mut cursor = ByteCursor::new(b"?");
    assert_eq!(Frame::try_parse(&mut cursor), None);
    assert_eq!(cursor.position(), 1);
}

#[test]
fn commands_and_responses_have_their_frames() {
    assert_eq!(
        Frame::from_cmd(&Command::Ping),
        Some(Frame::Simple("PING".to_string()))
    );
    assert_eq!(
        Frame::from_cmd(&Command::Put((b"key".to_vec(), b"value".to_vec()))),
        Some(Frame::KeyValue(b"key".to_vec(), b"value".to_vec()))
    );
    assert_eq!(Frame::from_cmd(&Command::Get(b"key".to_vec())), None);
    assert_eq!(
        Frame::from_response(&Response::Pong),
        Some(Frame::Simple("PONG".to_string()))
    );
    assert_eq!(
        Frame::from_response(&Response::Value(Some(b"v".to_vec()))),
        None
    );
}
