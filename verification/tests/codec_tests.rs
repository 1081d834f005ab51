use kvs::buffer::ReadBuffer;
use kvs::codec::LogCommand;
use kvs::frame::Frame;
use kvs::moves::Move;
use kvs::utils::{get_log_path, is_log_file, parse_log_seq};

#[test]
fn command_encode_decode_roundtrip() {
    let cmd = LogCommand::Insert("key".to_string(), "value".to_string());
    let payload = cmd.encode();
    let back = LogCommand::decode(&payload).unwrap();
    assert_eq!(back, cmd);
}

#[test]
fn command_roundtrip_multibyte() {
    let cmd = LogCommand::Insert("ключ".to_string(), "значение 🔑".to_string());
    let payload = cmd.encode();
    assert_eq!(LogCommand::decode(&payload), Some(cmd));

    let rm = LogCommand::Remove("πλήκτρο".to_string());
    let payload = rm.encode();
    assert_eq!(LogCommand::decode(&payload), Some(rm));
}

#[test]
fn command_roundtrip_empty_strings() {
    let cmd = LogCommand::Insert(String::new(), String::new());
    let payload = cmd.encode();
    assert_eq!(LogCommand::decode(&payload), Some(cmd));
}

#[test]
fn decode_rejects_garbage() {
    assert_eq!(LogCommand::decode(&[]), None);
    assert_eq!(LogCommand::decode(&[9, 9, 9]), None);
    // A valid payload with a trailing byte is not exactly one command.
    let mut payload = LogCommand::Remove("k".to_string()).encode();
    payload.push(0);
    assert_eq!(LogCommand::decode(&payload), None);
    // A truncated payload is not a command either.
    let payload = LogCommand::Remove("k".to_string()).encode();
    assert_eq!(LogCommand::decode(&payload[..payload.len() - 1]), None);
}

#[test]
fn frame_roundtrip() {
    let frame = Frame::new(&[1, 2, 3, 4, 5]);
    let encoded = frame.encode();
    assert_eq!(encoded.len(), 8 + 5);
    let (back, next) = Frame::decode(&encoded, 0).unwrap();
    assert_eq!(back.bytes, vec![1, 2, 3, 4, 5]);
    assert_eq!(next, encoded.len());
}

#[test]
fn frame_decode_stops_on_torn_input() {
    let frame = Frame::new(&[7, 8, 9]);
    let encoded = frame.encode();
    // End of stream.
    assert!(Frame::decode(&encoded, encoded.len()).is_none());
    // A cut anywhere inside the frame leaves no complete frame.
    for cut in 1..encoded.len() {
        assert!(Frame::decode(&encoded[..encoded.len() - cut], 0).is_none());
    }
}

#[test]
fn two_frames_in_sequence() {
    let mut stream = Frame::new(&[1]).encode();
    stream.extend(Frame::new(&[2, 3]).encode());
    let (first, mid) = Frame::decode(&stream, 0).unwrap();
    assert_eq!(first.bytes, vec![1]);
    let (second, end) = Frame::decode(&stream, mid).unwrap();
    assert_eq!(second.bytes, vec![2, 3]);
    assert_eq!(end, stream.len());
}

#[test]
fn log_path_names() {
    assert_eq!(get_log_path(0), "0.log");
    assert_eq!(get_log_path(7), "7.log");
    assert_eq!(get_log_path(42), "42.log");
    assert_eq!(get_log_path(1_048_576), "1048576.log");
}

#[test]
fn log_file_names_recognized() {
    assert!(is_log_file("1.log"));
    assert!(is_log_file("123456.log"));
    assert!(!is_log_file("notes.txt"));
    assert!(!is_log_file(".log"));
    assert!(!is_log_file("log"));
}

#[test]
fn parse_log_seq_values() {
    assert_eq!(parse_log_seq("123.log"), Some(123));
    assert_eq!(parse_log_seq("0.log"), Some(0));
    assert_eq!(parse_log_seq("a.log"), None);
    assert_eq!(parse_log_seq("12x.log"), None);
    assert_eq!(parse_log_seq("12.txt"), None);
    assert_eq!(parse_log_seq(".log"), None);
    assert_eq!(parse_log_seq("99999999999999999999999.log"), None);
}

#[test]
fn log_path_parses_back() {
    for n in [0u64, 1, 9, 10, 99, 100, 12345, u64::MAX] {
        assert_eq!(parse_log_seq(&get_log_path(n)), Some(n));
    }
}

#[test]
fn read_buffer_write_then_read() {
    let mut buffer = ReadBuffer::new();
    assert_eq!(buffer.write(&[10, 20, 30]), 3);
    buffer.flush();
    let first = buffer.read(2).unwrap();
    assert_eq!(first, vec![10, 20]);
    let rest = buffer.read(100).unwrap();
    assert_eq!(rest, vec![30]);
    assert!(buffer.read(1).is_none());
}

#[test]
fn read_buffer_empty_reads_nothing() {
    let mut buffer = ReadBuffer::default();
    assert!(buffer.read(8).is_none());
}

#[test]
fn moves_compare() {
    assert_eq!(Move::Up(7), Move::Up(7));
    assert_ne!(Move::Up(7), Move::Down(7));
    assert_ne!(Move::Left(1), Move::Left(2));
}
