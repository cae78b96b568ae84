use probable_fiesta::client::{construct_frame, ClientError};
use probable_fiesta::server::{deconstruct_frame, ServerError};
use probable_fiesta::{byte_op, byte_res, op_byte, res_byte, skip_ws, Operation, Response};
use std::str;

#[test]
pub fn test_new_db() {
    let frame = construct_frame(String::from("NEW foo"));

    // expected frame is op byte for NEW + foo -> "0foo"
    let ex_frame = "0foo";
    if let Ok(frame) = frame {
        assert!(ex_frame.as_bytes() == frame, "Expected frame {}, actually {}", ex_frame, str::from_utf8(&frame).unwrap());
    }
}

#[test]
fn frames_of_queries() {
    assert_eq!(construct_frame("NEW foo".to_string()).unwrap(), b"0foo".to_vec());
    assert_eq!(construct_frame("GET   key  ".to_string()).unwrap(), b"2key".to_vec());
    assert_eq!(construct_frame("SET k  v w ".to_string()).unwrap(), b"3k v w".to_vec());
    assert_eq!(construct_frame("PUB k v".to_string()).unwrap(), b"5k v".to_vec());
    assert_eq!(construct_frame("DEL k".to_string()).unwrap(), b"4k".to_vec());
}

#[test]
fn malformed_queries_are_parse_errors() {
    assert!(matches!(construct_frame("NEW".to_string()), Err(ClientError::ParseError)));
    assert!(matches!(construct_frame("NEW   ".to_string()), Err(ClientError::ParseError)));
    assert!(matches!(construct_frame("SET k".to_string()), Err(ClientError::ParseError)));
    assert!(matches!(construct_frame("XYZ k".to_string()), Err(ClientError::ParseError)));
}

#[test]
fn operation_bytes() {
    assert_eq!(op_byte(b"NEW").unwrap(), b'0');
    assert_eq!(op_byte(b"SUB").unwrap(), b'6');
    assert!(matches!(op_byte(b"XYZ"), Err(ClientError::SerializeOpError)));
    assert!(matches!(byte_op(b'1'), Ok(Operation::USE)));
    assert!(matches!(byte_op(b'3'), Ok(Operation::SET)));
    assert!(matches!(byte_op(b'9'), Err(ServerError::DeserializeOpError)));
}

#[test]
fn response_bytes() {
    assert_eq!(res_byte(b"PASS").unwrap(), b'0');
    assert_eq!(res_byte(b"FAIL").unwrap(), b'1');
    assert_eq!(res_byte(b"ACK").unwrap(), b'2');
    assert!(matches!(res_byte(b"NOPE"), Err(ServerError::SerializeResError)));
    assert!(matches!(byte_res(b'2'), Ok(Response::ACK)));
    assert!(matches!(byte_res(b'7'), Err(ClientError::DeserializeResError)));
}

#[test]
fn frames_are_checked() {
    assert!(deconstruct_frame(b"0foo").is_ok());
    assert!(deconstruct_frame(b"3k v").is_ok());
    assert!(matches!(deconstruct_frame(b""), Err(ServerError::DeserializeOpError)));
    assert!(matches!(deconstruct_frame(b"9foo"), Err(ServerError::DeserializeOpError)));
    assert!(matches!(deconstruct_frame(b"0   "), Err(ServerError::ParseError)));
    assert!(matches!(deconstruct_frame(b"3k"), Err(ServerError::ParseError)));
    assert!(matches!(deconstruct_frame(b"3 v"), Err(ServerError::ParseError)));
}

#[test]
fn skipping_spaces() {
    let input = b"  ab  ";
    let mut s = 0;
    skip_ws(&mut s, input.len(), input);
    assert_eq!(s, 2);
    let mut t = 5;
    skip_ws(&mut t, 2, input);
    assert_eq!(t, 3);
    let mut u = 1;
    skip_ws(&mut u, 0, input);
    assert_eq!(u, 0);
}

#[test]
fn error_messages() {
    assert_eq!(ClientError::ParseError.message(), "Error parsing query");
    assert_eq!(ServerError::SerializeResError.message(), "Error serializing response");
}

#[test]
fn built_frames_are_accepted() {
    for q in ["NEW db", "USE db", "GET k", "SET k v", "DEL k", "PUB k v", "SUB k", "SET  k   v  "] {
        let frame = construct_frame(q.to_string()).unwrap();
        assert!(deconstruct_frame(&frame).is_ok(), "{}", q);
    }
}
