use codechain::message::DecoderError;
use codechain::message::Message;
use codechain::types::Header;
use codechain::types::UnverifiedTransaction;

#[test]
fn test_status_message_rlp() {
    let message = Message::Status { total_score: 0, best_hash: 0, genesis_hash: 0 };
    assert_eq!(message, Message::decode(&message.encode()).unwrap());
}

#[test]
fn test_request_headers_message_rlp() {
    let message = Message::RequestHeaders { start_number: 100, max_count: 100 };
    assert_eq!(message, Message::decode(&message.encode()).unwrap());
}

#[test]
fn test_headers_message_rlp() {
    let headers = vec![Header::default()];
    let message = Message::Headers(headers);
    assert_eq!(message, Message::decode(&message.encode()).unwrap());
}

#[test]
fn test_request_bodies_message_rlp() {
    let message = Message::RequestBodies(vec![0]);
    assert_eq!(message, Message::decode(&message.encode()).unwrap());
}

#[test]
fn test_bodies_message_rlp() {
    let message = Message::Bodies(vec![vec![]]);
    assert_eq!(message, Message::decode(&message.encode()).unwrap());
}

#[test]
fn bodies_with_payload_round_trip() {
    let tx = UnverifiedTransaction {
        nonce: 7,
        fee: 100,
        signer: 42,
        hash: 0xdead,
        payload: vec![1, 2, 3, 4, 5],
    };
    let message = Message::Bodies(vec![vec![], vec![tx]]);
    assert_eq!(message, Message::decode(&message.encode()).unwrap());
}

#[test]
fn status_round_trip_nonzero() {
    let message = Message::Status {
        total_score: u64::MAX,
        best_hash: 0x0123_4567_89ab_cdef,
        genesis_hash: 1,
    };
    assert_eq!(message, Message::decode(&message.encode()).unwrap());
}

#[test]
fn decode_unknown_id_fails() {
    let message = Message::Status { total_score: 0, best_hash: 0, genesis_hash: 0 };
    let mut bytes = message.encode();
    bytes[0] = 0x09;
    assert_eq!(Message::decode(&bytes), Err(DecoderError::UnknownMessageId));
}

#[test]
fn decode_wrong_arity_fails() {
    let message = Message::Status { total_score: 0, best_hash: 0, genesis_hash: 0 };
    let mut bytes = message.encode();
    bytes.pop();
    assert_eq!(Message::decode(&bytes), Err(DecoderError::RlpIncorrectListLen));
}

#[test]
fn decode_request_headers_wrong_arity_fails() {
    let message = Message::RequestHeaders { start_number: 1, max_count: 2 };
    let mut bytes = message.encode();
    bytes.push(0);
    assert_eq!(Message::decode(&bytes), Err(DecoderError::RlpIncorrectListLen));
}

#[test]
fn decode_empty_fails() {
    let bytes: Vec<u8> = Vec::new();
    assert_eq!(Message::decode(&bytes), Err(DecoderError::RlpIncorrectListLen));
}

#[test]
fn is_status_only_for_status() {
    let status = Message::Status { total_score: 0, best_hash: 0, genesis_hash: 0 };
    assert!(status.is_status());
    assert!(!Message::RequestBodies(vec![]).is_status());
}

#[test]
fn empty_headers_round_trip() {
    let message = Message::Headers(vec![]);
    assert_eq!(message, Message::decode(&message.encode()).unwrap());
}

#[test]
fn empty_request_bodies_round_trip() {
    let message = Message::RequestBodies(vec![]);
    assert_eq!(message, Message::decode(&message.encode()).unwrap());
}
