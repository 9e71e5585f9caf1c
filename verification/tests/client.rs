use watch_party::client::json::{Frame, JsonClient, ProtocolError, Received};

#[test]
fn a_text_frame_hands_out_its_document() {
    let mut c = JsonClient::new();
    match c.recv(Some(Frame::Text("{\"Play\": null}".to_string()))) {
        Ok(Received::Document(doc)) => assert_eq!(doc, "{\"Play\": null}"),
        _ => panic!("expected the document of the text frame"),
    }
    match c.recv(Some(Frame::Text(String::new()))) {
        Ok(Received::Document(doc)) => assert_eq!(doc, ""),
        _ => panic!("expected the document of the text frame"),
    }
}

#[test]
fn a_close_frame_is_answered_and_ends_the_conversation() {
    let mut c = JsonClient::new();
    assert!(matches!(c.recv(Some(Frame::Close)), Ok(Received::End { echo_close: true })));
}

#[test]
fn the_end_of_the_stream_ends_the_conversation() {
    let mut c = JsonClient::new();
    assert!(matches!(c.recv(None), Ok(Received::End { echo_close: false })));
}

#[test]
fn other_frames_violate_the_protocol() {
    let mut c = JsonClient::new();
    assert!(matches!(c.recv(Some(Frame::Binary)), Err(ProtocolError::InvalidMessageType)));
    assert!(matches!(c.recv(Some(Frame::Ping)), Err(ProtocolError::InvalidMessageType)));
    assert!(matches!(c.recv(Some(Frame::Pong)), Err(ProtocolError::InvalidMessageType)));
    // the connection is still usable after a refusal
    assert!(matches!(c.recv(Some(Frame::Close)), Ok(Received::End { echo_close: true })));
}
