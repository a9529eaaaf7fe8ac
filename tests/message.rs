use rts_core::message::{ClientToServer, DecodeError, Message, ServerToClient};

#[test]
fn test_connect_response() {
    let original = ServerToClient::ConnectResponse(3);
    let encoded = original.stringify();
    let parsed: ServerToClient = Message::parse(&encoded).unwrap();
    assert_eq!(parsed, original);
}

#[test]
fn test_connect_request() {
    let original = ClientToServer::ConnectRequest;
    let encoded = original.stringify();
    let parsed: ClientToServer = Message::parse(&encoded).unwrap();
    assert_eq!(parsed, original);
}

#[test]
fn request_text_is_quoted_name() {
    assert_eq!(ClientToServer::ConnectRequest.stringify(), "\"ConnectRequest\"");
}

#[test]
fn response_text_names_variant_and_fields() {
    assert_eq!(
        ServerToClient::ConnectResponse(3).stringify(),
        "{\"variant\":\"ConnectResponse\",\"fields\":[3]}"
    );
    assert_eq!(
        ServerToClient::ConnectResponse(0).stringify(),
        "{\"variant\":\"ConnectResponse\",\"fields\":[0]}"
    );
    assert_eq!(
        ServerToClient::ConnectResponse(1207).stringify(),
        "{\"variant\":\"ConnectResponse\",\"fields\":[1207]}"
    );
}

#[test]
fn round_trip_of_extreme_identities() {
    for n in [0usize, 9, 10, 99, 100, usize::MAX - 1, usize::MAX] {
        let v = ServerToClient::ConnectResponse(n);
        let parsed: ServerToClient = Message::parse(&v.stringify()).unwrap();
        assert_eq!(parsed, v);
    }
}

#[test]
fn not_valid_is_rejected_by_both() {
    let text = "not valid".to_string();
    let a: Result<ServerToClient, DecodeError> = Message::parse(&text);
    let b: Result<ClientToServer, DecodeError> = Message::parse(&text);
    assert_eq!(a, Err(DecodeError));
    assert_eq!(b, Err(DecodeError));
}

#[test]
fn wrong_kind_is_rejected() {
    let request = ClientToServer::ConnectRequest.stringify();
    let response = ServerToClient::ConnectResponse(5).stringify();
    let a: Result<ServerToClient, DecodeError> = Message::parse(&request);
    let b: Result<ClientToServer, DecodeError> = Message::parse(&response);
    assert_eq!(a, Err(DecodeError));
    assert_eq!(b, Err(DecodeError));
}

#[test]
fn malformed_numbers_are_rejected() {
    for text in [
        "{\"variant\":\"ConnectResponse\",\"fields\":[]}",
        "{\"variant\":\"ConnectResponse\",\"fields\":[03]}",
        "{\"variant\":\"ConnectResponse\",\"fields\":[-3]}",
        "{\"variant\":\"ConnectResponse\",\"fields\":[3a]}",
        "{\"variant\":\"ConnectResponse\",\"fields\":[99999999999999999999999]}",
        "{\"variant\":\"ConnectResponse\",\"fields\":[3]",
        "{\"variant\":\"ConnectRequest\",\"fields\":[3]}",
        "",
    ] {
        let r: Result<ServerToClient, DecodeError> = Message::parse(&text.to_string());
        assert_eq!(r, Err(DecodeError), "{}", text);
    }
}

#[test]
fn request_with_extra_text_is_rejected() {
    for text in ["\"ConnectRequest\" ", "\"ConnectRequest", "ConnectRequest", ""] {
        let r: Result<ClientToServer, DecodeError> = Message::parse(&text.to_string());
        assert_eq!(r, Err(DecodeError), "{}", text);
    }
}
