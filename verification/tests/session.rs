use transmission_rpc::client::{operation_step, token_step, TransClient, TransportOutcome};
use transmission_rpc::request::RpcRequest;
use transmission_rpc::types::{
    BasicAuth, Nothing, RpcError, RpcResponse, SessionGet, Torrent, TorrentAction, TorrentGetField,
    Torrents,
};

fn response(body: &str) -> TransportOutcome {
    TransportOutcome::Response {
        status: 200,
        headers: vec![(
            "x-transmission-session-id".to_string(),
            "abc123".to_string(),
        )],
        body: body.to_string(),
    }
}

#[test]
fn token_step_reads_the_session_header() {
    let outcome = response("");
    match token_step(outcome) {
        Ok(tok) => assert_eq!(tok, "abc123"),
        Err(_) => panic!("expected a token"),
    }
}

#[test]
fn token_step_without_header_is_a_protocol_error() {
    let outcome = TransportOutcome::Response {
        status: 200,
        headers: vec![("content-type".to_string(), "text/html".to_string())],
        body: "<h1>409</h1>".to_string(),
    };
    match token_step(outcome) {
        Err(RpcError::Protocol(_)) => {}
        _ => panic!("expected a protocol error"),
    }
}

#[test]
fn token_step_on_transport_failure_is_a_transport_error() {
    match token_step(TransportOutcome::Failed("connection refused".to_string())) {
        Err(RpcError::Transport(m)) => assert_eq!(m, "connection refused"),
        _ => panic!("expected a transport error"),
    }
}

#[test]
fn torrent_get_fails_with_transport_error_on_failure() {
    let r: Result<RpcResponse<Torrents<Torrent>>, RpcError> =
        operation_step(TransportOutcome::Failed("connection refused".to_string()));
    match r {
        Err(RpcError::Transport(m)) => assert_eq!(m, "connection refused"),
        _ => panic!("expected a transport error"),
    }
}

#[test]
fn mismatched_body_is_a_decode_error() {
    let r: Result<RpcResponse<Torrents<Torrent>>, RpcError> =
        operation_step(response("{\"result\":\"success\",\"arguments\":{}}"));
    match r {
        Err(RpcError::Decode(raw)) => {
            assert_eq!(raw, "{\"result\":\"success\",\"arguments\":{}}");
        }
        _ => panic!("expected a decode error"),
    }
}

#[test]
fn session_get_scenario() {
    let client = TransClient::new("http://host/rpc");
    let token = token_step(response("")).unwrap();
    assert_eq!(token, "abc123");
    let req = client.operation_request(&token, &RpcRequest::session_get());
    assert_eq!(req.url, "http://host/rpc");
    assert!(req.auth.is_none());
    assert_eq!(req.session_id.as_deref(), Some("abc123"));
    assert_eq!(req.body, "{\"method\":\"session-get\",\"arguments\":{}}");
    let body = "{\"result\":\"success\",\"arguments\":{\"rpc-version\":17,\"version\":\"3.00\"}}";
    let r: Result<RpcResponse<SessionGet>, RpcError> = operation_step(response(body));
    let resp = match r {
        Ok(resp) => resp,
        Err(_) => panic!("expected a typed envelope"),
    };
    assert_eq!(resp.result, "success");
    assert!(resp.is_success());
    assert_eq!(resp.arguments.rpc_version, Some(17));
    assert_eq!(resp.arguments.version.as_deref(), Some("3.00"));
}

#[test]
fn torrent_get_scenario() {
    let client = TransClient::new("http://host/rpc");
    let req = client.operation_request(
        "abc123",
        &RpcRequest::torrent_get(vec![TorrentGetField::Id, TorrentGetField::Name]),
    );
    assert_eq!(
        req.body,
        "{\"method\":\"torrent-get\",\"arguments\":{\"fields\":[\"id\",\"name\"]}}"
    );
    let body = "{\"result\":\"success\",\"arguments\":{\"torrents\":[{\"id\":1,\"name\":\"x\"}]}}";
    let r: Result<RpcResponse<Torrents<Torrent>>, RpcError> = operation_step(response(body));
    let resp = r.unwrap_or_else(|_| panic!("expected a typed envelope"));
    assert!(resp.is_success());
    assert_eq!(resp.arguments.torrents.len(), 1);
    assert_eq!(resp.arguments.torrents[0].id, Some(1));
    assert_eq!(resp.arguments.torrents[0].name.as_deref(), Some("x"));
    assert_eq!(resp.arguments.torrents[0].status, None);
}

#[test]
fn torrent_action_scenario() {
    let client = TransClient::new("http://host/rpc");
    let req = client.operation_request(
        "abc123",
        &RpcRequest::torrent_action(TorrentAction::Start, vec![1, 2, 3]),
    );
    assert_eq!(
        req.body,
        "{\"method\":\"torrent-start\",\"arguments\":{\"ids\":[1,2,3]}}"
    );
    let body = "{\"result\":\"success\",\"arguments\":{}}";
    let r: Result<RpcResponse<Nothing>, RpcError> = operation_step(response(body));
    let resp = r.unwrap_or_else(|_| panic!("expected a typed envelope"));
    assert!(resp.is_success());
}

#[test]
fn credentials_ride_on_both_exchanges() {
    let auth = BasicAuth::new("user".to_string(), "pass".to_string());
    let client = TransClient::with_auth("http://host/rpc", auth);
    let token_req = client.token_request();
    match &token_req.auth {
        Some(a) => {
            assert_eq!(a.user, "user");
            assert_eq!(a.password, "pass");
        }
        None => panic!("expected credentials on the token exchange"),
    }
    assert!(token_req.session_id.is_none());
    assert_eq!(token_req.content_type, "application/json");
    assert_eq!(token_req.body, "{\"method\":\"session-get\",\"arguments\":{}}");
    let op_req = client.operation_request("abc123", &RpcRequest::session_get());
    match &op_req.auth {
        Some(a) => {
            assert_eq!(a.user, "user");
            assert_eq!(a.password, "pass");
        }
        None => panic!("expected credentials on the operation exchange"),
    }
    let bare = TransClient::new("http://host/rpc");
    assert!(bare.token_request().auth.is_none());
    assert!(bare
        .operation_request("abc123", &RpcRequest::session_get())
        .auth
        .is_none());
}

#[test]
fn application_error_is_a_normal_envelope() {
    let body = "{\"result\":\"invalid torrent id\",\"arguments\":{}}";
    let r: Result<RpcResponse<Nothing>, RpcError> = operation_step(response(body));
    let resp = r.unwrap_or_else(|_| panic!("expected a typed envelope"));
    assert!(!resp.is_success());
    assert_eq!(resp.result, "invalid torrent id");
}

#[test]
fn torrent_record_with_every_field_decodes() {
    let body = "{\"result\":\"success\",\"arguments\":{\"torrents\":[{\"id\":5,\"name\":\"ubuntu\",\"status\":4,\"eta\":-1,\"error\":0,\"total-size\":700000000},{\"id\":6}]}}";
    let r: Result<RpcResponse<Torrents<Torrent>>, RpcError> = operation_step(response(body));
    let resp = r.unwrap_or_else(|_| panic!("expected a typed envelope"));
    assert_eq!(resp.arguments.torrents.len(), 2);
    let t = &resp.arguments.torrents[0];
    assert_eq!(t.id, Some(5));
    assert_eq!(t.name.as_deref(), Some("ubuntu"));
    assert_eq!(t.status, Some(4));
    assert_eq!(t.eta, Some(-1));
    assert_eq!(t.error, Some(0));
    assert_eq!(t.total_size, Some(700000000));
    assert_eq!(resp.arguments.torrents[1].id, Some(6));
    assert_eq!(resp.arguments.torrents[1].name, None);
}

#[test]
fn out_of_order_record_is_a_decode_error() {
    let body = "{\"result\":\"success\",\"arguments\":{\"torrents\":[{\"name\":\"x\",\"id\":1}]}}";
    let r: Result<RpcResponse<Torrents<Torrent>>, RpcError> = operation_step(response(body));
    assert!(matches!(r, Err(RpcError::Decode(_))));
}

#[test]
fn empty_torrent_list_decodes() {
    let body = "{\"result\":\"success\",\"arguments\":{\"torrents\":[]}}";
    let r: Result<RpcResponse<Torrents<Torrent>>, RpcError> = operation_step(response(body));
    let resp = r.unwrap_or_else(|_| panic!("expected a typed envelope"));
    assert!(resp.arguments.torrents.is_empty());
}

#[test]
fn typed_session_pairing_decodes() {
    let client = TransClient::new("http://host/rpc");
    let req = client.session_get_request("abc123");
    assert_eq!(req.body, "{\"method\":\"session-get\",\"arguments\":{}}");
    let body = "{\"result\":\"success\",\"arguments\":{\"version\":\"3.00\"}}";
    let resp = transmission_rpc::client::session_get_step(response(body)).unwrap();
    assert!(resp.is_success());
    assert_eq!(resp.arguments.version.as_deref(), Some("3.00"));
    assert_eq!(resp.arguments.rpc_version, None);
}

#[test]
fn typed_torrent_get_pairing_decodes() {
    let client = TransClient::new("http://host/rpc");
    let req = client.torrent_get_request(
        "abc123",
        vec![TorrentGetField::Id, TorrentGetField::Name],
    );
    assert_eq!(
        req.body,
        "{\"method\":\"torrent-get\",\"arguments\":{\"fields\":[\"id\",\"name\"]}}"
    );
    let body = "{\"result\":\"success\",\"arguments\":{\"torrents\":[{\"id\":1,\"name\":\"x\"}]}}";
    let resp = transmission_rpc::client::torrent_get_step(response(body)).unwrap();
    assert_eq!(resp.arguments.torrents[0].id, Some(1));
    assert_eq!(resp.arguments.torrents[0].name.as_deref(), Some("x"));
}

#[test]
fn typed_torrent_action_pairing_decodes() {
    let client = TransClient::new("http://host/rpc");
    let req = client.torrent_action_request("abc123", TorrentAction::Start, vec![1, 2, 3]);
    assert_eq!(
        req.body,
        "{\"method\":\"torrent-start\",\"arguments\":{\"ids\":[1,2,3]}}"
    );
    let body = "{\"result\":\"success\",\"arguments\":{}}";
    let resp = transmission_rpc::client::torrent_action_step(response(body)).unwrap();
    assert!(resp.is_success());
}

#[test]
fn arguments_first_envelope_decodes() {
    let body = "{\"arguments\":{\"torrents\":[{\"id\":1,\"name\":\"x\"}]},\"result\":\"success\"}";
    let r: Result<RpcResponse<Torrents<Torrent>>, RpcError> = operation_step(response(body));
    let resp = r.unwrap_or_else(|_| panic!("expected a typed envelope"));
    assert!(resp.is_success());
    assert_eq!(resp.arguments.torrents[0].id, Some(1));
    assert_eq!(resp.arguments.torrents[0].name.as_deref(), Some("x"));
}

#[test]
fn arguments_first_session_decodes() {
    let body = "{\"arguments\":{\"rpc-version\":17,\"version\":\"3.00\"},\"result\":\"success\"}";
    let r: Result<RpcResponse<SessionGet>, RpcError> = operation_step(response(body));
    let resp = r.unwrap_or_else(|_| panic!("expected a typed envelope"));
    assert!(resp.is_success());
    assert_eq!(resp.arguments.rpc_version, Some(17));
    assert_eq!(resp.arguments.version.as_deref(), Some("3.00"));
}

#[test]
fn arguments_first_nothing_decodes() {
    let body = "{\"arguments\":{},\"result\":\"success\"}";
    let r: Result<RpcResponse<Nothing>, RpcError> = operation_step(response(body));
    let resp = r.unwrap_or_else(|_| panic!("expected a typed envelope"));
    assert!(resp.is_success());
}

#[test]
fn arguments_first_with_trailing_text_is_a_decode_error() {
    let body = "{\"arguments\":{},\"result\":\"success\"} ";
    let r: Result<RpcResponse<Nothing>, RpcError> = operation_step(response(body));
    assert!(matches!(r, Err(RpcError::Decode(_))));
}

#[test]
fn arguments_first_application_error_decodes() {
    let body = "{\"arguments\":{},\"result\":\"invalid torrent id\"}";
    let r: Result<RpcResponse<Nothing>, RpcError> = operation_step(response(body));
    let resp = r.unwrap_or_else(|_| panic!("expected a typed envelope"));
    assert!(!resp.is_success());
    assert_eq!(resp.result, "invalid torrent id");
}
