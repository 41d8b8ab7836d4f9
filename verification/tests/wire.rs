use transmission_rpc::request::{decode_request, encode_request, RpcRequest};
use transmission_rpc::types::{TorrentAction, TorrentGetField};

#[test]
fn field_strings_are_exact() {
    assert_eq!(TorrentGetField::Id.as_str(), "id");
    assert_eq!(TorrentGetField::Name.as_str(), "name");
    assert_eq!(TorrentGetField::Status.as_str(), "status");
    assert_eq!(TorrentGetField::Eta.as_str(), "eta");
    assert_eq!(TorrentGetField::Error.as_str(), "error");
    assert_eq!(TorrentGetField::TotalSize.as_str(), "total-size");
}

#[test]
fn field_strings_round_trip() {
    let all = vec![
        TorrentGetField::Id,
        TorrentGetField::Name,
        TorrentGetField::Status,
        TorrentGetField::Eta,
        TorrentGetField::Error,
        TorrentGetField::TotalSize,
    ];
    for f in all {
        assert_eq!(TorrentGetField::from_str(f.as_str()), Some(f));
    }
    assert_eq!(TorrentGetField::from_str("nonsense"), None);
    assert_eq!(TorrentGetField::from_str(""), None);
}

#[test]
fn action_strings_are_exact() {
    assert_eq!(TorrentAction::Start.as_str(), "torrent-start");
    assert_eq!(TorrentAction::Stop.as_str(), "torrent-stop");
    assert_eq!(TorrentAction::Verify.as_str(), "torrent-verify");
    assert_eq!(TorrentAction::Remove.as_str(), "torrent-remove");
    assert_eq!(TorrentAction::Reannounce.as_str(), "torrent-reannounce");
}

#[test]
fn action_strings_round_trip() {
    let all = vec![
        TorrentAction::Start,
        TorrentAction::Stop,
        TorrentAction::Verify,
        TorrentAction::Remove,
        TorrentAction::Reannounce,
    ];
    for a in all {
        assert_eq!(TorrentAction::from_str(a.as_str()), Some(a));
    }
    assert_eq!(TorrentAction::from_str("torrent-pause"), None);
}

#[test]
fn session_get_encodes_exactly() {
    let body = encode_request(&RpcRequest::session_get());
    assert_eq!(body, "{\"method\":\"session-get\",\"arguments\":{}}");
}

#[test]
fn torrent_get_encodes_exactly() {
    let body = encode_request(&RpcRequest::torrent_get(vec![
        TorrentGetField::Id,
        TorrentGetField::Name,
    ]));
    assert_eq!(
        body,
        "{\"method\":\"torrent-get\",\"arguments\":{\"fields\":[\"id\",\"name\"]}}"
    );
}

#[test]
fn torrent_action_encodes_exactly() {
    let body = encode_request(&RpcRequest::torrent_action(TorrentAction::Start, vec![1, 2, 3]));
    assert_eq!(
        body,
        "{\"method\":\"torrent-start\",\"arguments\":{\"ids\":[1,2,3]}}"
    );
}

#[test]
fn request_round_trips_session_get() {
    let body = encode_request(&RpcRequest::session_get());
    assert!(matches!(decode_request(&body), Some(RpcRequest::SessionGet)));
}

#[test]
fn request_round_trips_torrent_get() {
    let fields = vec![TorrentGetField::Name, TorrentGetField::TotalSize];
    let body = encode_request(&RpcRequest::torrent_get(fields.clone()));
    match decode_request(&body) {
        Some(RpcRequest::TorrentGet { fields: back }) => assert_eq!(back, fields),
        _ => panic!("expected a torrent-get request"),
    }
}

#[test]
fn request_round_trips_empty_field_list() {
    let body = encode_request(&RpcRequest::torrent_get(Vec::new()));
    assert_eq!(
        body,
        "{\"method\":\"torrent-get\",\"arguments\":{\"fields\":[]}}"
    );
    match decode_request(&body) {
        Some(RpcRequest::TorrentGet { fields: back }) => assert!(back.is_empty()),
        _ => panic!("expected a torrent-get request"),
    }
}

#[test]
fn request_round_trips_every_action() {
    let all = vec![
        TorrentAction::Start,
        TorrentAction::Stop,
        TorrentAction::Verify,
        TorrentAction::Remove,
        TorrentAction::Reannounce,
    ];
    for a in all {
        let ids = vec![-9, 0, 42, i64::MAX, i64::MIN];
        let body = encode_request(&RpcRequest::torrent_action(a, ids.clone()));
        match decode_request(&body) {
            Some(RpcRequest::TorrentAction { action, ids: back }) => {
                assert_eq!(action, a);
                assert_eq!(back, ids);
            }
            _ => panic!("expected an action request"),
        }
    }
}

#[test]
fn decode_rejects_non_requests() {
    assert!(decode_request("").is_none());
    assert!(decode_request("{}").is_none());
    assert!(decode_request("{\"method\":\"session-get\",\"arguments\":{}} ").is_none());
    assert!(decode_request("{\"method\":\"torrent-rename\",\"arguments\":{}}").is_none());
    assert!(decode_request("{\"method\":\"torrent-get\",\"arguments\":{\"fields\":[\"id\",]}}").is_none());
    assert!(decode_request("{\"method\":\"torrent-start\",\"arguments\":{\"ids\":[01]}}").is_none());
    assert!(decode_request("{\"method\":\"torrent-start\",\"arguments\":{\"ids\":[-0]}}").is_none());
}

#[test]
fn method_names_match_wire_strings() {
    assert_eq!(RpcRequest::session_get().method_name(), "session-get");
    assert_eq!(
        RpcRequest::torrent_get(vec![TorrentGetField::Id]).method_name(),
        "torrent-get"
    );
    assert_eq!(
        RpcRequest::torrent_action(TorrentAction::Remove, vec![7]).method_name(),
        "torrent-remove"
    );
}
