//! Wire-level data model: the closed enumerations of requestable torrent
//! fields and torrent actions with their exact protocol strings, the typed
//! response envelope, payload shapes, and the error taxonomy.

use vstd::prelude::*;

verus! {

/// Basic-auth credentials attached to every outbound request when present.
pub struct BasicAuth {
    pub user: String,
    pub password: String,
}

impl BasicAuth {
    pub fn new(user: String, password: String) -> (r: BasicAuth)
        ensures
            r.user@ == user@,
            r.password@ == password@,
    {
        BasicAuth { user, password }
    }

    pub fn clone(&self) -> (r: BasicAuth)
        ensures
            r.user@ == self.user@,
            r.password@ == self.password@,
    {
        BasicAuth { user: self.user.clone(), password: self.password.clone() }
    }
}

/// A failed RPC call, distinguishing how far the call got.
#[derive(Debug)]
pub enum RpcError {
    /// The transport could not complete the HTTP exchange at all.
    Transport(String),
    /// The server responded but violated the session-header contract.
    Protocol(String),
    /// The response body does not parse as the expected envelope shape.
    /// Carries the raw body for diagnosis.
    Decode(String),
}

/// The closed set of torrent fields a `torrent-get` call may request.
#[derive(Clone, Copy, PartialEq, Eq, Structural, Debug)]
pub enum TorrentGetField {
    Id,
    Name,
    Status,
    Eta,
    Error,
    TotalSize,
}

/// The exact protocol string for each requestable field.
pub open spec fn field_chars(f: TorrentGetField) -> Seq<char> {
    match f {
        TorrentGetField::Id => "id"@,
        TorrentGetField::Name => "name"@,
        TorrentGetField::Status => "status"@,
        TorrentGetField::Eta => "eta"@,
        TorrentGetField::Error => "error"@,
        TorrentGetField::TotalSize => "total-size"@,
    }
}

/// Distinct fields have distinct protocol strings, so the mapping from
/// field to string is injective: together with the acceptance contract of
/// [`TorrentGetField::from_str`], field strings form a bijection.
pub proof fn lemma_field_chars_injective(f: TorrentGetField, g: TorrentGetField)
    ensures
        (field_chars(f) == field_chars(g)) == (f == g),
{
    broadcast use vstd::string::group_string_axioms;

    reveal_strlit("id");
    reveal_strlit("name");
    reveal_strlit("status");
    reveal_strlit("eta");
    reveal_strlit("error");
    reveal_strlit("total-size");
    assert("id"@.len() == 2);
    assert("eta"@.len() == 3);
    assert("name"@.len() == 4);
    assert("error"@.len() == 5);
    assert("status"@.len() == 6);
    assert("total-size"@.len() == 10);
}

impl TorrentGetField {
    /// The protocol string this field serializes to.
    pub fn as_str(&self) -> (r: &'static str)
        ensures
            r@ == field_chars(*self),
    {
        match self {
            TorrentGetField::Id => "id",
            TorrentGetField::Name => "name",
            TorrentGetField::Status => "status",
            TorrentGetField::Eta => "eta",
            TorrentGetField::Error => "error",
            TorrentGetField::TotalSize => "total-size",
        }
    }

    /// Accepts exactly the six protocol strings, each back to its field.
    pub fn from_str(s: &str) -> (r: Option<TorrentGetField>)
        ensures
            match r {
                Some(f) => field_chars(f) == s@,
                None => forall|f: TorrentGetField| field_chars(f) != s@,
            },
    {
        if crate::strutil::str_eq(s, "id") {
            Some(TorrentGetField::Id)
        } else if crate::strutil::str_eq(s, "name") {
            Some(TorrentGetField::Name)
        } else if crate::strutil::str_eq(s, "status") {
            Some(TorrentGetField::Status)
        } else if crate::strutil::str_eq(s, "eta") {
            Some(TorrentGetField::Eta)
        } else if crate::strutil::str_eq(s, "error") {
            Some(TorrentGetField::Error)
        } else if crate::strutil::str_eq(s, "total-size") {
            Some(TorrentGetField::TotalSize)
        } else {
            None
        }
    }
}

/// The closed set of torrent action verbs. Each action is its own RPC
/// method; the protocol string doubles as the method name on the wire.
#[derive(Clone, Copy, PartialEq, Eq, Structural, Debug)]
pub enum TorrentAction {
    Start,
    Stop,
    Verify,
    Remove,
    Reannounce,
}

/// The exact method string for each action verb.
pub open spec fn action_chars(a: TorrentAction) -> Seq<char> {
    match a {
        TorrentAction::Start => "torrent-start"@,
        TorrentAction::Stop => "torrent-stop"@,
        TorrentAction::Verify => "torrent-verify"@,
        TorrentAction::Remove => "torrent-remove"@,
        TorrentAction::Reannounce => "torrent-reannounce"@,
    }
}

/// Distinct actions have distinct method strings: with the acceptance
/// contract of [`TorrentAction::from_str`], action strings form a bijection.
pub proof fn lemma_action_chars_injective(a: TorrentAction, b: TorrentAction)
    ensures
        (action_chars(a) == action_chars(b)) == (a == b),
{
    broadcast use vstd::string::group_string_axioms;

    reveal_strlit("torrent-start");
    reveal_strlit("torrent-stop");
    reveal_strlit("torrent-verify");
    reveal_strlit("torrent-remove");
    reveal_strlit("torrent-reannounce");
    assert("torrent-stop"@.len() == 12);
    assert("torrent-start"@.len() == 13);
    assert("torrent-verify"@.len() == 14);
    assert("torrent-remove"@.len() == 14);
    assert("torrent-reannounce"@.len() == 18);
    assert("torrent-verify"@[8] == 'v' && "torrent-remove"@[8] == 'r');
}

impl TorrentAction {
    /// The method string this action serializes to.
    pub fn as_str(&self) -> (r: &'static str)
        ensures
            r@ == action_chars(*self),
    {
        match self {
            TorrentAction::Start => "torrent-start",
            TorrentAction::Stop => "torrent-stop",
            TorrentAction::Verify => "torrent-verify",
            TorrentAction::Remove => "torrent-remove",
            TorrentAction::Reannounce => "torrent-reannounce",
        }
    }

    /// Accepts exactly the five method strings, each back to its action.
    pub fn from_str(s: &str) -> (r: Option<TorrentAction>)
        ensures
            match r {
                Some(a) => action_chars(a) == s@,
                None => forall|a: TorrentAction| action_chars(a) != s@,
            },
    {
        if crate::strutil::str_eq(s, "torrent-start") {
            Some(TorrentAction::Start)
        } else if crate::strutil::str_eq(s, "torrent-stop") {
            Some(TorrentAction::Stop)
        } else if crate::strutil::str_eq(s, "torrent-verify") {
            Some(TorrentAction::Verify)
        } else if crate::strutil::str_eq(s, "torrent-remove") {
            Some(TorrentAction::Remove)
        } else if crate::strutil::str_eq(s, "torrent-reannounce") {
            Some(TorrentAction::Reannounce)
        } else {
            None
        }
    }
}

/// The generic response envelope: `result` is `"success"` or a server
/// error message; `arguments` is the method-specific payload shape.
pub struct RpcResponse<T> {
    pub result: String,
    pub arguments: T,
}

impl<T> RpcResponse<T> {
    /// Logical success of the call: the server set `result` to `"success"`.
    /// Any other value is an application-level error reported by the server.
    pub fn is_success(&self) -> (r: bool)
        ensures
            r == (self.result@ == "success"@),
    {
        crate::strutil::str_eq(self.result.as_str(), "success")
    }
}

/// Success payload of a method that returns no meaningful data.
pub struct Nothing {
}

/// One torrent record: every requestable field, present when the server
/// sent it.
pub struct Torrent {
    pub id: Option<i64>,
    pub name: Option<String>,
    pub status: Option<i64>,
    pub eta: Option<i64>,
    pub error: Option<i64>,
    pub total_size: Option<i64>,
}

/// Payload of a `torrent-get` response: the ordered torrent records.
pub struct Torrents<T> {
    pub torrents: Vec<T>,
}

/// Payload of a `session-get` response: the session settings the model
/// reads.
pub struct SessionGet {
    pub rpc_version: Option<i64>,
    pub version: Option<String>,
}

} // verus!
