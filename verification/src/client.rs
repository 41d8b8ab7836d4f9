//! The RPC client: holds the endpoint and optional credentials, builds the
//! two HTTP exchanges of every call, and turns transport outcomes into
//! typed results. The transport itself is outside: a caller performs each
//! described exchange and hands the outcome back.

use vstd::prelude::*;
use crate::codec::string_ok;
use crate::request::{spec_request_chars, RpcRequest, RpcRequestModel};
use crate::response::{
    decode_response, spec_response_args_first, spec_response_chars, RpcResponseArgument,
};
use crate::types::{
    BasicAuth, Nothing, RpcError, RpcResponse, SessionGet, Torrent, TorrentAction, TorrentGetField,
    Torrents,
};

verus! {

/// A fully described HTTP POST: everything the transport must send.
pub struct HttpRequest {
    /// Target URL: the configured endpoint.
    pub url: String,
    /// Basic-auth credentials to attach, when configured.
    pub auth: Option<BasicAuth>,
    /// Value for the `X-Transmission-Session-Id` header, when one is held.
    pub session_id: Option<String>,
    /// Value for the `Content-Type` header.
    pub content_type: String,
    /// The JSON-encoded request body.
    pub body: String,
}

/// What the transport reports back for one exchange.
pub enum TransportOutcome {
    /// The exchange failed before a response arrived: connection refused,
    /// timeout, broken transport. Carries the transport's message.
    Failed(String),
    /// A response arrived: its status, headers (lowercase names), body.
    Response { status: u16, headers: Vec<(String, String)>, body: String },
}

/// Same credentials, by content.
pub open spec fn auth_like(a: Option<BasicAuth>, b: Option<BasicAuth>) -> bool {
    match a {
        Option::None => b is None,
        Option::Some(x) => match b {
            Option::None => false,
            Option::Some(y) => x.user@ == y.user@ && x.password@ == y.password@,
        },
    }
}

fn clone_auth(a: &Option<BasicAuth>) -> (r: Option<BasicAuth>)
    ensures
        auth_like(r, *a),
{
    match a {
        Option::None => None,
        Option::Some(b) => Some(b.clone()),
    }
}

/// A header list holds a value for a name.
pub open spec fn header_found(hs: Seq<(String, String)>, name: Seq<char>, val: Seq<char>) -> bool {
    exists|k: int| 0 <= k < hs.len() && #[trigger] hs[k].0@ == name && hs[k].1@ == val
}

/// A header list holds no header of the name.
pub open spec fn no_header(hs: Seq<(String, String)>, name: Seq<char>) -> bool {
    forall|k: int| 0 <= k < hs.len() ==> #[trigger] hs[k].0@ != name
}

/// The value of the first header with the given name, if any.
pub fn header_value(headers: &Vec<(String, String)>, name: &str) -> (r: Option<String>)
    ensures
        match r {
            Some(v) => exists|k: int|
                0 <= k < headers@.len() && #[trigger] headers@[k].0@ == name@ && headers@[k].1@
                    == v@ && (forall|m: int| 0 <= m < k ==> headers@[m].0@ != name@),
            None => no_header(headers@, name@),
        },
{
    let n = headers.len();
    let mut k: usize = 0;
    while k < n
        invariant
            n == headers@.len(),
            k <= n,
            forall|m: int| 0 <= m < k ==> #[trigger] headers@[m].0@ != name@,
        decreases n - k,
    {
        if crate::strutil::str_eq(headers[k].0.as_str(), name) {
            let v = headers[k].1.clone();
            return Some(v);
        }
        k += 1;
    }
    None
}

/// The typed client: endpoint and optional credentials, fixed at
/// construction. It builds requests and interprets outcomes; it holds no
/// other state, and no call mutates it.
pub struct TransClient {
    url: String,
    auth: Option<BasicAuth>,
}

impl TransClient {
    /// Spec view of the configured endpoint.
    pub closed spec fn spec_url(&self) -> Seq<char> {
        self.url@
    }

    /// Spec view of the configured credentials.
    pub closed spec fn spec_auth(&self) -> Option<BasicAuth> {
        self.auth
    }

    /// A client for the endpoint with basic-auth credentials.
    pub fn with_auth(url: &str, basic_auth: BasicAuth) -> (c: TransClient)
        ensures
            c.spec_url() == url@,
            c.spec_auth() == Some(basic_auth),
    {
        TransClient { url: url.to_owned(), auth: Some(basic_auth) }
    }

    /// A client for the endpoint without credentials.
    pub fn new(url: &str) -> (c: TransClient)
        ensures
            c.spec_url() == url@,
            c.spec_auth() is None,
    {
        TransClient { url: url.to_owned(), auth: None }
    }

    /// The first exchange of every call: POST a `session-get` request with
    /// no session header, to learn the session id from the response
    /// headers. Credentials ride along exactly when configured.
    pub fn token_request(&self) -> (r: HttpRequest)
        ensures
            r.url@ == self.spec_url(),
            auth_like(r.auth, self.spec_auth()),
            r.session_id is None,
            r.content_type@ == "application/json"@,
            r.body@ == spec_request_chars(RpcRequestModel::SessionGet),
    {
        HttpRequest {
            url: self.url.clone(),
            auth: clone_auth(&self.auth),
            session_id: None,
            content_type: "application/json".to_owned(),
            body: crate::request::encode_request(&RpcRequest::session_get()),
        }
    }

    /// The second exchange: POST the typed request under the session id
    /// obtained first. Credentials ride along exactly when configured.
    pub fn operation_request(&self, session_id: &str, req: &RpcRequest) -> (r: HttpRequest)
        ensures
            r.url@ == self.spec_url(),
            auth_like(r.auth, self.spec_auth()),
            r.session_id matches Some(t) && t@ == session_id@,
            r.content_type@ == "application/json"@,
            r.body@ == spec_request_chars(req@),
    {
        HttpRequest {
            url: self.url.clone(),
            auth: clone_auth(&self.auth),
            session_id: Some(session_id.to_owned()),
            content_type: "application/json".to_owned(),
            body: crate::request::encode_request(req),
        }
    }

    /// The `session-get` operation exchange: pairs with
    /// [`session_get_step`].
    pub fn session_get_request(&self, session_id: &str) -> (r: HttpRequest)
        ensures
            r.url@ == self.spec_url(),
            auth_like(r.auth, self.spec_auth()),
            r.session_id matches Some(t) && t@ == session_id@,
            r.content_type@ == "application/json"@,
            r.body@ == spec_request_chars(RpcRequestModel::SessionGet),
    {
        self.operation_request(session_id, &RpcRequest::session_get())
    }

    /// The `torrent-get` operation exchange: pairs with
    /// [`torrent_get_step`].
    pub fn torrent_get_request(&self, session_id: &str, fields: Vec<TorrentGetField>) -> (r:
        HttpRequest)
        ensures
            r.url@ == self.spec_url(),
            auth_like(r.auth, self.spec_auth()),
            r.session_id matches Some(t) && t@ == session_id@,
            r.content_type@ == "application/json"@,
            r.body@ == spec_request_chars(RpcRequestModel::TorrentGet { fields: fields@ }),
    {
        let ghost fv = fields@;
        let r = self.operation_request(session_id, &RpcRequest::torrent_get(fields));
        r
    }

    /// An action's operation exchange: pairs with [`torrent_action_step`].
    pub fn torrent_action_request(
        &self,
        session_id: &str,
        action: TorrentAction,
        ids: Vec<i64>,
    ) -> (r: HttpRequest)
        ensures
            r.url@ == self.spec_url(),
            auth_like(r.auth, self.spec_auth()),
            r.session_id matches Some(t) && t@ == session_id@,
            r.content_type@ == "application/json"@,
            r.body@ == spec_request_chars(RpcRequestModel::TorrentAction { action, ids: ids@ }),
    {
        let ghost iv = ids@;
        let r = self.operation_request(session_id, &RpcRequest::torrent_action(action, ids));
        r
    }
}

/// Interprets the outcome of the token exchange. A transport failure is a
/// transport error; a response without the session-id header is a protocol
/// error and never yields a token; otherwise the token is exactly the
/// header's value.
pub fn token_step(outcome: TransportOutcome) -> (r: Result<String, RpcError>)
    ensures
        (outcome matches TransportOutcome::Failed(m) ==> r matches Err(e) && e matches
            RpcError::Transport(t) && t@ == m@),
        (outcome matches TransportOutcome::Response { headers, .. } ==> match r {
            Ok(tok) => header_found(headers@, "x-transmission-session-id"@, tok@),
            Err(e) => e is Protocol && no_header(headers@, "x-transmission-session-id"@),
        }),
{
    match outcome {
        TransportOutcome::Failed(m) => Err(RpcError::Transport(m)),
        TransportOutcome::Response { status: _, headers, body: _ } => {
            match header_value(&headers, "x-transmission-session-id") {
                Some(tok) => Ok(tok),
                None => Err(RpcError::Protocol("missing session id header".to_owned())),
            }
        },
    }
}

/// Interprets the outcome of the operation exchange against the expected
/// payload shape. A transport failure is a transport error before any
/// decoding; a body of any shape other than the envelope around the
/// expected payload — in either envelope member order — is a decode error
/// carrying the raw body; otherwise the typed envelope comes back, the
/// body exactly one of its two wire texts.
pub fn operation_step<T: RpcResponseArgument>(outcome: TransportOutcome) -> (r: Result<
    RpcResponse<T>,
    RpcError,
>)
    ensures
        (outcome matches TransportOutcome::Failed(m) ==> r matches Err(e) && e matches
            RpcError::Transport(t) && t@ == m@),
        (outcome matches TransportOutcome::Response { body, .. } ==> match r {
            Ok(resp) => (body@ == spec_response_chars(
                resp.result@,
                resp.arguments.spec_args_chars(),
            ) || body@ == spec_response_args_first(
                resp.result@,
                resp.arguments.spec_args_chars(),
            )) && string_ok(resp.result@) && resp.arguments.args_ok(),
            Err(e) => e matches RpcError::Decode(raw) && raw@ == body@ && (forall|
                rs: Seq<char>,
                a: T,
            |
                !(string_ok(rs) && a.args_ok() && (body@ == spec_response_chars(
                    rs,
                    a.spec_args_chars(),
                ) || body@ == spec_response_args_first(rs, a.spec_args_chars())))),
        }),
{
    match outcome {
        TransportOutcome::Failed(m) => Err(RpcError::Transport(m)),
        TransportOutcome::Response { status: _, headers: _, body } => {
            decode_response::<T>(body.as_str())
        },
    }
}

/// The `session-get` exchange under its one legal response shape: the
/// typed pairing of method and shape, fixed before any exchange.
pub fn session_get_step(outcome: TransportOutcome) -> (r: Result<
    RpcResponse<SessionGet>,
    RpcError,
>)
    ensures
        (outcome matches TransportOutcome::Failed(m) ==> r matches Err(e) && e matches
            RpcError::Transport(t) && t@ == m@),
        (outcome matches TransportOutcome::Response { body, .. } ==> match r {
            Ok(resp) => (body@ == spec_response_chars(
                resp.result@,
                resp.arguments.spec_args_chars(),
            ) || body@ == spec_response_args_first(
                resp.result@,
                resp.arguments.spec_args_chars(),
            )) && string_ok(resp.result@) && resp.arguments.args_ok(),
            Err(e) => e matches RpcError::Decode(raw) && raw@ == body@ && (forall|
                rs: Seq<char>,
                a: SessionGet,
            |
                !(string_ok(rs) && a.args_ok() && (body@ == spec_response_chars(
                    rs,
                    a.spec_args_chars(),
                ) || body@ == spec_response_args_first(rs, a.spec_args_chars())))),
        }),
{
    operation_step::<SessionGet>(outcome)
}

/// The `torrent-get` exchange under its one legal response shape.
pub fn torrent_get_step(outcome: TransportOutcome) -> (r: Result<
    RpcResponse<Torrents<Torrent>>,
    RpcError,
>)
    ensures
        (outcome matches TransportOutcome::Failed(m) ==> r matches Err(e) && e matches
            RpcError::Transport(t) && t@ == m@),
        (outcome matches TransportOutcome::Response { body, .. } ==> match r {
            Ok(resp) => (body@ == spec_response_chars(
                resp.result@,
                resp.arguments.spec_args_chars(),
            ) || body@ == spec_response_args_first(
                resp.result@,
                resp.arguments.spec_args_chars(),
            )) && string_ok(resp.result@) && resp.arguments.args_ok(),
            Err(e) => e matches RpcError::Decode(raw) && raw@ == body@ && (forall|
                rs: Seq<char>,
                a: Torrents<Torrent>,
            |
                !(string_ok(rs) && a.args_ok() && (body@ == spec_response_chars(
                    rs,
                    a.spec_args_chars(),
                ) || body@ == spec_response_args_first(rs, a.spec_args_chars())))),
        }),
{
    operation_step::<Torrents<Torrent>>(outcome)
}

/// A torrent action's exchange under its one legal response shape.
pub fn torrent_action_step(outcome: TransportOutcome) -> (r: Result<
    RpcResponse<Nothing>,
    RpcError,
>)
    ensures
        (outcome matches TransportOutcome::Failed(m) ==> r matches Err(e) && e matches
            RpcError::Transport(t) && t@ == m@),
        (outcome matches TransportOutcome::Response { body, .. } ==> match r {
            Ok(resp) => (body@ == spec_response_chars(
                resp.result@,
                resp.arguments.spec_args_chars(),
            ) || body@ == spec_response_args_first(
                resp.result@,
                resp.arguments.spec_args_chars(),
            )) && string_ok(resp.result@) && resp.arguments.args_ok(),
            Err(e) => e matches RpcError::Decode(raw) && raw@ == body@ && (forall|
                rs: Seq<char>,
                a: Nothing,
            |
                !(string_ok(rs) && a.args_ok() && (body@ == spec_response_chars(
                    rs,
                    a.spec_args_chars(),
                ) || body@ == spec_response_args_first(rs, a.spec_args_chars())))),
        }),
{
    operation_step::<Nothing>(outcome)
}

} // verus!
