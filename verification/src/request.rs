//! The request envelope: one variant per supported RPC method, its exact
//! wire text, and the proof that the wire text determines the request.

use vstd::prelude::*;
use vstd::string::StringExecFns;
use crate::codec::{lit_at, str_at, string_ok, quoted_chars, match_lit};
use crate::numbers::{spec_int_chars, int_at, is_digit};
use crate::types::{TorrentGetField, TorrentAction, field_chars, action_chars};

verus! {

/// A typed RPC request: the method and its method-specific arguments.
pub enum RpcRequest {
    /// `session-get`: no arguments.
    SessionGet,
    /// `torrent-get`: the fields to return for each torrent.
    TorrentGet { fields: Vec<TorrentGetField> },
    /// A torrent action: the verb is the method, the ids its targets.
    TorrentAction { action: TorrentAction, ids: Vec<i64> },
}

/// Mathematical model of a request.
pub enum RpcRequestModel {
    SessionGet,
    TorrentGet { fields: Seq<TorrentGetField> },
    TorrentAction { action: TorrentAction, ids: Seq<i64> },
}

impl View for RpcRequest {
    type V = RpcRequestModel;

    open spec fn view(&self) -> RpcRequestModel {
        match self {
            RpcRequest::SessionGet => RpcRequestModel::SessionGet,
            RpcRequest::TorrentGet { fields } => RpcRequestModel::TorrentGet {
                fields: fields@,
            },
            RpcRequest::TorrentAction { action, ids } => RpcRequestModel::TorrentAction {
                action: *action,
                ids: ids@,
            },
        }
    }
}

/// Wire text of a `fields` list: quoted field strings, comma separated.
pub open spec fn spec_fields_chars(fs: Seq<TorrentGetField>) -> Seq<char>
    decreases fs.len(),
{
    if fs.len() == 0 {
        Seq::empty()
    } else if fs.len() == 1 {
        quoted_chars(field_chars(fs[0]))
    } else {
        quoted_chars(field_chars(fs[0])) + seq![','] + spec_fields_chars(fs.drop_first())
    }
}

/// Wire text of an `ids` list: decimal integers, comma separated.
pub open spec fn spec_ids_chars(ids: Seq<i64>) -> Seq<char>
    decreases ids.len(),
{
    if ids.len() == 0 {
        Seq::empty()
    } else if ids.len() == 1 {
        spec_int_chars(ids[0] as int)
    } else {
        spec_int_chars(ids[0] as int) + seq![','] + spec_ids_chars(ids.drop_first())
    }
}

/// The exact wire text of a request.
pub open spec fn spec_request_chars(v: RpcRequestModel) -> Seq<char> {
    match v {
        RpcRequestModel::SessionGet => "{\"method\":\"session-get\",\"arguments\":{}}"@,
        RpcRequestModel::TorrentGet { fields } => "{\"method\":\"torrent-get\",\"arguments\":{\"fields\":["@
            + spec_fields_chars(fields) + "]}}"@,
        RpcRequestModel::TorrentAction { action, ids } => "{\"method\":\""@ + action_chars(action)
            + "\",\"arguments\":{\"ids\":["@ + spec_ids_chars(ids) + "]}}"@,
    }
}

/// The method string of a request.
pub open spec fn spec_method_chars(v: RpcRequestModel) -> Seq<char> {
    match v {
        RpcRequestModel::SessionGet => "session-get"@,
        RpcRequestModel::TorrentGet { .. } => "torrent-get"@,
        RpcRequestModel::TorrentAction { action, .. } => action_chars(action),
    }
}

/// Ground facts about the punctuation literals of the wire form.
pub proof fn lemma_punct_lits()
    ensures
        "\""@ == seq!['"'],
        ","@ == seq![','],
        "]}}"@.len() == 3,
        "]}}"@[0] == ']',
        "]}}"@ == seq![']', '}', '}'],
{
    reveal_strlit("\"");
    reveal_strlit(",");
    reveal_strlit("]}}");
    assert("\""@ =~= seq!['"']);
    assert(","@ =~= seq![',']);
    assert("]}}"@ =~= seq![']', '}', '}']);
}

/// Ground facts about the fixed envelope heads.
pub proof fn lemma_head_lits()
    ensures
        "{\"method\":\"session-get\",\"arguments\":{}}"@.len() == 39,
        "{\"method\":\"session-get\",\"arguments\":{}}"@[11] == 's',
        "{\"method\":\"torrent-get\",\"arguments\":{\"fields\":["@.len() == 47,
        "{\"method\":\"torrent-get\",\"arguments\":{\"fields\":["@[11] == 't',
        "{\"method\":\"torrent-get\",\"arguments\":{\"fields\":["@[19] == 'g',
        "{\"method\":\""@.len() == 11,
{
    reveal_strlit("{\"method\":\"session-get\",\"arguments\":{}}");
    reveal_strlit("{\"method\":\"torrent-get\",\"arguments\":{\"fields\":[");
    reveal_strlit("{\"method\":\"");
}

/// No field string holds a quote or a backslash, so each can stand
/// verbatim between quotes on the wire.
pub proof fn lemma_field_chars_ok(f: TorrentGetField)
    ensures
        string_ok(field_chars(f)),
        field_chars(f).len() >= 2,
{
    reveal_strlit("id");
    reveal_strlit("name");
    reveal_strlit("status");
    reveal_strlit("eta");
    reveal_strlit("error");
    reveal_strlit("total-size");
}

/// Head facts about every action method string.
pub proof fn lemma_action_head(a: TorrentAction)
    ensures
        action_chars(a).len() >= 12,
        action_chars(a)[0] == 't',
        action_chars(a)[8] != 'g',
{
    reveal_strlit("torrent-start");
    reveal_strlit("torrent-stop");
    reveal_strlit("torrent-verify");
    reveal_strlit("torrent-remove");
    reveal_strlit("torrent-reannounce");
}

/// Distinct actions diverge at some shared index of their method strings.
pub proof fn lemma_action_diverge(a1: TorrentAction, a2: TorrentAction)
    requires
        a1 != a2,
    ensures
        exists|k: int|
            0 <= k < action_chars(a1).len() && k < action_chars(a2).len() && action_chars(a1)[k]
                != action_chars(a2)[k],
{
    reveal_strlit("torrent-start");
    reveal_strlit("torrent-stop");
    reveal_strlit("torrent-verify");
    reveal_strlit("torrent-remove");
    reveal_strlit("torrent-reannounce");
    let c1 = action_chars(a1);
    let c2 = action_chars(a2);
    if c1.len() != c2.len() {
        if c1[8] != c2[8] {
            assert(0 <= 8 < c1.len() && 8 < c2.len() && c1[8] != c2[8]);
        } else {
            assert(0 <= 10 < c1.len() && 10 < c2.len() && c1[10] != c2[10]);
        }
    } else {
        if c1[8] != c2[8] {
            assert(0 <= 8 < c1.len() && 8 < c2.len() && c1[8] != c2[8]);
        } else {
            assert(0 <= 10 < c1.len() && 10 < c2.len() && c1[10] != c2[10]);
        }
    }
}

/// The full action head literal splits into the fixed parts around the
/// method string.
pub open spec fn ta_prefix_chars(a: TorrentAction) -> Seq<char> {
    match a {
        TorrentAction::Start => "{\"method\":\"torrent-start\",\"arguments\":{\"ids\":["@,
        TorrentAction::Stop => "{\"method\":\"torrent-stop\",\"arguments\":{\"ids\":["@,
        TorrentAction::Verify => "{\"method\":\"torrent-verify\",\"arguments\":{\"ids\":["@,
        TorrentAction::Remove => "{\"method\":\"torrent-remove\",\"arguments\":{\"ids\":["@,
        TorrentAction::Reannounce => "{\"method\":\"torrent-reannounce\",\"arguments\":{\"ids\":["@,
    }
}

pub proof fn lemma_ta_prefix_eq(a: TorrentAction)
    ensures
        ta_prefix_chars(a) == "{\"method\":\""@ + action_chars(a) + "\",\"arguments\":{\"ids\":["@,
{
    reveal_strlit("{\"method\":\"");
    reveal_strlit("\",\"arguments\":{\"ids\":[");
    reveal_strlit("torrent-start");
    reveal_strlit("torrent-stop");
    reveal_strlit("torrent-verify");
    reveal_strlit("torrent-remove");
    reveal_strlit("torrent-reannounce");
    reveal_strlit("{\"method\":\"torrent-start\",\"arguments\":{\"ids\":[");
    reveal_strlit("{\"method\":\"torrent-stop\",\"arguments\":{\"ids\":[");
    reveal_strlit("{\"method\":\"torrent-verify\",\"arguments\":{\"ids\":[");
    reveal_strlit("{\"method\":\"torrent-remove\",\"arguments\":{\"ids\":[");
    reveal_strlit("{\"method\":\"torrent-reannounce\",\"arguments\":{\"ids\":[");
    match a {
        TorrentAction::Start => {
            assert(ta_prefix_chars(a) =~= "{\"method\":\""@ + action_chars(a)
                + "\",\"arguments\":{\"ids\":["@);
        },
        TorrentAction::Stop => {
            assert(ta_prefix_chars(a) =~= "{\"method\":\""@ + action_chars(a)
                + "\",\"arguments\":{\"ids\":["@);
        },
        TorrentAction::Verify => {
            assert(ta_prefix_chars(a) =~= "{\"method\":\""@ + action_chars(a)
                + "\",\"arguments\":{\"ids\":["@);
        },
        TorrentAction::Remove => {
            assert(ta_prefix_chars(a) =~= "{\"method\":\""@ + action_chars(a)
                + "\",\"arguments\":{\"ids\":["@);
        },
        TorrentAction::Reannounce => {
            assert(ta_prefix_chars(a) =~= "{\"method\":\""@ + action_chars(a)
                + "\",\"arguments\":{\"ids\":["@);
        },
    }
}

/// Equal left parts cancel in a concatenation.
pub proof fn lemma_concat_cancel(a: Seq<char>, b: Seq<char>, c: Seq<char>)
    requires
        a + b == a + c,
    ensures
        b == c,
{
    assert((a + b).len() == a.len() + b.len());
    assert((a + c).len() == a.len() + c.len());
    assert((a + b).len() == (a + c).len());
    assert(b.len() == c.len());
    assert forall|k: int| 0 <= k < b.len() implies b[k] == c[k] by {
        let m = a.len() as int + k;
        assert((a + b)[m] == b[m - a.len() as int]);
        assert((a + c)[m] == c[m - a.len() as int]);
        assert(m - a.len() as int == k);
    }
    assert(b =~= c);
}

/// Equal right parts cancel in a concatenation.
pub proof fn lemma_concat_cancel_right(a: Seq<char>, b: Seq<char>, c: Seq<char>)
    requires
        a + c == b + c,
    ensures
        a == b,
{
    assert((a + c).len() == a.len() + c.len());
    assert((b + c).len() == b.len() + c.len());
    assert(a.len() == b.len());
    assert forall|k: int| 0 <= k < a.len() implies a[k] == b[k] by {
        assert((a + c)[k] == a[k]);
        assert((b + c)[k] == b[k]);
    }
    assert(a =~= b);
}

/// Head decomposition of a nonempty `fields` tail: the first field stands
/// quoted at `i`, and after it either the closing punctuation or a comma
/// and the rest.
pub proof fn lemma_fields_tail_head(g: Seq<char>, i: int, fs: Seq<TorrentGetField>)
    requires
        0 <= i <= g.len(),
        g.subrange(i, g.len() as int) == spec_fields_chars(fs) + "]}}"@,
        fs.len() > 0,
    ensures
        str_at(g, i + 1, field_chars(fs[0])),
        g[i] == '"',
        ({
            let j = i + 2 + field_chars(fs[0]).len();
            &&& j <= g.len()
            &&& (fs.len() == 1 ==> lit_at(g, j, "]}}"@) && j + 3 == g.len())
            &&& (fs.len() > 1 ==> lit_at(g, j, ","@) && g.subrange(j + 1, g.len() as int)
                == spec_fields_chars(fs.drop_first()) + "]}}"@ && fs.drop_first().len() > 0)
        }),
{
    lemma_punct_lits();
    lemma_field_chars_ok(fs[0]);
    let fc = field_chars(fs[0]);
    let q = quoted_chars(fc);
    let n = g.len() as int;
    let rem = g.subrange(i, n);
    assert(i + rem.len() == n);
    if fs.len() == 1 {
        assert(rem =~= q + "]}}"@);
        assert(g.subrange(i, i + rem.len()) == rem);
        assert(lit_at(g, i, q + "]}}"@));
        crate::codec::lemma_lit_at_concat(g, i, q, "]}}"@);
        crate::codec::lemma_quoted_str_at(g, i, fc);
        assert(i + q.len() == i + 2 + fc.len());
    } else {
        let y = spec_fields_chars(fs.drop_first()) + "]}}"@;
        let t = seq![','] + y;
        assert(rem =~= q + t);
        assert(g.subrange(i, i + rem.len()) == rem);
        assert(lit_at(g, i, q + t));
        crate::codec::lemma_lit_at_concat(g, i, q, t);
        crate::codec::lemma_quoted_str_at(g, i, fc);
        let j = i + q.len() as int;
        crate::codec::lemma_lit_at_concat(g, j, seq![','], y);
        assert(lit_at(g, j, ","@));
        assert(g.subrange(j + 1, j + 1 + y.len()) == y);
        assert(j + 1 + y.len() == n);
        assert(g.subrange(j + 1, n) == y);
    }
}

/// Head decomposition of a nonempty `ids` tail.
pub proof fn lemma_ids_tail_head(g: Seq<char>, i: int, ids: Seq<i64>)
    requires
        0 <= i <= g.len(),
        g.subrange(i, g.len() as int) == spec_ids_chars(ids) + "]}}"@,
        ids.len() > 0,
    ensures
        int_at(g, i, ids[0] as int),
        ({
            let j = i + spec_int_chars(ids[0] as int).len();
            &&& j <= g.len()
            &&& (ids.len() == 1 ==> lit_at(g, j, "]}}"@) && j + 3 == g.len())
            &&& (ids.len() > 1 ==> lit_at(g, j, ","@) && g.subrange(j + 1, g.len() as int)
                == spec_ids_chars(ids.drop_first()) + "]}}"@ && ids.drop_first().len() > 0)
        }),
{
    lemma_punct_lits();
    let c = spec_int_chars(ids[0] as int);
    let n = g.len() as int;
    let rem = g.subrange(i, n);
    assert(i + rem.len() == n);
    if ids.len() == 1 {
        assert(rem =~= c + "]}}"@);
        assert(g.subrange(i, i + rem.len()) == rem);
        assert(lit_at(g, i, c + "]}}"@));
        crate::codec::lemma_lit_at_concat(g, i, c, "]}}"@);
        let j = i + c.len() as int;
        assert(g[j] == g.subrange(j, j + 3)[0]);
        assert(g[j] == ']');
        assert(!is_digit(']'));
        assert(int_at(g, i, ids[0] as int));
    } else {
        let y = spec_ids_chars(ids.drop_first()) + "]}}"@;
        let t = seq![','] + y;
        assert(rem =~= c + t);
        assert(g.subrange(i, i + rem.len()) == rem);
        assert(lit_at(g, i, c + t));
        crate::codec::lemma_lit_at_concat(g, i, c, t);
        let j = i + c.len() as int;
        assert(g[j] == g.subrange(j, j + t.len())[0]);
        assert(g[j] == ',');
        assert(!is_digit(','));
        assert(int_at(g, i, ids[0] as int));
        crate::codec::lemma_lit_at_concat(g, j, seq![','], y);
        assert(lit_at(g, j, ","@));
        assert(g.subrange(j + 1, j + 1 + y.len()) == y);
        assert(j + 1 + y.len() == n);
    }
}

/// A `fields` tail determines the field list.
pub proof fn lemma_fields_tail_unique(fs1: Seq<TorrentGetField>, fs2: Seq<TorrentGetField>)
    requires
        spec_fields_chars(fs1) + "]}}"@ == spec_fields_chars(fs2) + "]}}"@,
    ensures
        fs1 == fs2,
    decreases fs1.len(),
{
    lemma_punct_lits();
    let x = spec_fields_chars(fs1) + "]}}"@;
    assert(x.subrange(0, x.len() as int) =~= x);
    if fs1.len() == 0 && fs2.len() == 0 {
        assert(fs1 =~= fs2);
    } else if fs1.len() == 0 {
        lemma_fields_tail_head(x, 0, fs2);
        assert(x[0] == (spec_fields_chars(fs1) + "]}}"@)[0]);
        assert(x[0] == ']');
        assert(false);
    } else if fs2.len() == 0 {
        lemma_fields_tail_head(x, 0, fs1);
        assert(x[0] == (spec_fields_chars(fs2) + "]}}"@)[0]);
        assert(x[0] == ']');
        assert(false);
    } else {
        lemma_fields_tail_head(x, 0, fs1);
        lemma_fields_tail_head(x, 0, fs2);
        crate::codec::lemma_str_at_unique(x, 1, field_chars(fs1[0]), field_chars(fs2[0]));
        crate::types::lemma_field_chars_injective(fs1[0], fs2[0]);
        assert(fs1[0] == fs2[0]);
        let j = 2 + field_chars(fs1[0]).len() as int;
        if fs1.len() == 1 && fs2.len() == 1 {
            assert(fs1 =~= fs2);
        } else if fs1.len() == 1 {
            assert(x[j] == ']');
            assert(x[j] == ',');
            assert(false);
        } else if fs2.len() == 1 {
            assert(x[j] == ']');
            assert(x[j] == ',');
            assert(false);
        } else {
            assert(x.subrange(j + 1, x.len() as int) == spec_fields_chars(fs1.drop_first())
                + "]}}"@);
            assert(x.subrange(j + 1, x.len() as int) == spec_fields_chars(fs2.drop_first())
                + "]}}"@);
            lemma_fields_tail_unique(fs1.drop_first(), fs2.drop_first());
            assert(fs1.len() == fs2.len());
            assert forall|k: int| 0 <= k < fs1.len() implies fs1[k] == fs2[k] by {
                if k > 0 {
                    assert(fs1[k] == fs1.drop_first()[k - 1]);
                    assert(fs2[k] == fs2.drop_first()[k - 1]);
                }
            }
            assert(fs1 =~= fs2);
        }
    }
}

/// An `ids` tail determines the id list.
pub proof fn lemma_ids_tail_unique(ids1: Seq<i64>, ids2: Seq<i64>)
    requires
        spec_ids_chars(ids1) + "]}}"@ == spec_ids_chars(ids2) + "]}}"@,
    ensures
        ids1 == ids2,
    decreases ids1.len(),
{
    lemma_punct_lits();
    let x = spec_ids_chars(ids1) + "]}}"@;
    assert(x.subrange(0, x.len() as int) =~= x);
    if ids1.len() == 0 && ids2.len() == 0 {
        assert(ids1 =~= ids2);
    } else if ids1.len() == 0 {
        lemma_ids_tail_head(x, 0, ids2);
        crate::numbers::lemma_nat_chars_canonical(
            if ids2[0] < 0 {
                (-(ids2[0] as int)) as nat
            } else {
                ids2[0] as nat
            },
        );
        let c = spec_int_chars(ids2[0] as int);
        assert(c[0] == x.subrange(0, c.len() as int)[0]);
        assert(x[0] == (spec_ids_chars(ids1) + "]}}"@)[0]);
        assert(x[0] == ']');
        assert(c[0] == '-' || is_digit(c[0]));
        assert(false);
    } else if ids2.len() == 0 {
        lemma_ids_tail_head(x, 0, ids1);
        crate::numbers::lemma_nat_chars_canonical(
            if ids1[0] < 0 {
                (-(ids1[0] as int)) as nat
            } else {
                ids1[0] as nat
            },
        );
        let c = spec_int_chars(ids1[0] as int);
        assert(c[0] == x.subrange(0, c.len() as int)[0]);
        assert(x[0] == (spec_ids_chars(ids2) + "]}}"@)[0]);
        assert(x[0] == ']');
        assert(c[0] == '-' || is_digit(c[0]));
        assert(false);
    } else {
        lemma_ids_tail_head(x, 0, ids1);
        lemma_ids_tail_head(x, 0, ids2);
        crate::numbers::lemma_int_at_unique(x, 0, ids1[0] as int, ids2[0] as int);
        assert(ids1[0] == ids2[0]);
        let j = spec_int_chars(ids1[0] as int).len() as int;
        if ids1.len() == 1 && ids2.len() == 1 {
            assert(ids1 =~= ids2);
        } else if ids1.len() == 1 {
            assert(x[j] == x.subrange(j, j + 3)[0]);
            assert(x[j] == ']');
            assert(x[j] == x.subrange(j, j + 1)[0]);
            assert(x[j] == ',');
            assert(false);
        } else if ids2.len() == 1 {
            assert(x[j] == x.subrange(j, j + 3)[0]);
            assert(x[j] == ']');
            assert(x[j] == x.subrange(j, j + 1)[0]);
            assert(x[j] == ',');
            assert(false);
        } else {
            assert(x.subrange(j + 1, x.len() as int) == spec_ids_chars(ids1.drop_first())
                + "]}}"@);
            assert(x.subrange(j + 1, x.len() as int) == spec_ids_chars(ids2.drop_first())
                + "]}}"@);
            lemma_ids_tail_unique(ids1.drop_first(), ids2.drop_first());
            assert(ids1.len() == ids2.len());
            assert forall|k: int| 0 <= k < ids1.len() implies ids1[k] == ids2[k] by {
                if k > 0 {
                    assert(ids1[k] == ids1.drop_first()[k - 1]);
                    assert(ids2[k] == ids2.drop_first()[k - 1]);
                }
            }
            assert(ids1 =~= ids2);
        }
    }
}

/// Reshape of the action wire text around its three fixed parts.
pub proof fn lemma_ta_shape(action: TorrentAction, ids: Seq<i64>)
    ensures
        spec_request_chars(RpcRequestModel::TorrentAction { action, ids }) == ta_prefix_chars(
            action,
        ) + (spec_ids_chars(ids) + "]}}"@),
        spec_request_chars(RpcRequestModel::TorrentAction { action, ids }) == "{\"method\":\""@ + (
        action_chars(action) + ("\",\"arguments\":{\"ids\":["@ + (spec_ids_chars(ids)
            + "]}}"@))),
{
    lemma_ta_prefix_eq(action);
    let s = spec_request_chars(RpcRequestModel::TorrentAction { action, ids });
    assert(s =~= ta_prefix_chars(action) + (spec_ids_chars(ids) + "]}}"@));
    assert(s =~= "{\"method\":\""@ + (action_chars(action) + ("\",\"arguments\":{\"ids\":["@ + (
    spec_ids_chars(ids) + "]}}"@))));
}

/// Reshape of the `torrent-get` wire text around its fixed head.
pub proof fn lemma_tg_shape(fields: Seq<TorrentGetField>)
    ensures
        spec_request_chars(RpcRequestModel::TorrentGet { fields })
            == "{\"method\":\"torrent-get\",\"arguments\":{\"fields\":["@ + (spec_fields_chars(
            fields,
        ) + "]}}"@),
{
    let s = spec_request_chars(RpcRequestModel::TorrentGet { fields });
    assert(s =~= "{\"method\":\"torrent-get\",\"arguments\":{\"fields\":["@ + (spec_fields_chars(
        fields,
    ) + "]}}"@));
}

/// The wire text of a request pins the request: the encoding is injective.
pub proof fn lemma_request_chars_injective(v1: RpcRequestModel, v2: RpcRequestModel)
    requires
        spec_request_chars(v1) == spec_request_chars(v2),
    ensures
        v1 == v2,
{
    lemma_head_lits();
    let s = spec_request_chars(v1);
    match v1 {
        RpcRequestModel::SessionGet => {
            match v2 {
                RpcRequestModel::SessionGet => {
                },
                RpcRequestModel::TorrentGet { fields } => {
                    lemma_tg_shape(fields);
                    assert(s[11] == 's');
                    assert(s[11] == 't');
                    assert(false);
                },
                RpcRequestModel::TorrentAction { action, ids } => {
                    lemma_ta_shape(action, ids);
                    lemma_action_head(action);
                    assert(s[11] == 's');
                    assert(s[11] == action_chars(action)[0]);
                    assert(false);
                },
            }
        },
        RpcRequestModel::TorrentGet { fields } => {
            let f1 = fields;
            lemma_tg_shape(f1);
            match v2 {
                RpcRequestModel::SessionGet => {
                    assert(s[11] == 't');
                    assert(s[11] == 's');
                    assert(false);
                },
                RpcRequestModel::TorrentGet { fields: f2 } => {
                    lemma_tg_shape(f2);
                    lemma_concat_cancel(
                        "{\"method\":\"torrent-get\",\"arguments\":{\"fields\":["@,
                        spec_fields_chars(f1) + "]}}"@,
                        spec_fields_chars(f2) + "]}}"@,
                    );
                    lemma_fields_tail_unique(f1, f2);
                },
                RpcRequestModel::TorrentAction { action, ids } => {
                    lemma_ta_shape(action, ids);
                    lemma_action_head(action);
                    assert(s[19] == 'g');
                    let y = action_chars(action) + ("\",\"arguments\":{\"ids\":["@ + (
                    spec_ids_chars(ids) + "]}}"@));
                    assert(s[19] == y[8]);
                    assert(y[8] == action_chars(action)[8]);
                    assert(false);
                },
            }
        },
        RpcRequestModel::TorrentAction { action: a1, ids: ids1 } => {
            lemma_ta_shape(a1, ids1);
            lemma_action_head(a1);
            match v2 {
                RpcRequestModel::SessionGet => {
                    assert(s[11] == action_chars(a1)[0]);
                    assert(s[11] == 's');
                    assert(false);
                },
                RpcRequestModel::TorrentGet { fields } => {
                    lemma_tg_shape(fields);
                    assert(s[19] == 'g');
                    let y = action_chars(a1) + ("\",\"arguments\":{\"ids\":["@ + (spec_ids_chars(
                        ids1,
                    ) + "]}}"@));
                    assert(s[19] == y[8]);
                    assert(y[8] == action_chars(a1)[8]);
                    assert(false);
                },
                RpcRequestModel::TorrentAction { action: a2, ids: ids2 } => {
                    lemma_ta_shape(a2, ids2);
                    lemma_action_head(a2);
                    if a1 != a2 {
                        lemma_action_diverge(a1, a2);
                        let k = choose|k: int|
                            0 <= k < action_chars(a1).len() && k < action_chars(a2).len()
                                && action_chars(a1)[k] != action_chars(a2)[k];
                        let y1 = action_chars(a1) + ("\",\"arguments\":{\"ids\":["@ + (
                        spec_ids_chars(ids1) + "]}}"@));
                        let y2 = action_chars(a2) + ("\",\"arguments\":{\"ids\":["@ + (
                        spec_ids_chars(ids2) + "]}}"@));
                        assert(s[11 + k] == y1[k]);
                        assert(s[11 + k] == y2[k]);
                        assert(y1[k] == action_chars(a1)[k]);
                        assert(y2[k] == action_chars(a2)[k]);
                        assert(false);
                    } else {
                        lemma_concat_cancel(
                            ta_prefix_chars(a1),
                            spec_ids_chars(ids1) + "]}}"@,
                            spec_ids_chars(ids2) + "]}}"@,
                        );
                        lemma_ids_tail_unique(ids1, ids2);
                    }
                },
            }
        },
    }
}

/// What a piece of wire text means: the one request it encodes, if any.
pub open spec fn spec_decode_request(s: Seq<char>) -> Option<RpcRequestModel> {
    if exists|v: RpcRequestModel| spec_request_chars(v) == s {
        Some(choose|v: RpcRequestModel| spec_request_chars(v) == s)
    } else {
        None
    }
}

/// Law: encoding a request and decoding the text back yields the same
/// method and argument content — the request envelope round-trips.
pub proof fn lemma_request_round_trip(v: RpcRequestModel)
    ensures
        spec_decode_request(spec_request_chars(v)) == Some(v),
{
    let s = spec_request_chars(v);
    assert(spec_request_chars(v) == s);
    let w = choose|w: RpcRequestModel| spec_request_chars(w) == s;
    lemma_request_chars_injective(w, v);
}

impl RpcRequest {
    /// The `session-get` request.
    pub fn session_get() -> (r: RpcRequest)
        ensures
            r@ == RpcRequestModel::SessionGet,
    {
        RpcRequest::SessionGet
    }

    /// The `torrent-get` request for the given fields.
    pub fn torrent_get(fields: Vec<TorrentGetField>) -> (r: RpcRequest)
        ensures
            r@ == (RpcRequestModel::TorrentGet { fields: fields@ }),
    {
        RpcRequest::TorrentGet { fields }
    }

    /// The action request for the given verb and target ids.
    pub fn torrent_action(action: TorrentAction, ids: Vec<i64>) -> (r: RpcRequest)
        ensures
            r@ == (RpcRequestModel::TorrentAction { action, ids: ids@ }),
    {
        RpcRequest::TorrentAction { action, ids }
    }

    /// The method string this request is sent under.
    pub fn method_name(&self) -> (r: &'static str)
        ensures
            r@ == spec_method_chars(self@),
    {
        match self {
            RpcRequest::SessionGet => "session-get",
            RpcRequest::TorrentGet { .. } => "torrent-get",
            RpcRequest::TorrentAction { action, .. } => action.as_str(),
        }
    }
}

fn append_fields_from(s: &mut String, fields: &Vec<TorrentGetField>, k: usize)
    requires
        k <= fields@.len(),
    ensures
        final(s)@ == old(s)@ + spec_fields_chars(fields@.skip(k as int)),
    decreases fields@.len() - k,
{
    proof {
        lemma_punct_lits();
    }
    if k == fields.len() {
        proof {
            assert(fields@.skip(k as int) =~= Seq::<TorrentGetField>::empty());
            assert(s@ =~= s@ + spec_fields_chars(fields@.skip(k as int)));
        }
    } else {
        let ghost tail = fields@.skip(k as int);
        proof {
            assert(tail[0] == fields@[k as int]);
        }
        s.append("\"");
        s.append(fields[k].as_str());
        s.append("\"");
        if k + 1 == fields.len() {
            proof {
                assert(tail.len() == 1);
                assert(spec_fields_chars(tail) == quoted_chars(field_chars(tail[0])));
                assert(s@ =~= old(s)@ + spec_fields_chars(tail));
            }
        } else {
            s.append(",");
            append_fields_from(s, fields, k + 1);
            proof {
                assert(tail.drop_first() =~= fields@.skip(k as int + 1));
                assert(spec_fields_chars(tail) == quoted_chars(field_chars(tail[0])) + seq![',']
                    + spec_fields_chars(tail.drop_first()));
                assert(s@ =~= old(s)@ + spec_fields_chars(tail));
            }
        }
    }
}

fn append_ids_from(s: &mut String, ids: &Vec<i64>, k: usize)
    requires
        k <= ids@.len(),
    ensures
        final(s)@ == old(s)@ + spec_ids_chars(ids@.skip(k as int)),
    decreases ids@.len() - k,
{
    proof {
        lemma_punct_lits();
    }
    if k == ids.len() {
        proof {
            assert(ids@.skip(k as int) =~= Seq::<i64>::empty());
            assert(s@ =~= s@ + spec_ids_chars(ids@.skip(k as int)));
        }
    } else {
        let ghost tail = ids@.skip(k as int);
        proof {
            assert(tail[0] == ids@[k as int]);
        }
        crate::numbers::append_i64(s, ids[k]);
        if k + 1 == ids.len() {
            proof {
                assert(tail.len() == 1);
                assert(spec_ids_chars(tail) == spec_int_chars(tail[0] as int));
                assert(s@ =~= old(s)@ + spec_ids_chars(tail));
            }
        } else {
            s.append(",");
            append_ids_from(s, ids, k + 1);
            proof {
                assert(tail.drop_first() =~= ids@.skip(k as int + 1));
                assert(spec_ids_chars(tail) == spec_int_chars(tail[0] as int) + seq![',']
                    + spec_ids_chars(tail.drop_first()));
                assert(s@ =~= old(s)@ + spec_ids_chars(tail));
            }
        }
    }
}

/// Renders a request as its exact wire text.
pub fn encode_request(req: &RpcRequest) -> (out: String)
    ensures
        out@ == spec_request_chars(req@),
{
    let mut s = String::new();
    match req {
        RpcRequest::SessionGet => {
            s.append("{\"method\":\"session-get\",\"arguments\":{}}");
        },
        RpcRequest::TorrentGet { fields } => {
            s.append("{\"method\":\"torrent-get\",\"arguments\":{\"fields\":[");
            append_fields_from(&mut s, fields, 0);
            s.append("]}}");
            proof {
                assert(fields@.skip(0) =~= fields@);
                assert(s@ =~= spec_request_chars(req@));
            }
        },
        RpcRequest::TorrentAction { action, ids } => {
            s.append("{\"method\":\"");
            s.append(action.as_str());
            s.append("\",\"arguments\":{\"ids\":[");
            append_ids_from(&mut s, ids, 0);
            s.append("]}}");
            proof {
                assert(ids@.skip(0) =~= ids@);
                assert(s@ =~= spec_request_chars(req@));
            }
        },
    }
    s
}

/// The field named by exactly this content, if any.
fn field_of_content(v: &Vec<char>) -> (r: Option<TorrentGetField>)
    ensures
        match r {
            Some(f) => field_chars(f) == v@,
            None => forall|f: TorrentGetField| field_chars(f) != v@,
        },
{
    if crate::codec::chars_eq_str(v, "id") {
        Some(TorrentGetField::Id)
    } else if crate::codec::chars_eq_str(v, "name") {
        Some(TorrentGetField::Name)
    } else if crate::codec::chars_eq_str(v, "status") {
        Some(TorrentGetField::Status)
    } else if crate::codec::chars_eq_str(v, "eta") {
        Some(TorrentGetField::Eta)
    } else if crate::codec::chars_eq_str(v, "error") {
        Some(TorrentGetField::Error)
    } else if crate::codec::chars_eq_str(v, "total-size") {
        Some(TorrentGetField::TotalSize)
    } else {
        None
    }
}
/// Shape of a candidate `fields` tail whose head element was already read:
/// its first field is the element read, and what follows is pinned by the
/// list's arity.
proof fn lemma_fields_candidate(g: Seq<char>, i: int, j: int, content: Seq<char>, fs: Seq<
    TorrentGetField,
>)
    requires
        0 <= i <= g.len(),
        j == i + 2 + content.len(),
        g.subrange(i, g.len() as int) == spec_fields_chars(fs) + "]}}"@,
        str_at(g, i + 1, content),
        g[i] == '"',
    ensures
        fs.len() > 0,
        field_chars(fs[0]) == content,
        j <= g.len(),
        fs.len() == 1 ==> lit_at(g, j, "]}}"@) && j + 3 == g.len(),
        fs.len() > 1 ==> lit_at(g, j, ","@) && g.subrange(j + 1, g.len() as int)
            == spec_fields_chars(fs.drop_first()) + "]}}"@ && fs.drop_first().len() > 0,
{
    lemma_punct_lits();
    if fs.len() == 0 {
        assert(g.subrange(i, g.len() as int) =~= "]}}"@);
        assert(g[i] == g.subrange(i, g.len() as int)[0]);
        assert(g[i] == ']');
        assert(false);
    } else {
        lemma_fields_tail_head(g, i, fs);
        crate::codec::lemma_str_at_unique(g, i + 1, content, field_chars(fs[0]));
    }
}

/// Shape of a candidate `ids` tail whose head integer was already read.
proof fn lemma_ids_candidate(g: Seq<char>, i: int, v: i64, j: int, ids: Seq<i64>)
    requires
        0 <= i <= g.len(),
        int_at(g, i, v as int),
        j == i + spec_int_chars(v as int).len(),
        g.subrange(i, g.len() as int) == spec_ids_chars(ids) + "]}}"@,
    ensures
        ids.len() > 0,
        ids[0] == v,
        j <= g.len(),
        ids.len() == 1 ==> lit_at(g, j, "]}}"@) && j + 3 == g.len(),
        ids.len() > 1 ==> lit_at(g, j, ","@) && g.subrange(j + 1, g.len() as int)
            == spec_ids_chars(ids.drop_first()) + "]}}"@ && ids.drop_first().len() > 0,
{
    lemma_punct_lits();
    if ids.len() == 0 {
        assert(g.subrange(i, g.len() as int) =~= "]}}"@);
        assert(g[i] == g.subrange(i, g.len() as int)[0]);
        assert(g[i] == ']');
        let c = spec_int_chars(v as int);
        crate::numbers::lemma_nat_chars_canonical(
            if v < 0 {
                (-(v as int)) as nat
            } else {
                v as nat
            },
        );
        assert(g[i] == g.subrange(i, i + c.len())[0]);
        assert(g[i] == c[0]);
        assert(c[0] == '-' || is_digit(c[0]));
        assert(false);
    } else {
        lemma_ids_tail_head(g, i, ids);
        crate::numbers::lemma_int_at_unique(g, i, v as int, ids[0] as int);
    }
}

/// Parses a `fields` list closed by `]}}` at the very end of the input:
/// succeeds exactly when the remaining input is such a tail.
fn parse_fields_tail(s: &Vec<char>, i: usize) -> (r: Option<Vec<TorrentGetField>>)
    requires
        i <= s@.len(),
    ensures
        match r {
            Some(fs) => s@.subrange(i as int, s@.len() as int) == spec_fields_chars(fs@) + "]}}"@,
            None => forall|fs: Seq<TorrentGetField>|
                s@.subrange(i as int, s@.len() as int) != spec_fields_chars(fs) + "]}}"@,
        },
    decreases s@.len() - i,
{
    let ghost g = s@;
    let ghost n = g.len() as int;
    let ghost rem = g.subrange(i as int, n);
    let nn = s.len();
    proof {
        lemma_punct_lits();
        assert(nn == g.len());
    }
    if match_lit(s, i, "]}}") {
        if i + 3 == nn {
            proof {
                assert(rem =~= "]}}"@);
                assert(spec_fields_chars(Seq::<TorrentGetField>::empty()) + "]}}"@ =~= "]}}"@);
            }
            return Some(Vec::new());
        }
        proof {
            assert forall|fs: Seq<TorrentGetField>| rem != spec_fields_chars(fs) + "]}}"@ by {
                if rem == spec_fields_chars(fs) + "]}}"@ {
                    if fs.len() == 0 {
                        assert(rem =~= "]}}"@);
                        assert(i + rem.len() == n);
                    } else {
                        lemma_fields_tail_head(g, i as int, fs);
                        crate::codec::lemma_lit_at_first(g, i as int, "]}}"@);
                        assert(g[i as int] == ']');
                    }
                }
            }
        }
        return None;
    }
    if !match_lit(s, i, "\"") {
        proof {
            assert forall|fs: Seq<TorrentGetField>| rem != spec_fields_chars(fs) + "]}}"@ by {
                if rem == spec_fields_chars(fs) + "]}}"@ {
                    if fs.len() == 0 {
                        assert(rem =~= "]}}"@);
                        assert(i + 3 == n);
                        assert(g.subrange(i as int, i + 3) == "]}}"@);
                        assert(lit_at(g, i as int, "]}}"@));
                    } else {
                        lemma_fields_tail_head(g, i as int, fs);
                        crate::codec::lemma_lit_at_single(g, i as int);
                        assert(seq![g[i as int]] == "\""@);
                        assert(lit_at(g, i as int, "\""@));
                    }
                }
            }
        }
        return None;
    }
    proof {
        crate::codec::lemma_lit_at_first(g, i as int, "\""@);
        assert(g[i as int] == '"');
    }
    match crate::codec::parse_string_content(s, i + 1) {
        None => {
            proof {
                assert forall|fs: Seq<TorrentGetField>| rem != spec_fields_chars(fs) + "]}}"@ by {
                    if rem == spec_fields_chars(fs) + "]}}"@ {
                        if fs.len() == 0 {
                            assert(rem =~= "]}}"@);
                            assert(g[i as int] == rem[0]);
                            assert(g[i as int] == ']');
                        } else {
                            lemma_fields_tail_head(g, i as int, fs);
                        }
                    }
                }
            }
            return None;
        },
        Some((content, j)) => {
            proof {
                assert(j == i + 2 + content@.len());
            }
            match field_of_content(&content) {
                None => {
                    proof {
                        assert forall|fs: Seq<TorrentGetField>|
                            rem != spec_fields_chars(fs) + "]}}"@ by {
                            if rem == spec_fields_chars(fs) + "]}}"@ {
                                lemma_fields_candidate(g, i as int, j as int, content@, fs);
                            }
                        }
                    }
                    return None;
                },
                Some(f) => {
                    if match_lit(s, j, ",") {
                        match parse_fields_tail(s, j + 1) {
                            Some(mut restv) => {
                                let ghost restv0 = restv@;
                                if restv.len() == 0 {
                                    proof {
                                        assert(g.subrange(j + 1, n) =~= spec_fields_chars(
                                            Seq::<TorrentGetField>::empty(),
                                        ) + "]}}"@);
                                        assert(g.subrange(j + 1, n) =~= "]}}"@);
                                        assert forall|fs: Seq<TorrentGetField>|
                                            rem != spec_fields_chars(fs) + "]}}"@ by {
                                            if rem == spec_fields_chars(fs) + "]}}"@ {
                                                lemma_fields_candidate(
                                                    g,
                                                    i as int,
                                                    j as int,
                                                    content@,
                                                    fs,
                                                );
                                                if fs.len() == 1 {
                                                    crate::codec::lemma_lit_at_first(
                                                        g,
                                                        j as int,
                                                        "]}}"@,
                                                    );
                                                    crate::codec::lemma_lit_at_first(
                                                        g,
                                                        j as int,
                                                        ","@,
                                                    );
                                                } else {
                                                    lemma_fields_tail_head(
                                                        g,
                                                        j + 1,
                                                        fs.drop_first(),
                                                    );
                                                    assert(g[j + 1] == '"');
                                                    assert(g[j + 1] == g.subrange(j + 1, n)[0]);
                                                    assert(g[j + 1] == ']');
                                                }
                                            }
                                        }
                                    }
                                    return None;
                                }
                                proof {
                                    let fc = field_chars(f);
                                    let q = quoted_chars(fc);
                                    assert(content@ == fc);
                                    let tail_chars = spec_fields_chars(restv0) + "]}}"@;
                                    assert(g.subrange(i + 1, i + 1 + fc.len()) == fc);
                                    assert(lit_at(g, i + 1, fc));
                                    crate::codec::lemma_lit_at_single(g, i as int);
                                    assert(seq![g[i as int]] =~= seq!['"']);
                                    assert(lit_at(g, i as int, seq!['"']));
                                    assert(g[i + 1 + fc.len()] == '"');
                                    crate::codec::lemma_lit_at_single(g, i + 1 + fc.len() as int);
                                    assert(seq![g[i + 1 + fc.len() as int]] =~= seq!['"']);
                                    assert(lit_at(g, i + 1 + fc.len() as int, seq!['"']));
                                    crate::codec::lemma_lit_at_join(g, i as int, seq!['"'], fc);
                                    crate::codec::lemma_lit_at_join(
                                        g,
                                        i as int,
                                        seq!['"'] + fc,
                                        seq!['"'],
                                    );
                                    assert(q =~= seq!['"'] + fc + seq!['"']);
                                    assert(lit_at(g, i as int, q));
                                    crate::codec::lemma_lit_at_first(g, j as int, ","@);
                                    crate::codec::lemma_lit_at_single(g, j as int);
                                    assert(seq![g[j as int]] =~= seq![',']);
                                    assert(lit_at(g, j as int, seq![',']));
                                    assert(g.subrange(j + 1, j + 1 + tail_chars.len()) == tail_chars);
                                    assert(lit_at(g, j + 1, tail_chars));
                                    crate::codec::lemma_lit_at_join(g, i as int, q, seq![',']);
                                    crate::codec::lemma_lit_at_join(
                                        g,
                                        i as int,
                                        q + seq![','],
                                        tail_chars,
                                    );
                                    let whole = seq![f].add(restv0);
                                    assert(whole.drop_first() =~= restv0);
                                    assert(whole[0] == f);
                                    assert(whole.len() > 1);
                                    assert(spec_fields_chars(whole) + "]}}"@ =~= (q + seq![','])
                                        + tail_chars);
                                    assert(i + ((q + seq![',']) + tail_chars).len() == n);
                                    assert(rem == g.subrange(
                                        i as int,
                                        i + ((q + seq![',']) + tail_chars).len(),
                                    ));
                                    assert(rem == spec_fields_chars(whole) + "]}}"@);
                                }
                                restv.insert(0, f);
                                proof {
                                    assert(restv@ =~= seq![f].add(restv0));
                                }
                                return Some(restv);
                            },
                            None => {
                                proof {
                                    assert forall|fs: Seq<TorrentGetField>|
                                        rem != spec_fields_chars(fs) + "]}}"@ by {
                                        if rem == spec_fields_chars(fs) + "]}}"@ {
                                            lemma_fields_candidate(
                                                g,
                                                i as int,
                                                j as int,
                                                content@,
                                                fs,
                                            );
                                            if fs.len() == 1 {
                                                crate::codec::lemma_lit_at_first(
                                                    g,
                                                    j as int,
                                                    "]}}"@,
                                                );
                                                crate::codec::lemma_lit_at_first(g, j as int, ","@);
                                            }
                                        }
                                    }
                                }
                                return None;
                            },
                        }
                    } else if match_lit(s, j, "]}}") {
                        if j + 3 == nn {
                            proof {
                                let fc = field_chars(f);
                                let q = quoted_chars(fc);
                                assert(content@ == fc);
                                assert(g.subrange(i + 1, i + 1 + fc.len()) == fc);
                                assert(lit_at(g, i + 1, fc));
                                crate::codec::lemma_lit_at_single(g, i as int);
                                assert(seq![g[i as int]] =~= seq!['"']);
                                assert(lit_at(g, i as int, seq!['"']));
                                assert(g[i + 1 + fc.len()] == '"');
                                crate::codec::lemma_lit_at_single(g, i + 1 + fc.len() as int);
                                assert(seq![g[i + 1 + fc.len() as int]] =~= seq!['"']);
                                assert(lit_at(g, i + 1 + fc.len() as int, seq!['"']));
                                crate::codec::lemma_lit_at_join(g, i as int, seq!['"'], fc);
                                crate::codec::lemma_lit_at_join(
                                    g,
                                    i as int,
                                    seq!['"'] + fc,
                                    seq!['"'],
                                );
                                assert(q =~= seq!['"'] + fc + seq!['"']);
                                assert(lit_at(g, i as int, q));
                                crate::codec::lemma_lit_at_join(g, i as int, q, "]}}"@);
                                let whole = seq![f];
                                assert(spec_fields_chars(whole) == q);
                                assert(i + (q + "]}}"@).len() == n);
                                assert(rem == g.subrange(i as int, i + (q + "]}}"@).len()));
                                assert(rem == spec_fields_chars(whole) + "]}}"@);
                            }
                            let mut out: Vec<TorrentGetField> = Vec::new();
                            out.push(f);
                            proof {
                                assert(out@ =~= seq![f]);
                            }
                            return Some(out);
                        }
                        proof {
                            assert forall|fs: Seq<TorrentGetField>|
                                rem != spec_fields_chars(fs) + "]}}"@ by {
                                if rem == spec_fields_chars(fs) + "]}}"@ {
                                    lemma_fields_candidate(g, i as int, j as int, content@, fs);
                                    if fs.len() > 1 {
                                        crate::codec::lemma_lit_at_first(g, j as int, "]}}"@);
                                        crate::codec::lemma_lit_at_first(g, j as int, ","@);
                                    }
                                }
                            }
                        }
                        return None;
                    } else {
                        proof {
                            assert forall|fs: Seq<TorrentGetField>|
                                rem != spec_fields_chars(fs) + "]}}"@ by {
                                if rem == spec_fields_chars(fs) + "]}}"@ {
                                    lemma_fields_candidate(g, i as int, j as int, content@, fs);
                                }
                            }
                        }
                        return None;
                    }
                },
            }
        },
    }
}

/// Parses an `ids` list closed by `]}}` at the very end of the input:
/// succeeds exactly when the remaining input is such a tail.
fn parse_ids_tail(s: &Vec<char>, i: usize) -> (r: Option<Vec<i64>>)
    requires
        i <= s@.len(),
    ensures
        match r {
            Some(ids) => s@.subrange(i as int, s@.len() as int) == spec_ids_chars(ids@) + "]}}"@,
            None => forall|ids: Seq<i64>|
                s@.subrange(i as int, s@.len() as int) != spec_ids_chars(ids) + "]}}"@,
        },
    decreases s@.len() - i,
{
    let ghost g = s@;
    let ghost n = g.len() as int;
    let ghost rem = g.subrange(i as int, n);
    let nn = s.len();
    proof {
        lemma_punct_lits();
        assert(nn == g.len());
    }
    if match_lit(s, i, "]}}") {
        if i + 3 == nn {
            proof {
                assert(rem =~= "]}}"@);
                assert(spec_ids_chars(Seq::<i64>::empty()) + "]}}"@ =~= "]}}"@);
            }
            return Some(Vec::new());
        }
        proof {
            assert forall|ids: Seq<i64>| rem != spec_ids_chars(ids) + "]}}"@ by {
                if rem == spec_ids_chars(ids) + "]}}"@ {
                    if ids.len() == 0 {
                        assert(rem =~= "]}}"@);
                        assert(i + rem.len() == n);
                    } else {
                        lemma_ids_tail_head(g, i as int, ids);
                        crate::numbers::lemma_nat_chars_canonical(
                            if ids[0] < 0 {
                                (-(ids[0] as int)) as nat
                            } else {
                                ids[0] as nat
                            },
                        );
                        let c = spec_int_chars(ids[0] as int);
                        assert(g[i as int] == g.subrange(i as int, i + c.len())[0]);
                        assert(g[i as int] == c[0]);
                        assert(c[0] == '-' || is_digit(c[0]));
                        crate::codec::lemma_lit_at_first(g, i as int, "]}}"@);
                        assert(g[i as int] == ']');
                    }
                }
            }
        }
        return None;
    }
    match crate::numbers::parse_i64(s, i) {
        None => {
            proof {
                assert forall|ids: Seq<i64>| rem != spec_ids_chars(ids) + "]}}"@ by {
                    if rem == spec_ids_chars(ids) + "]}}"@ {
                        if ids.len() == 0 {
                            assert(rem =~= "]}}"@);
                            assert(i + 3 == n);
                            assert(g.subrange(i as int, i + 3) == "]}}"@);
                            assert(lit_at(g, i as int, "]}}"@));
                        } else {
                            lemma_ids_tail_head(g, i as int, ids);
                        }
                    }
                }
            }
            return None;
        },
        Some((v, j)) => {
            if match_lit(s, j, ",") {
                match parse_ids_tail(s, j + 1) {
                    Some(mut restv) => {
                        let ghost restv0 = restv@;
                        if restv.len() == 0 {
                            proof {
                                assert(g.subrange(j + 1, n) =~= spec_ids_chars(Seq::<i64>::empty())
                                    + "]}}"@);
                                assert(g.subrange(j + 1, n) =~= "]}}"@);
                                assert forall|ids: Seq<i64>| rem != spec_ids_chars(ids) + "]}}"@ by {
                                    if rem == spec_ids_chars(ids) + "]}}"@ {
                                        lemma_ids_candidate(g, i as int, v, j as int, ids);
                                        if ids.len() == 1 {
                                            crate::codec::lemma_lit_at_first(g, j as int, "]}}"@);
                                            crate::codec::lemma_lit_at_first(g, j as int, ","@);
                                        } else {
                                            lemma_ids_tail_head(g, j + 1, ids.drop_first());
                                            crate::numbers::lemma_nat_chars_canonical(
                                                if ids.drop_first()[0] < 0 {
                                                    (-(ids.drop_first()[0] as int)) as nat
                                                } else {
                                                    ids.drop_first()[0] as nat
                                                },
                                            );
                                            let c = spec_int_chars(ids.drop_first()[0] as int);
                                            assert(g[j + 1] == g.subrange(j + 1, j + 1 + c.len())[0]);
                                            assert(g[j + 1] == c[0]);
                                            assert(c[0] == '-' || is_digit(c[0]));
                                            assert(g[j + 1] == g.subrange(j + 1, n)[0]);
                                            assert(g[j + 1] == ']');
                                        }
                                    }
                                }
                            }
                            return None;
                        }
                        proof {
                            let c = spec_int_chars(v as int);
                            let tail_chars = spec_ids_chars(restv0) + "]}}"@;
                            assert(g.subrange(i as int, i + c.len()) == c);
                            assert(lit_at(g, i as int, c));
                            crate::codec::lemma_lit_at_first(g, j as int, ","@);
                            crate::codec::lemma_lit_at_single(g, j as int);
                            assert(seq![g[j as int]] =~= seq![',']);
                            assert(lit_at(g, j as int, seq![',']));
                            assert(g.subrange(j + 1, j + 1 + tail_chars.len()) == tail_chars);
                            assert(lit_at(g, j + 1, tail_chars));
                            crate::codec::lemma_lit_at_join(g, i as int, c, seq![',']);
                            crate::codec::lemma_lit_at_join(g, i as int, c + seq![','], tail_chars);
                            let whole = seq![v].add(restv0);
                            assert(whole.drop_first() =~= restv0);
                            assert(whole[0] == v);
                            assert(whole.len() > 1);
                            assert(spec_ids_chars(whole) + "]}}"@ =~= (c + seq![',']) + tail_chars);
                            assert(i + ((c + seq![',']) + tail_chars).len() == n);
                            assert(rem == g.subrange(
                                i as int,
                                i + ((c + seq![',']) + tail_chars).len(),
                            ));
                            assert(rem == spec_ids_chars(whole) + "]}}"@);
                        }
                        restv.insert(0, v);
                        proof {
                            assert(restv@ =~= seq![v].add(restv0));
                        }
                        return Some(restv);
                    },
                    None => {
                        proof {
                            assert forall|ids: Seq<i64>| rem != spec_ids_chars(ids) + "]}}"@ by {
                                if rem == spec_ids_chars(ids) + "]}}"@ {
                                    lemma_ids_candidate(g, i as int, v, j as int, ids);
                                    if ids.len() == 1 {
                                        crate::codec::lemma_lit_at_first(g, j as int, "]}}"@);
                                        crate::codec::lemma_lit_at_first(g, j as int, ","@);
                                    }
                                }
                            }
                        }
                        return None;
                    },
                }
            } else if match_lit(s, j, "]}}") {
                if j + 3 == nn {
                    proof {
                        let c = spec_int_chars(v as int);
                        assert(g.subrange(i as int, i + c.len()) == c);
                        assert(lit_at(g, i as int, c));
                        crate::codec::lemma_lit_at_join(g, i as int, c, "]}}"@);
                        let whole = seq![v];
                        assert(spec_ids_chars(whole) == c);
                        assert(i + (c + "]}}"@).len() == n);
                        assert(rem == g.subrange(i as int, i + (c + "]}}"@).len()));
                        assert(rem == spec_ids_chars(whole) + "]}}"@);
                    }
                    let mut out: Vec<i64> = Vec::new();
                    out.push(v);
                    proof {
                        assert(out@ =~= seq![v]);
                    }
                    return Some(out);
                }
                proof {
                    assert forall|ids: Seq<i64>| rem != spec_ids_chars(ids) + "]}}"@ by {
                        if rem == spec_ids_chars(ids) + "]}}"@ {
                            lemma_ids_candidate(g, i as int, v, j as int, ids);
                            if ids.len() > 1 {
                                crate::codec::lemma_lit_at_first(g, j as int, "]}}"@);
                                crate::codec::lemma_lit_at_first(g, j as int, ","@);
                            }
                        }
                    }
                }
                return None;
            } else {
                proof {
                    assert forall|ids: Seq<i64>| rem != spec_ids_chars(ids) + "]}}"@ by {
                        if rem == spec_ids_chars(ids) + "]}}"@ {
                            lemma_ids_candidate(g, i as int, v, j as int, ids);
                        }
                    }
                }
                return None;
            }
        },
    }
}

/// The full fixed head of an action request's wire text.
fn ta_prefix_str(a: TorrentAction) -> (r: &'static str)
    ensures
        r@ == ta_prefix_chars(a),
{
    match a {
        TorrentAction::Start => "{\"method\":\"torrent-start\",\"arguments\":{\"ids\":[",
        TorrentAction::Stop => "{\"method\":\"torrent-stop\",\"arguments\":{\"ids\":[",
        TorrentAction::Verify => "{\"method\":\"torrent-verify\",\"arguments\":{\"ids\":[",
        TorrentAction::Remove => "{\"method\":\"torrent-remove\",\"arguments\":{\"ids\":[",
        TorrentAction::Reannounce => "{\"method\":\"torrent-reannounce\",\"arguments\":{\"ids\":[",
    }
}

/// Outcome of trying one action's head on the input.
enum ActionProbe {
    /// The input does not start with this action's head.
    NotThis,
    /// The input is exactly an action request with these ids.
    Parsed(Vec<i64>),
    /// The input starts with this head but is no request at all.
    Invalid,
}

/// From a literal head in place, each character of the action's method
/// string stands at its offset.
proof fn lemma_ta_prefix_char(g: Seq<char>, a: TorrentAction, k: int)
    requires
        lit_at(g, 0, ta_prefix_chars(a)),
        0 <= k < action_chars(a).len(),
    ensures
        g[11 + k] == action_chars(a)[k],
{
    lemma_head_lits();
    lemma_ta_prefix_eq(a);
    let p = ta_prefix_chars(a);
    assert(g[11 + k] == g.subrange(0, p.len() as int)[11 + k]);
    assert(p == "{\"method\":\""@ + action_chars(a) + "\",\"arguments\":{\"ids\":["@);
    assert(p[11 + k] == ("{\"method\":\""@ + action_chars(a))[11 + k]);
    assert(("{\"method\":\""@ + action_chars(a))[11 + k] == action_chars(a)[k]);
}

/// From an action request's wire text, each character of the method string
/// stands at its offset.
proof fn lemma_ta_encode_char(g: Seq<char>, a: TorrentAction, ids: Seq<i64>, k: int)
    requires
        g == spec_request_chars(RpcRequestModel::TorrentAction { action: a, ids }),
        0 <= k < action_chars(a).len(),
    ensures
        g[11 + k] == action_chars(a)[k],
{
    lemma_head_lits();
    lemma_ta_shape(a, ids);
    let y = action_chars(a) + ("\",\"arguments\":{\"ids\":["@ + (spec_ids_chars(ids) + "]}}"@));
    assert(g == "{\"method\":\""@ + y);
    assert(g[11 + k] == y[k]);
    assert(y[k] == action_chars(a)[k]);
}

/// No request's wire text starts with this action's head when its ids part
/// does not parse.
fn probe_action(cs: &Vec<char>, a: TorrentAction) -> (r: ActionProbe)
    ensures
        match r {
            ActionProbe::NotThis => !lit_at(cs@, 0, ta_prefix_chars(a)),
            ActionProbe::Parsed(ids) => cs@ == spec_request_chars(
                RpcRequestModel::TorrentAction { action: a, ids: ids@ },
            ),
            ActionProbe::Invalid => forall|v: RpcRequestModel| spec_request_chars(v) != cs@,
        },
{
    let ghost g = cs@;
    let ghost n = g.len() as int;
    let lit = ta_prefix_str(a);
    if !match_lit(cs, 0, lit) {
        return ActionProbe::NotThis;
    }
    let plen = lit.unicode_len();
    match parse_ids_tail(cs, plen) {
        Some(ids) => {
            proof {
                lemma_ta_shape(a, ids@);
                let tail = spec_ids_chars(ids@) + "]}}"@;
                assert(g.subrange(plen as int, plen + tail.len()) == tail);
                assert(lit_at(g, plen as int, tail));
                crate::codec::lemma_lit_at_join(g, 0, ta_prefix_chars(a), tail);
                assert(g.subrange(0, n) =~= g);
                assert(g == ta_prefix_chars(a) + tail);
            }
            ActionProbe::Parsed(ids)
        },
        None => {
            proof {
                lemma_head_lits();
                lemma_action_head(a);
                assert forall|v: RpcRequestModel| spec_request_chars(v) != g by {
                    if spec_request_chars(v) == g {
                        match v {
                            RpcRequestModel::SessionGet => {
                                lemma_ta_prefix_char(g, a, 0);
                                assert(g[11] == 's');
                                assert(g[11] == 't');
                            },
                            RpcRequestModel::TorrentGet { fields } => {
                                lemma_tg_shape(fields);
                                let x = spec_fields_chars(fields) + "]}}"@;
                                assert(g == "{\"method\":\"torrent-get\",\"arguments\":{\"fields\":["@
                                    + x);
                                assert(g[19]
                                    == "{\"method\":\"torrent-get\",\"arguments\":{\"fields\":["@[19]);
                                lemma_ta_prefix_char(g, a, 8);
                                assert(g[19] == action_chars(a)[8]);
                                assert(g[19] == 'g');
                            },
                            RpcRequestModel::TorrentAction { action: a2, ids: ids2 } => {
                                if a2 == a {
                                    lemma_ta_shape(a, ids2);
                                    let tail2 = spec_ids_chars(ids2) + "]}}"@;
                                    assert(g == ta_prefix_chars(a) + tail2);
                                    assert(g.subrange(plen as int, n) =~= tail2);
                                } else {
                                    lemma_action_diverge(a, a2);
                                    let k = choose|k: int|
                                        0 <= k < action_chars(a).len() && k < action_chars(
                                            a2,
                                        ).len() && action_chars(a)[k] != action_chars(a2)[k];
                                    lemma_ta_prefix_char(g, a, k);
                                    lemma_ta_encode_char(g, a2, ids2, k);
                                }
                            },
                        }
                    }
                }
            }
            ActionProbe::Invalid
        },
    }
}

/// Decodes wire text back into a request: succeeds exactly on the texts
/// the encoder produces, and recovers the encoded request.
pub fn decode_request(s: &str) -> (r: Option<RpcRequest>)
    ensures
        match r {
            Some(q) => spec_request_chars(q@) == s@ && spec_decode_request(s@) == Some(q@),
            None => spec_decode_request(s@) == None::<RpcRequestModel>,
        },
{
    let cs = crate::strutil::string_to_chars(s);
    let ghost g = s@;
    let nn = cs.len();
    proof {
        lemma_head_lits();
        lemma_punct_lits();
    }
    let sg = "{\"method\":\"session-get\",\"arguments\":{}}";
    if nn == sg.unicode_len() && match_lit(&cs, 0, sg) {
        proof {
            assert(g.subrange(0, g.len() as int) =~= g);
            assert(g == sg@);
            assert(spec_request_chars(RpcRequestModel::SessionGet) == g);
            lemma_request_round_trip(RpcRequestModel::SessionGet);
        }
        return Some(RpcRequest::SessionGet);
    }
    let tg = "{\"method\":\"torrent-get\",\"arguments\":{\"fields\":[";
    if match_lit(&cs, 0, tg) {
        let plen = tg.unicode_len();
        match parse_fields_tail(&cs, plen) {
            Some(fields) => {
                proof {
                    let v = RpcRequestModel::TorrentGet { fields: fields@ };
                    lemma_tg_shape(fields@);
                    let tail = spec_fields_chars(fields@) + "]}}"@;
                    assert(g.subrange(plen as int, plen + tail.len()) == tail);
                    assert(lit_at(g, plen as int, tail));
                    crate::codec::lemma_lit_at_join(g, 0, tg@, tail);
                    assert(g.subrange(0, g.len() as int) =~= g);
                    assert(g == tg@ + tail);
                    assert(spec_request_chars(v) == g);
                    lemma_request_round_trip(v);
                }
                return Some(RpcRequest::TorrentGet { fields });
            },
            None => {
                proof {
                    assert forall|v: RpcRequestModel| spec_request_chars(v) != g by {
                        if spec_request_chars(v) == g {
                            match v {
                                RpcRequestModel::SessionGet => {
                                    crate::codec::lemma_lit_at_first(g, 0, tg@);
                                    assert(g[11] == g.subrange(0, 47)[11]);
                                    assert(g[11] == 't');
                                    assert(g[11] == 's');
                                },
                                RpcRequestModel::TorrentGet { fields } => {
                                    lemma_tg_shape(fields);
                                    let tail = spec_fields_chars(fields) + "]}}"@;
                                    assert(g == tg@ + tail);
                                    assert(g.subrange(plen as int, g.len() as int) =~= tail);
                                },
                                RpcRequestModel::TorrentAction { action, ids } => {
                                    lemma_action_head(action);
                                    lemma_ta_encode_char(g, action, ids, 8);
                                    assert(g[19] == action_chars(action)[8]);
                                    assert(g[19] == g.subrange(0, 47)[19]);
                                    assert(g[19] == 'g');
                                },
                            }
                        }
                    }
                    if exists|v: RpcRequestModel| spec_request_chars(v) == g {
                        let w = choose|v: RpcRequestModel| spec_request_chars(v) == g;
                        assert(spec_request_chars(w) != g);
                    }
                }
                return None;
            },
        }
    }
    let mut probe = probe_action(&cs, TorrentAction::Start);
    match probe {
        ActionProbe::Parsed(ids) => {
            proof {
                lemma_request_round_trip(
                    RpcRequestModel::TorrentAction { action: TorrentAction::Start, ids: ids@ },
                );
            }
            return Some(RpcRequest::TorrentAction { action: TorrentAction::Start, ids });
        },
        ActionProbe::Invalid => {
            proof {
                if exists|v: RpcRequestModel| spec_request_chars(v) == g {
                    let w = choose|v: RpcRequestModel| spec_request_chars(v) == g;
                    assert(spec_request_chars(w) != g);
                }
            }
            return None;
        },
        ActionProbe::NotThis => {
        },
    }
    probe = probe_action(&cs, TorrentAction::Stop);
    match probe {
        ActionProbe::Parsed(ids) => {
            proof {
                lemma_request_round_trip(
                    RpcRequestModel::TorrentAction { action: TorrentAction::Stop, ids: ids@ },
                );
            }
            return Some(RpcRequest::TorrentAction { action: TorrentAction::Stop, ids });
        },
        ActionProbe::Invalid => {
            proof {
                if exists|v: RpcRequestModel| spec_request_chars(v) == g {
                    let w = choose|v: RpcRequestModel| spec_request_chars(v) == g;
                    assert(spec_request_chars(w) != g);
                }
            }
            return None;
        },
        ActionProbe::NotThis => {
        },
    }
    probe = probe_action(&cs, TorrentAction::Verify);
    match probe {
        ActionProbe::Parsed(ids) => {
            proof {
                lemma_request_round_trip(
                    RpcRequestModel::TorrentAction { action: TorrentAction::Verify, ids: ids@ },
                );
            }
            return Some(RpcRequest::TorrentAction { action: TorrentAction::Verify, ids });
        },
        ActionProbe::Invalid => {
            proof {
                if exists|v: RpcRequestModel| spec_request_chars(v) == g {
                    let w = choose|v: RpcRequestModel| spec_request_chars(v) == g;
                    assert(spec_request_chars(w) != g);
                }
            }
            return None;
        },
        ActionProbe::NotThis => {
        },
    }
    probe = probe_action(&cs, TorrentAction::Remove);
    match probe {
        ActionProbe::Parsed(ids) => {
            proof {
                lemma_request_round_trip(
                    RpcRequestModel::TorrentAction { action: TorrentAction::Remove, ids: ids@ },
                );
            }
            return Some(RpcRequest::TorrentAction { action: TorrentAction::Remove, ids });
        },
        ActionProbe::Invalid => {
            proof {
                if exists|v: RpcRequestModel| spec_request_chars(v) == g {
                    let w = choose|v: RpcRequestModel| spec_request_chars(v) == g;
                    assert(spec_request_chars(w) != g);
                }
            }
            return None;
        },
        ActionProbe::NotThis => {
        },
    }
    probe = probe_action(&cs, TorrentAction::Reannounce);
    match probe {
        ActionProbe::Parsed(ids) => {
            proof {
                lemma_request_round_trip(
                    RpcRequestModel::TorrentAction {
                        action: TorrentAction::Reannounce,
                        ids: ids@,
                    },
                );
            }
            return Some(RpcRequest::TorrentAction { action: TorrentAction::Reannounce, ids });
        },
        ActionProbe::Invalid => {
            proof {
                if exists|v: RpcRequestModel| spec_request_chars(v) == g {
                    let w = choose|v: RpcRequestModel| spec_request_chars(v) == g;
                    assert(spec_request_chars(w) != g);
                }
            }
            return None;
        },
        ActionProbe::NotThis => {
        },
    }
    proof {
        assert forall|v: RpcRequestModel| spec_request_chars(v) != g by {
            if spec_request_chars(v) == g {
                match v {
                    RpcRequestModel::SessionGet => {
                        assert(g == sg@);
                        assert(g.subrange(0, g.len() as int) =~= g);
                        assert(lit_at(g, 0, sg@));
                        assert(nn == 39);
                    },
                    RpcRequestModel::TorrentGet { fields } => {
                        lemma_tg_shape(fields);
                        crate::codec::lemma_concat_prefix_lit(
                            tg@,
                            spec_fields_chars(fields) + "]}}"@,
                        );
                        assert(lit_at(g, 0, tg@));
                    },
                    RpcRequestModel::TorrentAction { action, ids } => {
                        lemma_ta_shape(action, ids);
                        crate::codec::lemma_concat_prefix_lit(
                            ta_prefix_chars(action),
                            spec_ids_chars(ids) + "]}}"@,
                        );
                        assert(lit_at(g, 0, ta_prefix_chars(action)));
                    },
                }
            }
        }
        if exists|v: RpcRequestModel| spec_request_chars(v) == g {
            let w = choose|v: RpcRequestModel| spec_request_chars(v) == g;
            assert(spec_request_chars(w) != g);
        }
    }
    None
}

} // verus!
