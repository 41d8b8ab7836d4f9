//! The response envelope: the payload shapes a response may carry, their
//! exact wire texts, and decoders exact in both directions — a decoder
//! accepts a body if and only if it is a wire text of a payload whose
//! strings can stand verbatim on the wire, and then returns that payload.
//!
//! The wire contract is the canonical text of each shape — no whitespace,
//! no escape sequences, payload members in the fixed canonical order —
//! under an envelope whose two members may come in either order. A body
//! that carries the same content in yet another spelling (payload members
//! reordered, unknown members, escaped characters) is not of the expected
//! shape and comes back as a decode error.

use vstd::prelude::*;
use crate::codec::{lit_at, match_lit, quoted_chars, str_at, string_ok};
use crate::numbers::{int_at, spec_int_chars};
use crate::types::{Nothing, RpcError, RpcResponse, SessionGet, Torrent, Torrents};

verus! {

/// The wire text of a response envelope around a payload text.
pub open spec fn spec_response_chars(result: Seq<char>, args: Seq<char>) -> Seq<char> {
    "{\"result\":\""@ + result + "\",\"arguments\":"@ + args + "}"@
}

/// Comma-joined chunks, as object members stand on the wire.
pub open spec fn join_comma(xs: Seq<Seq<char>>) -> Seq<char>
    decreases xs.len(),
{
    if xs.len() == 0 {
        Seq::empty()
    } else if xs.len() == 1 {
        xs[0]
    } else {
        xs[0] + seq![','] + join_comma(xs.drop_first())
    }
}

/// The member chunks of a torrent record, in canonical order.
pub open spec fn torrent_chunks(t: Torrent) -> Seq<Seq<char>> {
    let c0: Seq<Seq<char>> = Seq::empty();
    let c1 = if t.id is Some {
        c0.push("\"id\":"@ + spec_int_chars(t.id->0 as int))
    } else {
        c0
    };
    let c2 = if t.name is Some {
        c1.push("\"name\":"@ + quoted_chars(t.name->0@))
    } else {
        c1
    };
    let c3 = if t.status is Some {
        c2.push("\"status\":"@ + spec_int_chars(t.status->0 as int))
    } else {
        c2
    };
    let c4 = if t.eta is Some {
        c3.push("\"eta\":"@ + spec_int_chars(t.eta->0 as int))
    } else {
        c3
    };
    let c5 = if t.error is Some {
        c4.push("\"error\":"@ + spec_int_chars(t.error->0 as int))
    } else {
        c4
    };
    if t.total_size is Some {
        c5.push("\"total-size\":"@ + spec_int_chars(t.total_size->0 as int))
    } else {
        c5
    }
}

/// The wire text of one torrent record.
pub open spec fn spec_torrent_chars(t: Torrent) -> Seq<char> {
    seq!['{'] + join_comma(torrent_chunks(t)) + seq!['}']
}

/// The text of a record's members and its closing brace: what stands after
/// the record's opening brace.
pub open spec fn mem_tail_chars(t: Torrent) -> Seq<char> {
    join_comma(torrent_chunks(t)) + "}"@
}

/// The member tail of `t` stands at position `i`.
pub open spec fn mem_at(s: Seq<char>, i: int, t: Torrent) -> bool {
    &&& 0 <= i
    &&& i + mem_tail_chars(t).len() <= s.len()
    &&& s.subrange(i, i + mem_tail_chars(t).len()) == mem_tail_chars(t)
}

/// The full record text of `t` stands at position `i`.
pub open spec fn rec_at(s: Seq<char>, i: int, t: Torrent) -> bool {
    &&& 0 <= i
    &&& i + spec_torrent_chars(t).len() <= s.len()
    &&& s.subrange(i, i + spec_torrent_chars(t).len()) == spec_torrent_chars(t)
}

/// The fields whose member rank is below `r` are all absent.
pub open spec fn low_ranks_none(t: Torrent, r: int) -> bool {
    &&& (r > 1 ==> t.id is None)
    &&& (r > 2 ==> t.name is None)
    &&& (r > 3 ==> t.status is None)
    &&& (r > 4 ==> t.eta is None)
    &&& (r > 5 ==> t.error is None)
    &&& (r > 6 ==> t.total_size is None)
}

/// The wire text of a torrent list.
pub open spec fn spec_torrent_list_chars(ts: Seq<Torrent>) -> Seq<char>
    decreases ts.len(),
{
    if ts.len() == 0 {
        Seq::empty()
    } else if ts.len() == 1 {
        spec_torrent_chars(ts[0])
    } else {
        spec_torrent_chars(ts[0]) + seq![','] + spec_torrent_list_chars(ts.drop_first())
    }
}

/// The member chunks of a session payload, in canonical order.
pub open spec fn session_chunks(g: SessionGet) -> Seq<Seq<char>> {
    let c0: Seq<Seq<char>> = Seq::empty();
    let c1 = if g.rpc_version is Some {
        c0.push("\"rpc-version\":"@ + spec_int_chars(g.rpc_version->0 as int))
    } else {
        c0
    };
    if g.version is Some {
        c1.push("\"version\":"@ + quoted_chars(g.version->0@))
    } else {
        c1
    }
}

/// A torrent record whose strings can stand verbatim on the wire.
pub open spec fn torrent_ok(t: Torrent) -> bool {
    t.name is Some ==> string_ok(t.name->0@)
}

/// Every record of the list can stand on the wire.
pub open spec fn torrents_ok(ts: Seq<Torrent>) -> bool {
    forall|k: int| 0 <= k < ts.len() ==> torrent_ok(#[trigger] ts[k])
}

/// A payload shape a response envelope may carry. The closed set of legal
/// shapes implements it; the pairing of method and shape is fixed by the
/// caller before any exchange.
pub trait RpcResponseArgument: Sized {
    /// The exact wire text of this payload.
    spec fn spec_args_chars(&self) -> Seq<char>;

    /// The payload's strings can stand verbatim on the wire, so the
    /// payload has a wire text at all.
    spec fn args_ok(&self) -> bool;

    /// Parses the payload followed by a closing brace at the very end of
    /// the input — the tail of a response body after `"arguments":`.
    /// Exact in both directions: it succeeds, with that payload, exactly
    /// when such a tail stands there.
    fn parse_args_tail(s: &Vec<char>, i: usize) -> (r: Option<Self>)
        requires
            i <= s@.len(),
        ensures
            match r {
                Some(a) => a.args_ok() && s@.subrange(i as int, s@.len() as int)
                    == a.spec_args_chars() + "}"@,
                None => forall|a: Self|
                    a.args_ok() ==> s@.subrange(i as int, s@.len() as int) != a.spec_args_chars()
                        + "}"@,
            },
    ;
}

impl RpcResponseArgument for Nothing {
    open spec fn spec_args_chars(&self) -> Seq<char> {
        "{}"@
    }

    open spec fn args_ok(&self) -> bool {
        true
    }

    fn parse_args_tail(s: &Vec<char>, i: usize) -> (r: Option<Self>) {
        let ghost g = s@;
        let nn = s.len();
        proof {
            reveal_strlit("{}");
            reveal_strlit("{}}");
            reveal_strlit("}");
            assert("{}"@ + "}"@ =~= "{}}"@);
        }
        if match_lit(s, i, "{}}") {
            if i + 3 == nn {
                proof {
                    assert(g.subrange(i as int, g.len() as int) =~= "{}}"@);
                }
                return Some(Nothing {});
            }
        }
        proof {
            assert forall|a: Nothing|
                a.args_ok() implies g.subrange(i as int, g.len() as int) != a.spec_args_chars()
                + "}"@ by {
                if g.subrange(i as int, g.len() as int) == a.spec_args_chars() + "}"@ {
                    let rem = g.subrange(i as int, g.len() as int);
                    assert(rem =~= "{}}"@);
                    assert(i + 3 == g.len());
                    assert(g.subrange(i as int, i + 3) == "{}}"@);
                    assert(lit_at(g, i as int, "{}}"@));
                }
            }
        }
        None
    }
}

/// Placement of the parts of a session tail whose payload holds an
/// `rpc-version` member.
proof fn lemma_session_rv_parts(g: Seq<char>, i: int, a: SessionGet)
    requires
        a.rpc_version is Some,
        a.version is Some ==> string_ok(a.version->0@),
        0 <= i,
        i + (a.spec_args_chars() + "}"@).len() <= g.len(),
        g.subrange(i, i + (a.spec_args_chars() + "}"@).len()) == a.spec_args_chars() + "}"@,
    ensures
        lit_at(g, i, "{\"rpc-version\":"@),
        int_at(g, i + 15, a.rpc_version->0 as int),
        ({
            let j = i + 15 + spec_int_chars(a.rpc_version->0 as int).len();
            &&& (a.version is None ==> lit_at(g, j, "}}"@) && j + 2 == i + (a.spec_args_chars()
                + "}"@).len())
            &&& (a.version is Some ==> lit_at(g, j, ",\"version\":\""@) && str_at(
                g,
                j + 12,
                a.version->0@,
            ) && ({
                let j2 = j + 12 + a.version->0@.len() + 1;
                lit_at(g, j2, "}}"@) && j2 + 2 == i + (a.spec_args_chars() + "}"@).len()
            }))
        }),
{
    lemma_session_text(a);
    reveal_strlit("{\"rpc-version\":");
    reveal_strlit(",\"version\":\"");
    reveal_strlit("\"}}");
    reveal_strlit("}}");
    let x = a.spec_args_chars() + "}"@;
    assert(lit_at(g, i, x));
    let rv = a.rpc_version->0 as int;
    let c = spec_int_chars(rv);
    crate::numbers::lemma_nat_chars_canonical(
        if rv < 0 {
            (-rv) as nat
        } else {
            rv as nat
        },
    );
    if a.version is None {
        assert(x == "{\"rpc-version\":"@ + (c + "}}"@));
        crate::codec::lemma_lit_at_concat(g, i, "{\"rpc-version\":"@, c + "}}"@);
        crate::codec::lemma_lit_at_concat(g, i + 15, c, "}}"@);
        let j = i + 15 + c.len() as int;
        crate::codec::lemma_lit_at_index(g, j, "}}"@, 0);
        assert(g[j] == '}');
        assert(!crate::numbers::is_digit('}'));
        assert(int_at(g, i + 15, rv));
    } else {
        let v = a.version->0@;
        assert(x == "{\"rpc-version\":"@ + (c + (",\"version\":\""@ + (v + "\"}}"@))));
        crate::codec::lemma_lit_at_concat(
            g,
            i,
            "{\"rpc-version\":"@,
            c + (",\"version\":\""@ + (v + "\"}}"@)),
        );
        crate::codec::lemma_lit_at_concat(g, i + 15, c, ",\"version\":\""@ + (v + "\"}}"@));
        let j = i + 15 + c.len() as int;
        crate::codec::lemma_lit_at_index(g, j, ",\"version\":\""@ + (v + "\"}}"@), 0);
        assert(g[j] == ',');
        assert(!crate::numbers::is_digit(','));
        assert(int_at(g, i + 15, rv));
        crate::codec::lemma_lit_at_concat(g, j, ",\"version\":\""@, v + "\"}}"@);
        crate::codec::lemma_lit_at_concat(g, j + 12, v, "\"}}"@);
        let j2 = j + 12 + v.len() as int;
        crate::codec::lemma_lit_at_index(g, j2, "\"}}"@, 0);
        assert(g[j2] == '"');
        assert(str_at(g, j + 12, v));
        assert("\"}}"@ =~= seq!['"'] + "}}"@);
        crate::codec::lemma_lit_at_concat(g, j2, seq!['"'], "}}"@);
        assert(lit_at(g, j2 + 1, "}}"@));
    }
}

/// Placement of the parts of a session tail whose payload holds only a
/// `version` member.
proof fn lemma_session_v_parts(g: Seq<char>, i: int, a: SessionGet)
    requires
        a.rpc_version is None,
        a.version is Some,
        string_ok(a.version->0@),
        0 <= i,
        i + (a.spec_args_chars() + "}"@).len() <= g.len(),
        g.subrange(i, i + (a.spec_args_chars() + "}"@).len()) == a.spec_args_chars() + "}"@,
    ensures
        lit_at(g, i, "{\"version\":\""@),
        str_at(g, i + 12, a.version->0@),
        ({
            let j2 = i + 12 + a.version->0@.len() + 1;
            lit_at(g, j2, "}}"@) && j2 + 2 == i + (a.spec_args_chars() + "}"@).len()
        }),
{
    lemma_session_text(a);
    reveal_strlit("{\"version\":\"");
    reveal_strlit("\"}}");
    reveal_strlit("}}");
    let x = a.spec_args_chars() + "}"@;
    assert(lit_at(g, i, x));
    let v = a.version->0@;
    assert(x == "{\"version\":\""@ + (v + "\"}}"@));
    crate::codec::lemma_lit_at_concat(g, i, "{\"version\":\""@, v + "\"}}"@);
    crate::codec::lemma_lit_at_concat(g, i + 12, v, "\"}}"@);
    let j2 = i + 12 + v.len() as int;
    crate::codec::lemma_lit_at_index(g, j2, "\"}}"@, 0);
    assert(g[j2] == '"');
    assert(str_at(g, i + 12, v));
    assert("\"}}"@ =~= seq!['"'] + "}}"@);
    crate::codec::lemma_lit_at_concat(g, j2, seq!['"'], "}}"@);
    assert(lit_at(g, j2 + 1, "}}"@));
}

/// The four canonical tails of a session payload, spelled out.
proof fn lemma_session_text(a: SessionGet)
    ensures
        (a.rpc_version is None && a.version is None) ==> a.spec_args_chars() + "}"@ == "{}}"@,
        (a.rpc_version is Some && a.version is None) ==> a.spec_args_chars() + "}"@
            == "{\"rpc-version\":"@ + (spec_int_chars(a.rpc_version->0 as int) + "}}"@),
        (a.rpc_version is Some && a.version is Some) ==> a.spec_args_chars() + "}"@
            == "{\"rpc-version\":"@ + (spec_int_chars(a.rpc_version->0 as int) + (",\"version\":\""@
            + (a.version->0@ + "\"}}"@))),
        (a.rpc_version is None && a.version is Some) ==> a.spec_args_chars() + "}"@
            == "{\"version\":\""@ + (a.version->0@ + "\"}}"@),
{
    reveal_strlit("{}}");
    reveal_strlit("}}");
    reveal_strlit("\"}}");
    reveal_strlit("{\"rpc-version\":");
    reveal_strlit("\"rpc-version\":");
    reveal_strlit(",\"version\":\"");
    reveal_strlit("{\"version\":\"");
    reveal_strlit("\"version\":");
    reveal_strlit("}");
    if a.rpc_version is None && a.version is None {
        assert(a.spec_args_chars() + "}"@ =~= "{}}"@);
    } else if a.rpc_version is Some && a.version is None {
        assert(session_chunks(a) =~= seq!["\"rpc-version\":"@ + spec_int_chars(
            a.rpc_version->0 as int,
        )]);
        assert(a.spec_args_chars() + "}"@ =~= "{\"rpc-version\":"@ + (spec_int_chars(
            a.rpc_version->0 as int,
        ) + "}}"@));
    } else if a.rpc_version is Some && a.version is Some {
        let crv = "\"rpc-version\":"@ + spec_int_chars(a.rpc_version->0 as int);
        let cv = "\"version\":"@ + quoted_chars(a.version->0@);
        assert(session_chunks(a) =~= seq![crv, cv]);
        assert(seq![crv, cv].drop_first() =~= seq![cv]);
        assert(join_comma(seq![cv]) == cv);
        assert(seq![crv, cv][0] == crv);
        assert(join_comma(session_chunks(a)) == crv + seq![','] + cv);
        assert(a.spec_args_chars() + "}"@ =~= "{\"rpc-version\":"@ + (spec_int_chars(
            a.rpc_version->0 as int,
        ) + (",\"version\":\""@ + (a.version->0@ + "\"}}"@))));
    } else {
        let cv = "\"version\":"@ + quoted_chars(a.version->0@);
        assert(session_chunks(a) =~= seq![cv]);
        assert(a.spec_args_chars() + "}"@ =~= "{\"version\":\""@ + (a.version->0@ + "\"}}"@));
    }
}

impl RpcResponseArgument for SessionGet {
    open spec fn spec_args_chars(&self) -> Seq<char> {
        seq!['{'] + join_comma(session_chunks(*self)) + seq!['}']
    }

    open spec fn args_ok(&self) -> bool {
        self.version is Some ==> string_ok(self.version->0@)
    }

    fn parse_args_tail(s: &Vec<char>, i: usize) -> (r: Option<Self>) {
        let ghost g = s@;
        let ghost n = g.len() as int;
        let ghost rem = g.subrange(i as int, n);
        let nn = s.len();
        proof {
            reveal_strlit("{}}");
            reveal_strlit("}}");
            reveal_strlit("\"}}");
            reveal_strlit("{\"rpc-version\":");
            reveal_strlit(",\"version\":\"");
            reveal_strlit("{\"version\":\"");
        }
        if match_lit(s, i, "{}}") {
            if i + 3 == nn {
                proof {
                    let a = SessionGet { rpc_version: None, version: None };
                    lemma_session_text(a);
                    assert(rem =~= "{}}"@);
                }
                return Some(SessionGet { rpc_version: None, version: None });
            }
            proof {
                assert forall|a: SessionGet| a.args_ok() implies rem != a.spec_args_chars()
                    + "}"@ by {
                    if rem == a.spec_args_chars() + "}"@ {
                        if a.rpc_version is None && a.version is None {
                            lemma_session_text(a);
                            assert(rem =~= "{}}"@);
                            assert(i + 3 == n);
                        } else if a.rpc_version is Some {
                            lemma_session_rv_parts(g, i as int, a);
                            crate::codec::lemma_lit_at_index(g, i as int, "{\"rpc-version\":"@, 1);
                            crate::codec::lemma_lit_at_index(g, i as int, "{}}"@, 1);
                        } else {
                            lemma_session_v_parts(g, i as int, a);
                            crate::codec::lemma_lit_at_index(g, i as int, "{\"version\":\""@, 1);
                            crate::codec::lemma_lit_at_index(g, i as int, "{}}"@, 1);
                        }
                    }
                }
            }
            return None;
        }
        if match_lit(s, i, "{\"rpc-version\":") {
            let off = "{\"rpc-version\":".unicode_len();
            match crate::numbers::parse_i64(s, i + off) {
                None => {
                    proof {
                        assert forall|a: SessionGet| a.args_ok() implies rem != a.spec_args_chars()
                            + "}"@ by {
                            if rem == a.spec_args_chars() + "}"@ {
                                if a.rpc_version is None && a.version is None {
                                    lemma_session_text(a);
                                    assert(rem =~= "{}}"@);
                                    assert(g.subrange(i as int, i + 3) == "{}}"@);
                                    assert(lit_at(g, i as int, "{}}"@));
                                    crate::codec::lemma_lit_at_index(g, i as int, "{}}"@, 1);
                                    crate::codec::lemma_lit_at_index(
                                        g,
                                        i as int,
                                        "{\"rpc-version\":"@,
                                        1,
                                    );
                                } else if a.rpc_version is Some {
                                    lemma_session_rv_parts(g, i as int, a);
                                } else {
                                    lemma_session_v_parts(g, i as int, a);
                                    crate::codec::lemma_lit_at_index(
                                        g,
                                        i as int,
                                        "{\"version\":\""@,
                                        2,
                                    );
                                    crate::codec::lemma_lit_at_index(
                                        g,
                                        i as int,
                                        "{\"rpc-version\":"@,
                                        2,
                                    );
                                }
                            }
                        }
                    }
                    return None;
                },
                Some((rv, j)) => {
                    if match_lit(s, j, ",\"version\":\"") {
                        let off2 = ",\"version\":\"".unicode_len();
                        match crate::codec::parse_string_content(s, j + off2) {
                            None => {
                                proof {
                                    assert forall|a: SessionGet|
                                        a.args_ok() implies rem != a.spec_args_chars() + "}"@ by {
                                        if rem == a.spec_args_chars() + "}"@ {
                                            if a.rpc_version is None && a.version is None {
                                                lemma_session_text(a);
                                                assert(rem =~= "{}}"@);
                                                assert(g.subrange(i as int, i + 3) == "{}}"@);
                                                assert(lit_at(g, i as int, "{}}"@));
                                                crate::codec::lemma_lit_at_index(
                                                    g,
                                                    i as int,
                                                    "{}}"@,
                                                    1,
                                                );
                                                crate::codec::lemma_lit_at_index(
                                                    g,
                                                    i as int,
                                                    "{\"rpc-version\":"@,
                                                    1,
                                                );
                                            } else if a.rpc_version is Some {
                                                lemma_session_rv_parts(g, i as int, a);
                                                crate::numbers::lemma_int_at_unique(
                                                    g,
                                                    i + 15,
                                                    rv as int,
                                                    a.rpc_version->0 as int,
                                                );
                                                if a.version is None {
                                                    crate::codec::lemma_lit_at_index(
                                                        g,
                                                        j as int,
                                                        "}}"@,
                                                        0,
                                                    );
                                                    crate::codec::lemma_lit_at_index(
                                                        g,
                                                        j as int,
                                                        ",\"version\":\""@,
                                                        0,
                                                    );
                                                }
                                            } else {
                                                lemma_session_v_parts(g, i as int, a);
                                                crate::codec::lemma_lit_at_index(
                                                    g,
                                                    i as int,
                                                    "{\"version\":\""@,
                                                    2,
                                                );
                                                crate::codec::lemma_lit_at_index(
                                                    g,
                                                    i as int,
                                                    "{\"rpc-version\":"@,
                                                    2,
                                                );
                                            }
                                        }
                                    }
                                }
                                return None;
                            },
                            Some((content, j2)) => {
                                if match_lit(s, j2, "}}") {
                                    if j2 + 2 == nn {
                                        let ver = crate::strutil::chars_to_string(&content);
                                        let out = SessionGet {
                                            rpc_version: Some(rv),
                                            version: Some(ver),
                                        };
                                        proof {
                                            lemma_session_text(out);
                                            assert(g.subrange(j + off2, j2 - 1) == content@);
                                            assert(lit_at(g, j + off2, content@));
                                            assert(g[j2 - 1] == '"');
                                            crate::codec::lemma_lit_at_single(g, j2 - 1);
                                            assert(seq![g[j2 - 1]] =~= seq!['"']);
                                            assert("\"}}"@ =~= seq!['"'] + "}}"@);
                                            crate::codec::lemma_lit_at_join(
                                                g,
                                                j2 - 1,
                                                seq!['"'],
                                                "}}"@,
                                            );
                                            assert(lit_at(g, j2 - 1, "\"}}"@));
                                            crate::codec::lemma_lit_at_join(
                                                g,
                                                j + off2,
                                                content@,
                                                "\"}}"@,
                                            );
                                            crate::codec::lemma_lit_at_join(
                                                g,
                                                j as int,
                                                ",\"version\":\""@,
                                                content@ + "\"}}"@,
                                            );
                                            crate::codec::lemma_lit_at_join(
                                                g,
                                                i + 15,
                                                spec_int_chars(rv as int),
                                                ",\"version\":\""@ + (content@ + "\"}}"@),
                                            );
                                            crate::codec::lemma_lit_at_join(
                                                g,
                                                i as int,
                                                "{\"rpc-version\":"@,
                                                spec_int_chars(rv as int) + (",\"version\":\""@ + (
                                                content@ + "\"}}"@)),
                                            );
                                            assert(out.spec_args_chars() + "}"@
                                                =~= "{\"rpc-version\":"@ + (spec_int_chars(
                                                rv as int,
                                            ) + (",\"version\":\""@ + (content@ + "\"}}"@))));
                                            assert(rem == out.spec_args_chars() + "}"@);
                                        }
                                        return Some(out);
                                    }
                                }
                                proof {
                                    assert forall|a: SessionGet|
                                        a.args_ok() implies rem != a.spec_args_chars() + "}"@ by {
                                        if rem == a.spec_args_chars() + "}"@ {
                                            if a.rpc_version is None && a.version is None {
                                                lemma_session_text(a);
                                                assert(rem =~= "{}}"@);
                                                assert(g.subrange(i as int, i + 3) == "{}}"@);
                                                assert(lit_at(g, i as int, "{}}"@));
                                                crate::codec::lemma_lit_at_index(
                                                    g,
                                                    i as int,
                                                    "{}}"@,
                                                    1,
                                                );
                                                crate::codec::lemma_lit_at_index(
                                                    g,
                                                    i as int,
                                                    "{\"rpc-version\":"@,
                                                    1,
                                                );
                                            } else if a.rpc_version is Some {
                                                lemma_session_rv_parts(g, i as int, a);
                                                crate::numbers::lemma_int_at_unique(
                                                    g,
                                                    i + 15,
                                                    rv as int,
                                                    a.rpc_version->0 as int,
                                                );
                                                if a.version is None {
                                                    crate::codec::lemma_lit_at_index(
                                                        g,
                                                        j as int,
                                                        "}}"@,
                                                        0,
                                                    );
                                                    crate::codec::lemma_lit_at_index(
                                                        g,
                                                        j as int,
                                                        ",\"version\":\""@,
                                                        0,
                                                    );
                                                } else {
                                                    crate::codec::lemma_str_at_unique(
                                                        g,
                                                        j + 12,
                                                        content@,
                                                        a.version->0@,
                                                    );
                                                }
                                            } else {
                                                lemma_session_v_parts(g, i as int, a);
                                                crate::codec::lemma_lit_at_index(
                                                    g,
                                                    i as int,
                                                    "{\"version\":\""@,
                                                    2,
                                                );
                                                crate::codec::lemma_lit_at_index(
                                                    g,
                                                    i as int,
                                                    "{\"rpc-version\":"@,
                                                    2,
                                                );
                                            }
                                        }
                                    }
                                }
                                return None;
                            },
                        }
                    } else if match_lit(s, j, "}}") {
                        if j + 2 == nn {
                            let out = SessionGet { rpc_version: Some(rv), version: None };
                            proof {
                                lemma_session_text(out);
                                crate::codec::lemma_lit_at_join(
                                    g,
                                    i + 15,
                                    spec_int_chars(rv as int),
                                    "}}"@,
                                );
                                crate::codec::lemma_lit_at_join(
                                    g,
                                    i as int,
                                    "{\"rpc-version\":"@,
                                    spec_int_chars(rv as int) + "}}"@,
                                );
                                assert(out.spec_args_chars() + "}"@ =~= "{\"rpc-version\":"@ + (
                                spec_int_chars(rv as int) + "}}"@));
                                assert(rem == out.spec_args_chars() + "}"@);
                            }
                            return Some(out);
                        }
                        proof {
                            assert forall|a: SessionGet| a.args_ok() implies rem
                                != a.spec_args_chars() + "}"@ by {
                                if rem == a.spec_args_chars() + "}"@ {
                                    if a.rpc_version is None && a.version is None {
                                        lemma_session_text(a);
                                        assert(rem =~= "{}}"@);
                                        assert(g.subrange(i as int, i + 3) == "{}}"@);
                                        assert(lit_at(g, i as int, "{}}"@));
                                        crate::codec::lemma_lit_at_index(g, i as int, "{}}"@, 1);
                                        crate::codec::lemma_lit_at_index(
                                            g,
                                            i as int,
                                            "{\"rpc-version\":"@,
                                            1,
                                        );
                                    } else if a.rpc_version is Some {
                                        lemma_session_rv_parts(g, i as int, a);
                                        crate::numbers::lemma_int_at_unique(
                                            g,
                                            i + 15,
                                            rv as int,
                                            a.rpc_version->0 as int,
                                        );
                                        if a.version is Some {
                                            crate::codec::lemma_lit_at_index(
                                                g,
                                                j as int,
                                                "}}"@,
                                                0,
                                            );
                                            crate::codec::lemma_lit_at_index(
                                                g,
                                                j as int,
                                                ",\"version\":\""@,
                                                0,
                                            );
                                        }
                                    } else {
                                        lemma_session_v_parts(g, i as int, a);
                                        crate::codec::lemma_lit_at_index(
                                            g,
                                            i as int,
                                            "{\"version\":\""@,
                                            2,
                                        );
                                        crate::codec::lemma_lit_at_index(
                                            g,
                                            i as int,
                                            "{\"rpc-version\":"@,
                                            2,
                                        );
                                    }
                                }
                            }
                        }
                        return None;
                    } else {
                        proof {
                            assert forall|a: SessionGet| a.args_ok() implies rem
                                != a.spec_args_chars() + "}"@ by {
                                if rem == a.spec_args_chars() + "}"@ {
                                    if a.rpc_version is None && a.version is None {
                                        lemma_session_text(a);
                                        assert(rem =~= "{}}"@);
                                        assert(g.subrange(i as int, i + 3) == "{}}"@);
                                        assert(lit_at(g, i as int, "{}}"@));
                                        crate::codec::lemma_lit_at_index(g, i as int, "{}}"@, 1);
                                        crate::codec::lemma_lit_at_index(
                                            g,
                                            i as int,
                                            "{\"rpc-version\":"@,
                                            1,
                                        );
                                    } else if a.rpc_version is Some {
                                        lemma_session_rv_parts(g, i as int, a);
                                        crate::numbers::lemma_int_at_unique(
                                            g,
                                            i + 15,
                                            rv as int,
                                            a.rpc_version->0 as int,
                                        );
                                    } else {
                                        lemma_session_v_parts(g, i as int, a);
                                        crate::codec::lemma_lit_at_index(
                                            g,
                                            i as int,
                                            "{\"version\":\""@,
                                            2,
                                        );
                                        crate::codec::lemma_lit_at_index(
                                            g,
                                            i as int,
                                            "{\"rpc-version\":"@,
                                            2,
                                        );
                                    }
                                }
                            }
                        }
                        return None;
                    }
                },
            }
        }
        if match_lit(s, i, "{\"version\":\"") {
            let off = "{\"version\":\"".unicode_len();
            match crate::codec::parse_string_content(s, i + off) {
                None => {
                    proof {
                        assert forall|a: SessionGet| a.args_ok() implies rem != a.spec_args_chars()
                            + "}"@ by {
                            if rem == a.spec_args_chars() + "}"@ {
                                if a.rpc_version is None && a.version is None {
                                    lemma_session_text(a);
                                    assert(rem =~= "{}}"@);
                                    assert(g.subrange(i as int, i + 3) == "{}}"@);
                                    assert(lit_at(g, i as int, "{}}"@));
                                    crate::codec::lemma_lit_at_index(g, i as int, "{}}"@, 1);
                                    crate::codec::lemma_lit_at_index(
                                        g,
                                        i as int,
                                        "{\"version\":\""@,
                                        1,
                                    );
                                } else if a.rpc_version is Some {
                                    lemma_session_rv_parts(g, i as int, a);
                                    crate::codec::lemma_lit_at_index(
                                        g,
                                        i as int,
                                        "{\"version\":\""@,
                                        2,
                                    );
                                    crate::codec::lemma_lit_at_index(
                                        g,
                                        i as int,
                                        "{\"rpc-version\":"@,
                                        2,
                                    );
                                } else {
                                    lemma_session_v_parts(g, i as int, a);
                                }
                            }
                        }
                    }
                    return None;
                },
                Some((content, j2)) => {
                    if match_lit(s, j2, "}}") {
                        if j2 + 2 == nn {
                            let ver = crate::strutil::chars_to_string(&content);
                            let out = SessionGet { rpc_version: None, version: Some(ver) };
                            proof {
                                lemma_session_text(out);
                                assert(g.subrange(i + off, j2 - 1) == content@);
                                assert(lit_at(g, i + off, content@));
                                assert(g[j2 - 1] == '"');
                                crate::codec::lemma_lit_at_single(g, j2 - 1);
                                assert(seq![g[j2 - 1]] =~= seq!['"']);
                                assert("\"}}"@ =~= seq!['"'] + "}}"@);
                                crate::codec::lemma_lit_at_join(g, j2 - 1, seq!['"'], "}}"@);
                                assert(lit_at(g, j2 - 1, "\"}}"@));
                                crate::codec::lemma_lit_at_join(g, i + off, content@, "\"}}"@);
                                crate::codec::lemma_lit_at_join(
                                    g,
                                    i as int,
                                    "{\"version\":\""@,
                                    content@ + "\"}}"@,
                                );
                                assert(out.spec_args_chars() + "}"@ =~= "{\"version\":\""@ + (
                                content@ + "\"}}"@));
                                assert(rem == out.spec_args_chars() + "}"@);
                            }
                            return Some(out);
                        }
                    }
                    proof {
                        assert forall|a: SessionGet| a.args_ok() implies rem != a.spec_args_chars()
                            + "}"@ by {
                            if rem == a.spec_args_chars() + "}"@ {
                                if a.rpc_version is None && a.version is None {
                                    lemma_session_text(a);
                                    assert(rem =~= "{}}"@);
                                    assert(g.subrange(i as int, i + 3) == "{}}"@);
                                    assert(lit_at(g, i as int, "{}}"@));
                                    crate::codec::lemma_lit_at_index(g, i as int, "{}}"@, 1);
                                    crate::codec::lemma_lit_at_index(
                                        g,
                                        i as int,
                                        "{\"version\":\""@,
                                        1,
                                    );
                                } else if a.rpc_version is Some {
                                    lemma_session_rv_parts(g, i as int, a);
                                    crate::codec::lemma_lit_at_index(
                                        g,
                                        i as int,
                                        "{\"version\":\""@,
                                        2,
                                    );
                                    crate::codec::lemma_lit_at_index(
                                        g,
                                        i as int,
                                        "{\"rpc-version\":"@,
                                        2,
                                    );
                                } else {
                                    lemma_session_v_parts(g, i as int, a);
                                    crate::codec::lemma_str_at_unique(
                                        g,
                                        i + 12,
                                        content@,
                                        a.version->0@,
                                    );
                                }
                            }
                        }
                    }
                    return None;
                },
            }
        }
        proof {
            assert forall|a: SessionGet| a.args_ok() implies rem != a.spec_args_chars() + "}"@ by {
                if rem == a.spec_args_chars() + "}"@ {
                    if a.rpc_version is None && a.version is None {
                        lemma_session_text(a);
                        assert(rem =~= "{}}"@);
                        assert(g.subrange(i as int, i + 3) == "{}}"@);
                        assert(lit_at(g, i as int, "{}}"@));
                    } else if a.rpc_version is Some {
                        lemma_session_rv_parts(g, i as int, a);
                    } else {
                        lemma_session_v_parts(g, i as int, a);
                    }
                }
            }
        }
        None
    }
}


/// The key literal of each member rank.
pub open spec fn key_chars(r: int) -> Seq<char> {
    if r == 1 {
        "\"id\":"@
    } else if r == 2 {
        "\"name\":"@
    } else if r == 3 {
        "\"status\":"@
    } else if r == 4 {
        "\"eta\":"@
    } else if r == 5 {
        "\"error\":"@
    } else {
        "\"total-size\":"@
    }
}

/// Two member keys in the same place are the same key.
proof fn lemma_key_at_unique(s: Seq<char>, p: int, r1: int, r2: int)
    requires
        1 <= r1 <= 6,
        1 <= r2 <= 6,
        lit_at(s, p, key_chars(r1)),
        lit_at(s, p, key_chars(r2)),
    ensures
        r1 == r2,
{
    reveal_strlit("\"id\":");
    reveal_strlit("\"name\":");
    reveal_strlit("\"status\":");
    reveal_strlit("\"eta\":");
    reveal_strlit("\"error\":");
    reveal_strlit("\"total-size\":");
    if r1 != r2 {
        crate::codec::lemma_lit_at_index(s, p, key_chars(r1), 1);
        crate::codec::lemma_lit_at_index(s, p, key_chars(r2), 1);
        crate::codec::lemma_lit_at_index(s, p, key_chars(r1), 2);
        crate::codec::lemma_lit_at_index(s, p, key_chars(r2), 2);
        assert(false);
    }
}


/// With the lower-ranked fields absent, this field's chunk leads the list.
proof fn lemma_chunks_cons_id(t: Torrent)
    requires
        t.id is Some,
    ensures
        torrent_chunks(t) == seq!["\"id\":"@ + spec_int_chars(t.id->0 as int)] + torrent_chunks(Torrent { id: None, ..t }),
{
    assert(torrent_chunks(t) =~= seq!["\"id\":"@ + spec_int_chars(t.id->0 as int)] + torrent_chunks(Torrent { id: None, ..t }));
}


/// With the lower-ranked fields absent, this field's chunk leads the list.
proof fn lemma_chunks_cons_name(t: Torrent)
    requires
        t.name is Some,
        t.id is None,
    ensures
        torrent_chunks(t) == seq!["\"name\":"@ + quoted_chars(t.name->0@)] + torrent_chunks(Torrent { name: None, ..t }),
{
    assert(torrent_chunks(t) =~= seq!["\"name\":"@ + quoted_chars(t.name->0@)] + torrent_chunks(Torrent { name: None, ..t }));
}


/// With the lower-ranked fields absent, this field's chunk leads the list.
proof fn lemma_chunks_cons_status(t: Torrent)
    requires
        t.status is Some,
        t.id is None,
        t.name is None,
    ensures
        torrent_chunks(t) == seq!["\"status\":"@ + spec_int_chars(t.status->0 as int)] + torrent_chunks(Torrent { status: None, ..t }),
{
    assert(torrent_chunks(t) =~= seq!["\"status\":"@ + spec_int_chars(t.status->0 as int)] + torrent_chunks(Torrent { status: None, ..t }));
}


/// With the lower-ranked fields absent, this field's chunk leads the list.
proof fn lemma_chunks_cons_eta(t: Torrent)
    requires
        t.eta is Some,
        t.id is None,
        t.name is None,
        t.status is None,
    ensures
        torrent_chunks(t) == seq!["\"eta\":"@ + spec_int_chars(t.eta->0 as int)] + torrent_chunks(Torrent { eta: None, ..t }),
{
    assert(torrent_chunks(t) =~= seq!["\"eta\":"@ + spec_int_chars(t.eta->0 as int)] + torrent_chunks(Torrent { eta: None, ..t }));
}


/// With the lower-ranked fields absent, this field's chunk leads the list.
proof fn lemma_chunks_cons_error(t: Torrent)
    requires
        t.error is Some,
        t.id is None,
        t.name is None,
        t.status is None,
        t.eta is None,
    ensures
        torrent_chunks(t) == seq!["\"error\":"@ + spec_int_chars(t.error->0 as int)] + torrent_chunks(Torrent { error: None, ..t }),
{
    assert(torrent_chunks(t) =~= seq!["\"error\":"@ + spec_int_chars(t.error->0 as int)] + torrent_chunks(Torrent { error: None, ..t }));
}


/// With the lower-ranked fields absent, this field's chunk leads the list.
proof fn lemma_chunks_cons_total_size(t: Torrent)
    requires
        t.total_size is Some,
        t.id is None,
        t.name is None,
        t.status is None,
        t.eta is None,
        t.error is None,
    ensures
        torrent_chunks(t) == seq!["\"total-size\":"@ + spec_int_chars(t.total_size->0 as int)] + torrent_chunks(Torrent { total_size: None, ..t }),
{
    assert(torrent_chunks(t) =~= seq!["\"total-size\":"@ + spec_int_chars(t.total_size->0 as int)] + torrent_chunks(Torrent { total_size: None, ..t }));
}



/// A member tail whose chunk list begins with `ck` is `ck` followed by a
/// comma and the rest, or by the closing brace alone.
proof fn lemma_mem_tail_build(t: Torrent, tc: Torrent, ck: Seq<char>)
    requires
        torrent_chunks(t) == seq![ck] + torrent_chunks(tc),
    ensures
        torrent_chunks(tc).len() == 0 ==> mem_tail_chars(t) == ck + "}"@,
        torrent_chunks(tc).len() > 0 ==> mem_tail_chars(t) == ck + (seq![','] + mem_tail_chars(
            tc,
        )),
{
    assert(torrent_chunks(t)[0] == ck);
    assert(torrent_chunks(t).drop_first() =~= torrent_chunks(tc));
    if torrent_chunks(tc).len() == 0 {
        assert(torrent_chunks(t) =~= seq![ck]);
        assert(join_comma(seq![ck]) == ck);
        assert(mem_tail_chars(t) =~= ck + "}"@);
    } else {
        assert(join_comma(torrent_chunks(t)) == ck + seq![','] + join_comma(torrent_chunks(tc)));
        assert(mem_tail_chars(t) =~= ck + (seq![','] + mem_tail_chars(tc)));
    }
}

/// Placement of the parts of a member tail: its first member's key and
/// value stand at `i`, and after them either a comma and the rest of the
/// members, or the closing brace.
#[verifier::rlimit(100)]
proof fn lemma_mem_shape(s: Seq<char>, i: int, t: Torrent)
    requires
        mem_at(s, i, t),
        torrent_ok(t),
    ensures
        torrent_chunks(t).len() == 0 ==> lit_at(s, i, "}"@) && mem_tail_chars(t).len() == 1,
        (t.id is Some) ==> ({
            let p = i + 5 + spec_int_chars(t.id->0 as int).len();
            &&& (torrent_chunks(Torrent { id: None, ..t }).len() > 0 ==> lit_at(s, p, ","@) && mem_at(
                s,
                p + 1,
                Torrent { id: None, ..t },
            ))
            &&& (torrent_chunks(Torrent { id: None, ..t }).len() == 0 ==> lit_at(s, p, "}"@))
            &&& p + 1 <= i + mem_tail_chars(t).len()
            &&& (torrent_chunks(Torrent { id: None, ..t }).len() == 0 ==> p + 1 == i + mem_tail_chars(t).len())
            &&& lit_at(s, i, "\"id\":"@)
            &&& int_at(s, i + 5, t.id->0 as int)
        }),
        (t.name is Some && t.id is None) ==> ({
            let p = i + 8 + t.name->0@.len() + 1;
            &&& (torrent_chunks(Torrent { name: None, ..t }).len() > 0 ==> lit_at(s, p, ","@) && mem_at(
                s,
                p + 1,
                Torrent { name: None, ..t },
            ))
            &&& (torrent_chunks(Torrent { name: None, ..t }).len() == 0 ==> lit_at(s, p, "}"@))
            &&& p + 1 <= i + mem_tail_chars(t).len()
            &&& (torrent_chunks(Torrent { name: None, ..t }).len() == 0 ==> p + 1 == i + mem_tail_chars(t).len())
            &&& lit_at(s, i, "\"name\":"@ + seq!['"'])
            &&& str_at(s, i + 8, t.name->0@)
        }),
        (t.status is Some && t.id is None && t.name is None) ==> ({
            let p = i + 9 + spec_int_chars(t.status->0 as int).len();
            &&& (torrent_chunks(Torrent { status: None, ..t }).len() > 0 ==> lit_at(s, p, ","@) && mem_at(
                s,
                p + 1,
                Torrent { status: None, ..t },
            ))
            &&& (torrent_chunks(Torrent { status: None, ..t }).len() == 0 ==> lit_at(s, p, "}"@))
            &&& p + 1 <= i + mem_tail_chars(t).len()
            &&& (torrent_chunks(Torrent { status: None, ..t }).len() == 0 ==> p + 1 == i + mem_tail_chars(t).len())
            &&& lit_at(s, i, "\"status\":"@)
            &&& int_at(s, i + 9, t.status->0 as int)
        }),
        (t.eta is Some && t.id is None && t.name is None && t.status is None) ==> ({
            let p = i + 6 + spec_int_chars(t.eta->0 as int).len();
            &&& (torrent_chunks(Torrent { eta: None, ..t }).len() > 0 ==> lit_at(s, p, ","@) && mem_at(
                s,
                p + 1,
                Torrent { eta: None, ..t },
            ))
            &&& (torrent_chunks(Torrent { eta: None, ..t }).len() == 0 ==> lit_at(s, p, "}"@))
            &&& p + 1 <= i + mem_tail_chars(t).len()
            &&& (torrent_chunks(Torrent { eta: None, ..t }).len() == 0 ==> p + 1 == i + mem_tail_chars(t).len())
            &&& lit_at(s, i, "\"eta\":"@)
            &&& int_at(s, i + 6, t.eta->0 as int)
        }),
        (t.error is Some && t.id is None && t.name is None && t.status is None && t.eta is None) ==> ({
            let p = i + 8 + spec_int_chars(t.error->0 as int).len();
            &&& (torrent_chunks(Torrent { error: None, ..t }).len() > 0 ==> lit_at(s, p, ","@) && mem_at(
                s,
                p + 1,
                Torrent { error: None, ..t },
            ))
            &&& (torrent_chunks(Torrent { error: None, ..t }).len() == 0 ==> lit_at(s, p, "}"@))
            &&& p + 1 <= i + mem_tail_chars(t).len()
            &&& (torrent_chunks(Torrent { error: None, ..t }).len() == 0 ==> p + 1 == i + mem_tail_chars(t).len())
            &&& lit_at(s, i, "\"error\":"@)
            &&& int_at(s, i + 8, t.error->0 as int)
        }),
        (t.total_size is Some && t.id is None && t.name is None && t.status is None && t.eta is None && t.error is None) ==> ({
            let p = i + 13 + spec_int_chars(t.total_size->0 as int).len();
            &&& (torrent_chunks(Torrent { total_size: None, ..t }).len() > 0 ==> lit_at(s, p, ","@) && mem_at(
                s,
                p + 1,
                Torrent { total_size: None, ..t },
            ))
            &&& (torrent_chunks(Torrent { total_size: None, ..t }).len() == 0 ==> lit_at(s, p, "}"@))
            &&& p + 1 <= i + mem_tail_chars(t).len()
            &&& (torrent_chunks(Torrent { total_size: None, ..t }).len() == 0 ==> p + 1 == i + mem_tail_chars(t).len())
            &&& lit_at(s, i, "\"total-size\":"@)
            &&& int_at(s, i + 13, t.total_size->0 as int)
        }),
{
    reveal_strlit("}");
    reveal_strlit(",");
    reveal_strlit("\"id\":");
    reveal_strlit("\"name\":");
    reveal_strlit("\"status\":");
    reveal_strlit("\"eta\":");
    reveal_strlit("\"error\":");
    reveal_strlit("\"total-size\":");
    assert(lit_at(s, i, mem_tail_chars(t)));
    if t.id is Some {
        lemma_chunks_cons_id(t);
        let ck = "\"id\":"@ + spec_int_chars(t.id->0 as int);
        let tc = Torrent { id: None, ..t };
        let p = i + ck.len() as int;
        if torrent_chunks(tc).len() == 0 {
            assert(join_comma(torrent_chunks(t)) == ck);
            assert(mem_tail_chars(t) =~= ck + "}"@);
            crate::codec::lemma_lit_at_concat(s, i, ck, "}"@);
            let rest = "}"@;
            crate::codec::lemma_lit_at_concat(s, i, "\"id\":"@, spec_int_chars(t.id->0 as int));
            crate::numbers::lemma_nat_chars_canonical(
                if t.id->0 < 0 {
                    (-(t.id->0 as int)) as nat
                } else {
                    t.id->0 as nat
                },
            );
            crate::codec::lemma_lit_at_index(s, p, rest, 0);
            assert(s[p] == ',' || s[p] == '}');
            assert(int_at(s, i + 5, t.id->0 as int));
        } else {
            assert(torrent_chunks(t)[0] == ck);
            assert(torrent_chunks(t).drop_first() =~= torrent_chunks(tc));
            assert(join_comma(torrent_chunks(t)) == ck + seq![','] + join_comma(
                torrent_chunks(tc),
            ));
            assert(mem_tail_chars(t) =~= ck + (seq![','] + mem_tail_chars(tc)));
            crate::codec::lemma_lit_at_concat(s, i, ck, seq![','] + mem_tail_chars(tc));
            crate::codec::lemma_lit_at_concat(s, p, seq![','], mem_tail_chars(tc));
            assert(seq![','] =~= ","@);
            let rest = seq![','] + mem_tail_chars(tc);
            crate::codec::lemma_lit_at_concat(s, i, "\"id\":"@, spec_int_chars(t.id->0 as int));
            crate::numbers::lemma_nat_chars_canonical(
                if t.id->0 < 0 {
                    (-(t.id->0 as int)) as nat
                } else {
                    t.id->0 as nat
                },
            );
            crate::codec::lemma_lit_at_index(s, p, rest, 0);
            assert(s[p] == ',' || s[p] == '}');
            assert(int_at(s, i + 5, t.id->0 as int));
        }
    } else
    if t.name is Some && t.id is None {
        lemma_chunks_cons_name(t);
        let ck = "\"name\":"@ + quoted_chars(t.name->0@);
        let tc = Torrent { name: None, ..t };
        let p = i + ck.len() as int;
        if torrent_chunks(tc).len() == 0 {
            assert(join_comma(torrent_chunks(t)) == ck);
            assert(mem_tail_chars(t) =~= ck + "}"@);
            crate::codec::lemma_lit_at_concat(s, i, ck, "}"@);
            let rest = "}"@;
            assert(ck =~= ("\"name\":"@ + seq!['"']) + (t.name->0@ + seq!['"']));
            assert(lit_at(s, i, ck));
            crate::codec::lemma_lit_at_concat(
                s,
                i,
                ("\"name\":"@ + seq!['"']),
                t.name->0@ + seq!['"'],
            );
            crate::codec::lemma_lit_at_concat(s, i + 8, t.name->0@, seq!['"']);
            crate::codec::lemma_lit_at_index(s, i + 8 + t.name->0@.len() as int, seq!['"'], 0);
            assert(s[i + 8 + t.name->0@.len() as int] == '"');
            assert(str_at(s, i + 8, t.name->0@));
        } else {
            assert(torrent_chunks(t)[0] == ck);
            assert(torrent_chunks(t).drop_first() =~= torrent_chunks(tc));
            assert(join_comma(torrent_chunks(t)) == ck + seq![','] + join_comma(
                torrent_chunks(tc),
            ));
            assert(mem_tail_chars(t) =~= ck + (seq![','] + mem_tail_chars(tc)));
            crate::codec::lemma_lit_at_concat(s, i, ck, seq![','] + mem_tail_chars(tc));
            crate::codec::lemma_lit_at_concat(s, p, seq![','], mem_tail_chars(tc));
            assert(seq![','] =~= ","@);
            let rest = seq![','] + mem_tail_chars(tc);
            assert(ck =~= ("\"name\":"@ + seq!['"']) + (t.name->0@ + seq!['"']));
            assert(lit_at(s, i, ck));
            crate::codec::lemma_lit_at_concat(
                s,
                i,
                ("\"name\":"@ + seq!['"']),
                t.name->0@ + seq!['"'],
            );
            crate::codec::lemma_lit_at_concat(s, i + 8, t.name->0@, seq!['"']);
            crate::codec::lemma_lit_at_index(s, i + 8 + t.name->0@.len() as int, seq!['"'], 0);
            assert(s[i + 8 + t.name->0@.len() as int] == '"');
            assert(str_at(s, i + 8, t.name->0@));
        }
    } else
    if t.status is Some && t.id is None && t.name is None {
        lemma_chunks_cons_status(t);
        let ck = "\"status\":"@ + spec_int_chars(t.status->0 as int);
        let tc = Torrent { status: None, ..t };
        let p = i + ck.len() as int;
        if torrent_chunks(tc).len() == 0 {
            assert(join_comma(torrent_chunks(t)) == ck);
            assert(mem_tail_chars(t) =~= ck + "}"@);
            crate::codec::lemma_lit_at_concat(s, i, ck, "}"@);
            let rest = "}"@;
            crate::codec::lemma_lit_at_concat(s, i, "\"status\":"@, spec_int_chars(t.status->0 as int));
            crate::numbers::lemma_nat_chars_canonical(
                if t.status->0 < 0 {
                    (-(t.status->0 as int)) as nat
                } else {
                    t.status->0 as nat
                },
            );
            crate::codec::lemma_lit_at_index(s, p, rest, 0);
            assert(s[p] == ',' || s[p] == '}');
            assert(int_at(s, i + 9, t.status->0 as int));
        } else {
            assert(torrent_chunks(t)[0] == ck);
            assert(torrent_chunks(t).drop_first() =~= torrent_chunks(tc));
            assert(join_comma(torrent_chunks(t)) == ck + seq![','] + join_comma(
                torrent_chunks(tc),
            ));
            assert(mem_tail_chars(t) =~= ck + (seq![','] + mem_tail_chars(tc)));
            crate::codec::lemma_lit_at_concat(s, i, ck, seq![','] + mem_tail_chars(tc));
            crate::codec::lemma_lit_at_concat(s, p, seq![','], mem_tail_chars(tc));
            assert(seq![','] =~= ","@);
            let rest = seq![','] + mem_tail_chars(tc);
            crate::codec::lemma_lit_at_concat(s, i, "\"status\":"@, spec_int_chars(t.status->0 as int));
            crate::numbers::lemma_nat_chars_canonical(
                if t.status->0 < 0 {
                    (-(t.status->0 as int)) as nat
                } else {
                    t.status->0 as nat
                },
            );
            crate::codec::lemma_lit_at_index(s, p, rest, 0);
            assert(s[p] == ',' || s[p] == '}');
            assert(int_at(s, i + 9, t.status->0 as int));
        }
    } else
    if t.eta is Some && t.id is None && t.name is None && t.status is None {
        lemma_chunks_cons_eta(t);
        let ck = "\"eta\":"@ + spec_int_chars(t.eta->0 as int);
        let tc = Torrent { eta: None, ..t };
        let p = i + ck.len() as int;
        if torrent_chunks(tc).len() == 0 {
            assert(join_comma(torrent_chunks(t)) == ck);
            assert(mem_tail_chars(t) =~= ck + "}"@);
            crate::codec::lemma_lit_at_concat(s, i, ck, "}"@);
            let rest = "}"@;
            crate::codec::lemma_lit_at_concat(s, i, "\"eta\":"@, spec_int_chars(t.eta->0 as int));
            crate::numbers::lemma_nat_chars_canonical(
                if t.eta->0 < 0 {
                    (-(t.eta->0 as int)) as nat
                } else {
                    t.eta->0 as nat
                },
            );
            crate::codec::lemma_lit_at_index(s, p, rest, 0);
            assert(s[p] == ',' || s[p] == '}');
            assert(int_at(s, i + 6, t.eta->0 as int));
        } else {
            assert(torrent_chunks(t)[0] == ck);
            assert(torrent_chunks(t).drop_first() =~= torrent_chunks(tc));
            assert(join_comma(torrent_chunks(t)) == ck + seq![','] + join_comma(
                torrent_chunks(tc),
            ));
            assert(mem_tail_chars(t) =~= ck + (seq![','] + mem_tail_chars(tc)));
            crate::codec::lemma_lit_at_concat(s, i, ck, seq![','] + mem_tail_chars(tc));
            crate::codec::lemma_lit_at_concat(s, p, seq![','], mem_tail_chars(tc));
            assert(seq![','] =~= ","@);
            let rest = seq![','] + mem_tail_chars(tc);
            crate::codec::lemma_lit_at_concat(s, i, "\"eta\":"@, spec_int_chars(t.eta->0 as int));
            crate::numbers::lemma_nat_chars_canonical(
                if t.eta->0 < 0 {
                    (-(t.eta->0 as int)) as nat
                } else {
                    t.eta->0 as nat
                },
            );
            crate::codec::lemma_lit_at_index(s, p, rest, 0);
            assert(s[p] == ',' || s[p] == '}');
            assert(int_at(s, i + 6, t.eta->0 as int));
        }
    } else
    if t.error is Some && t.id is None && t.name is None && t.status is None && t.eta is None {
        lemma_chunks_cons_error(t);
        let ck = "\"error\":"@ + spec_int_chars(t.error->0 as int);
        let tc = Torrent { error: None, ..t };
        let p = i + ck.len() as int;
        if torrent_chunks(tc).len() == 0 {
            assert(join_comma(torrent_chunks(t)) == ck);
            assert(mem_tail_chars(t) =~= ck + "}"@);
            crate::codec::lemma_lit_at_concat(s, i, ck, "}"@);
            let rest = "}"@;
            crate::codec::lemma_lit_at_concat(s, i, "\"error\":"@, spec_int_chars(t.error->0 as int));
            crate::numbers::lemma_nat_chars_canonical(
                if t.error->0 < 0 {
                    (-(t.error->0 as int)) as nat
                } else {
                    t.error->0 as nat
                },
            );
            crate::codec::lemma_lit_at_index(s, p, rest, 0);
            assert(s[p] == ',' || s[p] == '}');
            assert(int_at(s, i + 8, t.error->0 as int));
        } else {
            assert(torrent_chunks(t)[0] == ck);
            assert(torrent_chunks(t).drop_first() =~= torrent_chunks(tc));
            assert(join_comma(torrent_chunks(t)) == ck + seq![','] + join_comma(
                torrent_chunks(tc),
            ));
            assert(mem_tail_chars(t) =~= ck + (seq![','] + mem_tail_chars(tc)));
            crate::codec::lemma_lit_at_concat(s, i, ck, seq![','] + mem_tail_chars(tc));
            crate::codec::lemma_lit_at_concat(s, p, seq![','], mem_tail_chars(tc));
            assert(seq![','] =~= ","@);
            let rest = seq![','] + mem_tail_chars(tc);
            crate::codec::lemma_lit_at_concat(s, i, "\"error\":"@, spec_int_chars(t.error->0 as int));
            crate::numbers::lemma_nat_chars_canonical(
                if t.error->0 < 0 {
                    (-(t.error->0 as int)) as nat
                } else {
                    t.error->0 as nat
                },
            );
            crate::codec::lemma_lit_at_index(s, p, rest, 0);
            assert(s[p] == ',' || s[p] == '}');
            assert(int_at(s, i + 8, t.error->0 as int));
        }
    } else
    if t.total_size is Some && t.id is None && t.name is None && t.status is None && t.eta is None && t.error is None {
        lemma_chunks_cons_total_size(t);
        let ck = "\"total-size\":"@ + spec_int_chars(t.total_size->0 as int);
        let tc = Torrent { total_size: None, ..t };
        let p = i + ck.len() as int;
        if torrent_chunks(tc).len() == 0 {
            assert(join_comma(torrent_chunks(t)) == ck);
            assert(mem_tail_chars(t) =~= ck + "}"@);
            crate::codec::lemma_lit_at_concat(s, i, ck, "}"@);
            let rest = "}"@;
            crate::codec::lemma_lit_at_concat(s, i, "\"total-size\":"@, spec_int_chars(t.total_size->0 as int));
            crate::numbers::lemma_nat_chars_canonical(
                if t.total_size->0 < 0 {
                    (-(t.total_size->0 as int)) as nat
                } else {
                    t.total_size->0 as nat
                },
            );
            crate::codec::lemma_lit_at_index(s, p, rest, 0);
            assert(s[p] == ',' || s[p] == '}');
            assert(int_at(s, i + 13, t.total_size->0 as int));
        } else {
            assert(torrent_chunks(t)[0] == ck);
            assert(torrent_chunks(t).drop_first() =~= torrent_chunks(tc));
            assert(join_comma(torrent_chunks(t)) == ck + seq![','] + join_comma(
                torrent_chunks(tc),
            ));
            assert(mem_tail_chars(t) =~= ck + (seq![','] + mem_tail_chars(tc)));
            crate::codec::lemma_lit_at_concat(s, i, ck, seq![','] + mem_tail_chars(tc));
            crate::codec::lemma_lit_at_concat(s, p, seq![','], mem_tail_chars(tc));
            assert(seq![','] =~= ","@);
            let rest = seq![','] + mem_tail_chars(tc);
            crate::codec::lemma_lit_at_concat(s, i, "\"total-size\":"@, spec_int_chars(t.total_size->0 as int));
            crate::numbers::lemma_nat_chars_canonical(
                if t.total_size->0 < 0 {
                    (-(t.total_size->0 as int)) as nat
                } else {
                    t.total_size->0 as nat
                },
            );
            crate::codec::lemma_lit_at_index(s, p, rest, 0);
            assert(s[p] == ',' || s[p] == '}');
            assert(int_at(s, i + 13, t.total_size->0 as int));
        }
    } else {
        assert(t.id is None && t.name is None && t.status is None && t.eta is None && t.error
            is None && t.total_size is None);
        assert(torrent_chunks(t).len() == 0);
        assert(mem_tail_chars(t) =~= "}"@);
    }
}


/// A key standing at the head of a member tail is the tail's first
/// member's key, which pins which field comes first.
proof fn lemma_first_key(s: Seq<char>, i: int, t: Torrent, r1: int)
    requires
        mem_at(s, i, t),
        torrent_ok(t),
        1 <= r1 <= 6,
        lit_at(s, i, key_chars(r1)),
    ensures
        r1 == 1 ==> t.id is Some,
        r1 == 2 ==> t.id is None && t.name is Some,
        r1 == 3 ==> t.id is None && t.name is None && t.status is Some,
        r1 == 4 ==> t.id is None && t.name is None && t.status is None && t.eta is Some,
        r1 == 5 ==> t.id is None && t.name is None && t.status is None && t.eta is None && t.error
            is Some,
        r1 == 6 ==> t.id is None && t.name is None && t.status is None && t.eta is None && t.error
            is None && t.total_size is Some,
{
    reveal_strlit("}");
    reveal_strlit("\"id\":");
    reveal_strlit("\"name\":");
    reveal_strlit("\"status\":");
    reveal_strlit("\"eta\":");
    reveal_strlit("\"error\":");
    reveal_strlit("\"total-size\":");
    lemma_mem_shape(s, i, t);
    if torrent_chunks(t).len() == 0 {
        crate::codec::lemma_lit_at_index(s, i, "}"@, 0);
        crate::codec::lemma_lit_at_index(s, i, key_chars(r1), 0);
        assert(false);
    } else if t.id is Some {
        lemma_key_at_unique(s, i, r1, 1);
    } else if t.name is Some {
        assert(lit_at(s, i, key_chars(2))) by {
            crate::codec::lemma_lit_at_concat(s, i, "\"name\":"@, seq!['"']);
        }
        lemma_key_at_unique(s, i, r1, 2);
    } else if t.status is Some {
        lemma_key_at_unique(s, i, r1, 3);
    } else if t.eta is Some {
        lemma_key_at_unique(s, i, r1, 4);
    } else if t.error is Some {
        lemma_key_at_unique(s, i, r1, 5);
    } else {
        assert(t.total_size is Some);
        lemma_key_at_unique(s, i, r1, 6);
    }
}


/// One text, one member tail: two member tails standing at the same
/// position are the same text.
#[verifier::rlimit(100)]
proof fn lemma_mem_text_unique(s: Seq<char>, i: int, t1: Torrent, t2: Torrent)
    requires
        mem_at(s, i, t1),
        mem_at(s, i, t2),
        torrent_ok(t1),
        torrent_ok(t2),
    ensures
        mem_tail_chars(t1) == mem_tail_chars(t2),
    decreases torrent_chunks(t1).len(),
{
    reveal_strlit("}");
    reveal_strlit(",");
    reveal_strlit("\"id\":");
    reveal_strlit("\"name\":");
    reveal_strlit("\"status\":");
    reveal_strlit("\"eta\":");
    reveal_strlit("\"error\":");
    reveal_strlit("\"total-size\":");
    lemma_mem_shape(s, i, t1);
    lemma_mem_shape(s, i, t2);
    if t1.id is Some {
        assert(lit_at(s, i, key_chars(1)));
        lemma_first_key(s, i, t2, 1);
        crate::numbers::lemma_int_at_unique(s, i + 5, t1.id->0 as int, t2.id->0 as int);
        let p = i + 5 + spec_int_chars(t1.id->0 as int).len();
        let tc1 = Torrent { id: None, ..t1 };
        let tc2 = Torrent { id: None, ..t2 };
        lemma_chunks_cons_id(t1);
        lemma_chunks_cons_id(t2);
        lemma_mem_tail_build(t1, tc1, "\"id\":"@ + spec_int_chars(t1.id->0 as int));
        lemma_mem_tail_build(t2, tc2, "\"id\":"@ + spec_int_chars(t2.id->0 as int));
        if torrent_chunks(tc1).len() == 0 && torrent_chunks(tc2).len() == 0 {
            assert(mem_tail_chars(t1) == mem_tail_chars(t2));
        } else if torrent_chunks(tc1).len() > 0 && torrent_chunks(tc2).len() > 0 {
            lemma_mem_text_unique(s, p + 1, tc1, tc2);
            assert(mem_tail_chars(t1) == mem_tail_chars(t2));
        } else {
            crate::codec::lemma_lit_at_index(s, p, ","@, 0);
            crate::codec::lemma_lit_at_index(s, p, "}"@, 0);
            assert(false);
        }
    } else
    if t1.name is Some && t1.id is None {
        assert(lit_at(s, i, key_chars(2))) by {
            crate::codec::lemma_lit_at_concat(s, i, "\"name\":"@, seq!['"']);
        }
        lemma_first_key(s, i, t2, 2);
        crate::codec::lemma_str_at_unique(s, i + 8, t1.name->0@, t2.name->0@);
        let p = i + 8 + t1.name->0@.len() + 1;
        let tc1 = Torrent { name: None, ..t1 };
        let tc2 = Torrent { name: None, ..t2 };
        lemma_chunks_cons_name(t1);
        lemma_chunks_cons_name(t2);
        lemma_mem_tail_build(t1, tc1, "\"name\":"@ + quoted_chars(t1.name->0@));
        lemma_mem_tail_build(t2, tc2, "\"name\":"@ + quoted_chars(t2.name->0@));
        if torrent_chunks(tc1).len() == 0 && torrent_chunks(tc2).len() == 0 {
            assert(mem_tail_chars(t1) == mem_tail_chars(t2));
        } else if torrent_chunks(tc1).len() > 0 && torrent_chunks(tc2).len() > 0 {
            lemma_mem_text_unique(s, p + 1, tc1, tc2);
            assert(mem_tail_chars(t1) == mem_tail_chars(t2));
        } else {
            crate::codec::lemma_lit_at_index(s, p, ","@, 0);
            crate::codec::lemma_lit_at_index(s, p, "}"@, 0);
            assert(false);
        }
    } else
    if t1.status is Some && t1.id is None && t1.name is None {
        assert(lit_at(s, i, key_chars(3)));
        lemma_first_key(s, i, t2, 3);
        crate::numbers::lemma_int_at_unique(s, i + 9, t1.status->0 as int, t2.status->0 as int);
        let p = i + 9 + spec_int_chars(t1.status->0 as int).len();
        let tc1 = Torrent { status: None, ..t1 };
        let tc2 = Torrent { status: None, ..t2 };
        lemma_chunks_cons_status(t1);
        lemma_chunks_cons_status(t2);
        lemma_mem_tail_build(t1, tc1, "\"status\":"@ + spec_int_chars(t1.status->0 as int));
        lemma_mem_tail_build(t2, tc2, "\"status\":"@ + spec_int_chars(t2.status->0 as int));
        if torrent_chunks(tc1).len() == 0 && torrent_chunks(tc2).len() == 0 {
            assert(mem_tail_chars(t1) == mem_tail_chars(t2));
        } else if torrent_chunks(tc1).len() > 0 && torrent_chunks(tc2).len() > 0 {
            lemma_mem_text_unique(s, p + 1, tc1, tc2);
            assert(mem_tail_chars(t1) == mem_tail_chars(t2));
        } else {
            crate::codec::lemma_lit_at_index(s, p, ","@, 0);
            crate::codec::lemma_lit_at_index(s, p, "}"@, 0);
            assert(false);
        }
    } else
    if t1.eta is Some && t1.id is None && t1.name is None && t1.status is None {
        assert(lit_at(s, i, key_chars(4)));
        lemma_first_key(s, i, t2, 4);
        crate::numbers::lemma_int_at_unique(s, i + 6, t1.eta->0 as int, t2.eta->0 as int);
        let p = i + 6 + spec_int_chars(t1.eta->0 as int).len();
        let tc1 = Torrent { eta: None, ..t1 };
        let tc2 = Torrent { eta: None, ..t2 };
        lemma_chunks_cons_eta(t1);
        lemma_chunks_cons_eta(t2);
        lemma_mem_tail_build(t1, tc1, "\"eta\":"@ + spec_int_chars(t1.eta->0 as int));
        lemma_mem_tail_build(t2, tc2, "\"eta\":"@ + spec_int_chars(t2.eta->0 as int));
        if torrent_chunks(tc1).len() == 0 && torrent_chunks(tc2).len() == 0 {
            assert(mem_tail_chars(t1) == mem_tail_chars(t2));
        } else if torrent_chunks(tc1).len() > 0 && torrent_chunks(tc2).len() > 0 {
            lemma_mem_text_unique(s, p + 1, tc1, tc2);
            assert(mem_tail_chars(t1) == mem_tail_chars(t2));
        } else {
            crate::codec::lemma_lit_at_index(s, p, ","@, 0);
            crate::codec::lemma_lit_at_index(s, p, "}"@, 0);
            assert(false);
        }
    } else
    if t1.error is Some && t1.id is None && t1.name is None && t1.status is None && t1.eta is None {
        assert(lit_at(s, i, key_chars(5)));
        lemma_first_key(s, i, t2, 5);
        crate::numbers::lemma_int_at_unique(s, i + 8, t1.error->0 as int, t2.error->0 as int);
        let p = i + 8 + spec_int_chars(t1.error->0 as int).len();
        let tc1 = Torrent { error: None, ..t1 };
        let tc2 = Torrent { error: None, ..t2 };
        lemma_chunks_cons_error(t1);
        lemma_chunks_cons_error(t2);
        lemma_mem_tail_build(t1, tc1, "\"error\":"@ + spec_int_chars(t1.error->0 as int));
        lemma_mem_tail_build(t2, tc2, "\"error\":"@ + spec_int_chars(t2.error->0 as int));
        if torrent_chunks(tc1).len() == 0 && torrent_chunks(tc2).len() == 0 {
            assert(mem_tail_chars(t1) == mem_tail_chars(t2));
        } else if torrent_chunks(tc1).len() > 0 && torrent_chunks(tc2).len() > 0 {
            lemma_mem_text_unique(s, p + 1, tc1, tc2);
            assert(mem_tail_chars(t1) == mem_tail_chars(t2));
        } else {
            crate::codec::lemma_lit_at_index(s, p, ","@, 0);
            crate::codec::lemma_lit_at_index(s, p, "}"@, 0);
            assert(false);
        }
    } else
    if t1.total_size is Some && t1.id is None && t1.name is None && t1.status is None && t1.eta is None && t1.error is None {
        assert(lit_at(s, i, key_chars(6)));
        lemma_first_key(s, i, t2, 6);
        crate::numbers::lemma_int_at_unique(s, i + 13, t1.total_size->0 as int, t2.total_size->0 as int);
        let p = i + 13 + spec_int_chars(t1.total_size->0 as int).len();
        let tc1 = Torrent { total_size: None, ..t1 };
        let tc2 = Torrent { total_size: None, ..t2 };
        lemma_chunks_cons_total_size(t1);
        lemma_chunks_cons_total_size(t2);
        lemma_mem_tail_build(t1, tc1, "\"total-size\":"@ + spec_int_chars(t1.total_size->0 as int));
        lemma_mem_tail_build(t2, tc2, "\"total-size\":"@ + spec_int_chars(t2.total_size->0 as int));
        if torrent_chunks(tc1).len() == 0 && torrent_chunks(tc2).len() == 0 {
            assert(mem_tail_chars(t1) == mem_tail_chars(t2));
        } else if torrent_chunks(tc1).len() > 0 && torrent_chunks(tc2).len() > 0 {
            lemma_mem_text_unique(s, p + 1, tc1, tc2);
            assert(mem_tail_chars(t1) == mem_tail_chars(t2));
        } else {
            crate::codec::lemma_lit_at_index(s, p, ","@, 0);
            crate::codec::lemma_lit_at_index(s, p, "}"@, 0);
            assert(false);
        }
    } else {
        assert(torrent_chunks(t1).len() == 0);
        assert(lit_at(s, i, "}"@));
        if torrent_chunks(t2).len() > 0 {
            if t2.id is Some {
                lemma_first_key(s, i, t2, 1);
                crate::codec::lemma_lit_at_index(s, i, key_chars(1), 0);
            } else if t2.name is Some {
                assert(lit_at(s, i, key_chars(2))) by {
                    crate::codec::lemma_lit_at_concat(s, i, "\"name\":"@, seq!['"']);
                }
                crate::codec::lemma_lit_at_index(s, i, key_chars(2), 0);
            } else if t2.status is Some {
                crate::codec::lemma_lit_at_index(s, i, key_chars(3), 0);
            } else if t2.eta is Some {
                crate::codec::lemma_lit_at_index(s, i, key_chars(4), 0);
            } else if t2.error is Some {
                crate::codec::lemma_lit_at_index(s, i, key_chars(5), 0);
            } else {
                crate::codec::lemma_lit_at_index(s, i, key_chars(6), 0);
            }
            crate::codec::lemma_lit_at_index(s, i, "}"@, 0);
            assert(false);
        }
        assert(mem_tail_chars(t1) =~= "}"@);
        assert(mem_tail_chars(t2) =~= "}"@);
    }
}


/// Parses one integer-valued member `key<int>` at `j`: exact in both
/// directions over the key-and-canonical-integer shape.
fn parse_int_member(s: &Vec<char>, j: usize, key: &str) -> (r: Option<(i64, usize)>)
    requires
        j <= s@.len(),
    ensures
        match r {
            Some((n2, j2)) => j < j2 <= s@.len() && s@.subrange(j as int, j2 as int) == key@
                + spec_int_chars(n2 as int) && lit_at(s@, j as int, key@) && int_at(
                s@,
                j + key@.len(),
                n2 as int,
            ) && j2 == j + key@.len() + spec_int_chars(n2 as int).len(),
            None => forall|v: i64|
                !(lit_at(s@, j as int, key@) && #[trigger] int_at(s@, j + key@.len(), v as int)),
        },
{
    let nn = s.len();
    if !match_lit(s, j, key) {
        return None;
    }
    let off = key.unicode_len();
    proof {
        assert(j + key@.len() <= nn);
    }
    match crate::numbers::parse_i64(s, j + off) {
        Some((n2, j2)) => {
            proof {
                assert(lit_at(s@, j + off, spec_int_chars(n2 as int)));
                crate::codec::lemma_lit_at_join(s@, j as int, key@, spec_int_chars(n2 as int));
            }
            Some((n2, j2))
        },
        None => None,
    }
}

/// Parses one string-valued member at `j`: `keyq` is the key with the
/// opening quote of the value, `key` the same key without it. Exact in
/// both directions over the key-and-quoted-string shape.
fn parse_str_member(s: &Vec<char>, j: usize, keyq: &str, key: &str) -> (r: Option<(
    Vec<char>,
    usize,
)>)
    requires
        j <= s@.len(),
        keyq@ == key@ + seq!['"'],
    ensures
        match r {
            Some((c, j2)) => j < j2 <= s@.len() && s@.subrange(j as int, j2 as int) == key@
                + quoted_chars(c@) && string_ok(c@) && lit_at(s@, j as int, keyq@) && str_at(
                s@,
                j + key@.len() + 1,
                c@,
            ) && j2 == j + key@.len() + 2 + c@.len(),
            None => forall|c: Seq<char>|
                !(lit_at(s@, j as int, keyq@) && #[trigger] str_at(s@, j + key@.len() + 1, c)),
        },
{
    let nn = s.len();
    if !match_lit(s, j, keyq) {
        return None;
    }
    let off = keyq.unicode_len();
    proof {
        assert(j + keyq@.len() <= nn);
    }
    match crate::codec::parse_string_content(s, j + off) {
        Some((content, j2)) => {
            proof {
                let g = s@;
                assert(lit_at(g, j + off, content@));
                assert(g[j + off + content@.len()] == '"');
                crate::codec::lemma_lit_at_single(g, j + off + content@.len() as int);
                assert(seq![g[j + off + content@.len() as int]] =~= seq!['"']);
                crate::codec::lemma_lit_at_join(g, j as int, keyq@, content@);
                crate::codec::lemma_lit_at_join(g, j as int, keyq@ + content@, seq!['"']);
                assert(key@ + quoted_chars(content@) =~= (keyq@ + content@) + seq!['"']);
            }
            Some((content, j2))
        },
        None => None,
    }
}


/// A member tail with members opens with the quote of its first key.
proof fn first_member_head_clash(s: Seq<char>, i: int, t: Torrent)
    requires
        mem_at(s, i, t),
        torrent_ok(t),
        torrent_chunks(t).len() > 0,
    ensures
        s[i] == '"',
{
    reveal_strlit("}");
    reveal_strlit("\"id\":");
    reveal_strlit("\"name\":");
    reveal_strlit("\"status\":");
    reveal_strlit("\"eta\":");
    reveal_strlit("\"error\":");
    reveal_strlit("\"total-size\":");
    lemma_mem_shape(s, i, t);
    if t.id is Some {
        crate::codec::lemma_lit_at_index(s, i, "\"id\":"@, 0);
    } else if t.name is Some {
        crate::codec::lemma_lit_at_index(s, i, "\"name\":"@ + seq!['"'], 0);
    } else if t.status is Some {
        crate::codec::lemma_lit_at_index(s, i, "\"status\":"@, 0);
    } else if t.eta is Some {
        crate::codec::lemma_lit_at_index(s, i, "\"eta\":"@, 0);
    } else if t.error is Some {
        crate::codec::lemma_lit_at_index(s, i, "\"error\":"@, 0);
    } else if t.total_size is Some {
        crate::codec::lemma_lit_at_index(s, i, "\"total-size\":"@, 0);
    } else {
        assert(torrent_chunks(t).len() == 0);
    }
}

/// Parses the members of a record from `i` through the record's closing
/// brace, members' ranks at least `min_rank` and strictly increasing.
/// Exact in both directions over such member tails.
fn parse_members(s: &Vec<char>, i: usize, min_rank: u8) -> (r: Option<(Torrent, usize)>)
    requires
        i <= s@.len(),
        1 <= min_rank <= 7,
    ensures
        match r {
            Some((t, j)) => torrent_ok(t) && low_ranks_none(t, min_rank as int) && i < j
                <= s@.len() && s@.subrange(i as int, j as int) == mem_tail_chars(t) && j == i
                + mem_tail_chars(t).len(),
            None => forall|t: Torrent|
                (torrent_ok(t) && low_ranks_none(t, min_rank as int)) ==> !mem_at(
                    s@,
                    i as int,
                    t,
                ),
        },
    decreases s@.len() - i, 10int,
{
    let ghost g = s@;
    let nn = s.len();
    proof {
        reveal_strlit("}");
    }
    if match_lit(s, i, "}") {
        let out = Torrent {
            id: None,
            name: None,
            status: None,
            eta: None,
            error: None,
            total_size: None,
        };
        proof {
            assert(torrent_chunks(out).len() == 0);
            assert(mem_tail_chars(out) =~= "}"@);
            assert(g.subrange(i as int, i + 1) == mem_tail_chars(out));
        }
        return Some((out, i + 1));
    }
    if min_rank <= 1 {
        member_level_1(s, i)
    } else if min_rank <= 2 {
        member_level_2(s, i)
    } else if min_rank <= 3 {
        member_level_3(s, i)
    } else if min_rank <= 4 {
        member_level_4(s, i)
    } else if min_rank <= 5 {
        member_level_5(s, i)
    } else if min_rank <= 6 {
        member_level_6(s, i)
    } else {
        proof {
            assert forall|t: Torrent|
                (torrent_ok(t) && low_ranks_none(t, min_rank as int)) implies !mem_at(
                g,
                i as int,
                t,
            ) by {
                if mem_at(g, i as int, t) {
                    assert(torrent_chunks(t).len() == 0);
                    lemma_mem_shape(g, i as int, t);
                }
            }
        }
        None
    }
}

/// One level of member parsing: this rank's member if it leads here, then
/// the higher ranks.
#[verifier::rlimit(100)]
fn member_level_1(s: &Vec<char>, i: usize) -> (r: Option<(Torrent, usize)>)
    requires
        i <= s@.len(),
        !lit_at(s@, i as int, "}"@),
    ensures
        match r {
            Some((t, j)) => torrent_ok(t) && low_ranks_none(t, 1) && i < j <= s@.len()
                && s@.subrange(i as int, j as int) == mem_tail_chars(t) && j == i
                + mem_tail_chars(t).len(),
            None => forall|t: Torrent|
                (torrent_ok(t) && low_ranks_none(t, 1)) ==> !mem_at(s@, i as int, t),
        },
    decreases s@.len() - i, 6int,
{
    let ghost g = s@;
    let ghost n = g.len() as int;
    let nn = s.len();
    proof {
        reveal_strlit("}");
        reveal_strlit(",");
        reveal_strlit("\"id\":");
        reveal_strlit("\"name\":");
        reveal_strlit("\"status\":");
        reveal_strlit("\"eta\":");
        reveal_strlit("\"error\":");
        reveal_strlit("\"total-size\":");
        reveal_strlit("\"name\":\"");
    }
    match parse_int_member(s, i, "\"id\":") {
        Some((v, j)) => {
            let ghost chunk = "\"id\":"@ + spec_int_chars(v as int);
            if match_lit(s, j, ",") {
                match parse_members(s, j + 1, 2) {
                    Some((t2, j2)) => {
                        if t2.id.is_none() && t2.name.is_none() && t2.status.is_none()
                            && t2.eta.is_none() && t2.error.is_none()
                            && t2.total_size.is_none() {
                            proof {
                                assert(torrent_chunks(t2).len() == 0);
                                assert(g.subrange(j + 1, j2 as int) =~= "}"@);
                                assert forall|t: Torrent|
                                    (torrent_ok(t) && low_ranks_none(t, 1))
                                        implies !mem_at(g, i as int, t) by {
                    if mem_at(g, i as int, t) {
                        assert(lit_at(g, i as int, key_chars(1)));
                        lemma_first_key(g, i as int, t, 1);
                        lemma_mem_shape(g, i as int, t);
                        let tc = Torrent { id: None, ..t };
                        crate::numbers::lemma_int_at_unique(
                            g,
                            i + 5,
                            v as int,
                            t.id->0 as int,
                        );
                                        if torrent_chunks(tc).len() == 0 {
                                            crate::codec::lemma_lit_at_index(
                                                g,
                                                j as int,
                                                "}"@,
                                                0,
                                            );
                                            crate::codec::lemma_lit_at_index(g, j as int, ","@, 0);
                                        } else {
                                            first_member_head_clash(g, j + 1, tc);
                                            assert(g[j + 1] == g.subrange(j + 1, j2 as int)[0]);
                                            assert(g[j + 1] == ']');
                                        }
                                    }
                                }
                            }
                            return None;
                        }
                        let ghost t2g = t2;
                        let mut out = t2;
                        out.id = Some(v);
                        proof {
                            lemma_chunks_cons_id(out);
                            assert(Torrent { id: None, ..out } == t2g);
                            assert(torrent_chunks(out) == seq![chunk] + torrent_chunks(t2g));
                            assert(torrent_chunks(t2g).len() > 0) by {
                                if torrent_chunks(t2g).len() == 0 {
                                    assert(t2g.id is None && t2g.name is None && t2g.status
                                        is None && t2g.eta is None && t2g.error is None
                                        && t2g.total_size is None);
                                }
                            }
                            lemma_mem_tail_build(out, t2g, chunk);
                            assert(g.subrange(i as int, j as int) == chunk);
                            assert(lit_at(g, i as int, chunk));
                            crate::codec::lemma_lit_at_first(g, j as int, ","@);
                            crate::codec::lemma_lit_at_single(g, j as int);
                            assert(seq![g[j as int]] =~= seq![',']);
                            assert(g.subrange(j + 1, j2 as int) == mem_tail_chars(t2g));
                            assert(lit_at(g, j + 1, mem_tail_chars(t2g)));
                            crate::codec::lemma_lit_at_join(g, i as int, chunk, seq![',']);
                            crate::codec::lemma_lit_at_join(
                                g,
                                i as int,
                                chunk + seq![','],
                                mem_tail_chars(t2g),
                            );
                            assert(mem_tail_chars(out) =~= (chunk + seq![','])
                                + mem_tail_chars(t2g));
                            assert(g.subrange(i as int, j2 as int) == mem_tail_chars(out));
                        }
                        return Some((out, j2));
                    },
                    None => {
                        proof {
                            assert forall|t: Torrent|
                                (torrent_ok(t) && low_ranks_none(t, 1))
                                    implies !mem_at(g, i as int, t) by {
                    if mem_at(g, i as int, t) {
                        assert(lit_at(g, i as int, key_chars(1)));
                        lemma_first_key(g, i as int, t, 1);
                        lemma_mem_shape(g, i as int, t);
                        let tc = Torrent { id: None, ..t };
                        crate::numbers::lemma_int_at_unique(
                            g,
                            i + 5,
                            v as int,
                            t.id->0 as int,
                        );
                                    if torrent_chunks(tc).len() == 0 {
                                        crate::codec::lemma_lit_at_index(
                                            g,
                                            j as int,
                                            "}"@,
                                            0,
                                        );
                                        crate::codec::lemma_lit_at_index(g, j as int, ","@, 0);
                                    } else {
                                        assert(torrent_ok(tc));
                                        assert(low_ranks_none(tc, 2));
                                        assert(mem_at(g, j + 1, tc));
                                    }
                                }
                            }
                        }
                        return None;
                    },
                }
            } else if match_lit(s, j, "}") {
                let mut out = Torrent {
                    id: None,
                    name: None,
                    status: None,
                    eta: None,
                    error: None,
                    total_size: None,
                };
                out.id = Some(v);
                proof {
                    assert(torrent_chunks(out) =~= seq![chunk]);
                    assert(join_comma(torrent_chunks(out)) == chunk);
                    assert(g.subrange(i as int, j as int) == chunk);
                    assert(lit_at(g, i as int, chunk));
                    crate::codec::lemma_lit_at_first(g, j as int, "}"@);
                    crate::codec::lemma_lit_at_single(g, j as int);
                    assert(seq![g[j as int]] =~= seq!['}']);
                    assert("}"@ =~= seq!['}']);
                    crate::codec::lemma_lit_at_join(g, i as int, chunk, "}"@);
                    assert(mem_tail_chars(out) =~= chunk + "}"@);
                    assert(g.subrange(i as int, j + 1) == mem_tail_chars(out));
                }
                return Some((out, j + 1));
            } else {
                proof {
                    assert forall|t: Torrent|
                        (torrent_ok(t) && low_ranks_none(t, 1))
                            implies !mem_at(g, i as int, t) by {
                    if mem_at(g, i as int, t) {
                        assert(lit_at(g, i as int, key_chars(1)));
                        lemma_first_key(g, i as int, t, 1);
                        lemma_mem_shape(g, i as int, t);
                        let tc = Torrent { id: None, ..t };
                        crate::numbers::lemma_int_at_unique(
                            g,
                            i + 5,
                            v as int,
                            t.id->0 as int,
                        );
                        }
                    }
                }
                return None;
            }
        },
        None => {
        },
    }
    let r2 = member_level_2(s, i);
    proof {
        if r2 is None {
            assert forall|t: Torrent| (torrent_ok(t) && low_ranks_none(t, 1)) implies !mem_at(
                g,
                i as int,
                t,
            ) by {
                if mem_at(g, i as int, t) {
                    lemma_mem_shape(g, i as int, t);
                    if torrent_chunks(t).len() == 0 {
                        assert(lit_at(g, i as int, "}"@));
                    } else if t.id is Some {
                    assert(lit_at(g, i as int, "\"id\":"@));
                    assert(int_at(g, i + 5, t.id->0 as int));
                    } else {
                        assert(low_ranks_none(t, 2));
                    }
                }
            }
        }
    }
    r2
}

/// One level of member parsing: this rank's member if it leads here, then
/// the higher ranks.
#[verifier::rlimit(100)]
fn member_level_2(s: &Vec<char>, i: usize) -> (r: Option<(Torrent, usize)>)
    requires
        i <= s@.len(),
        !lit_at(s@, i as int, "}"@),
    ensures
        match r {
            Some((t, j)) => torrent_ok(t) && low_ranks_none(t, 2) && i < j <= s@.len()
                && s@.subrange(i as int, j as int) == mem_tail_chars(t) && j == i
                + mem_tail_chars(t).len(),
            None => forall|t: Torrent|
                (torrent_ok(t) && low_ranks_none(t, 2)) ==> !mem_at(s@, i as int, t),
        },
    decreases s@.len() - i, 5int,
{
    let ghost g = s@;
    let ghost n = g.len() as int;
    let nn = s.len();
    proof {
        reveal_strlit("}");
        reveal_strlit(",");
        reveal_strlit("\"id\":");
        reveal_strlit("\"name\":");
        reveal_strlit("\"status\":");
        reveal_strlit("\"eta\":");
        reveal_strlit("\"error\":");
        reveal_strlit("\"total-size\":");
        reveal_strlit("\"name\":\"");
    }
    proof {
        assert("\"name\":\""@ =~= "\"name\":"@ + seq!['"']);
    }
    match parse_str_member(s, i, "\"name\":\"", "\"name\":") {
        Some((content, j)) => {
            let ghost chunk = "\"name\":"@ + quoted_chars(content@);
            if match_lit(s, j, ",") {
                match parse_members(s, j + 1, 3) {
                    Some((t2, j2)) => {
                        if t2.id.is_none() && t2.name.is_none() && t2.status.is_none()
                            && t2.eta.is_none() && t2.error.is_none()
                            && t2.total_size.is_none() {
                            proof {
                                assert(torrent_chunks(t2).len() == 0);
                                assert(g.subrange(j + 1, j2 as int) =~= "}"@);
                                assert forall|t: Torrent|
                                    (torrent_ok(t) && low_ranks_none(t, 2))
                                        implies !mem_at(g, i as int, t) by {
                    if mem_at(g, i as int, t) {
                        assert(lit_at(g, i as int, key_chars(2))) by {
                        crate::codec::lemma_lit_at_concat(g, i as int, "\"name\":"@, seq!['"']);
                    }
                        lemma_first_key(g, i as int, t, 2);
                        lemma_mem_shape(g, i as int, t);
                        let tc = Torrent { name: None, ..t };
                        crate::codec::lemma_str_at_unique(
                            g,
                            i + 8,
                            content@,
                            t.name->0@,
                        );
                                        if torrent_chunks(tc).len() == 0 {
                                            crate::codec::lemma_lit_at_index(
                                                g,
                                                j as int,
                                                "}"@,
                                                0,
                                            );
                                            crate::codec::lemma_lit_at_index(g, j as int, ","@, 0);
                                        } else {
                                            first_member_head_clash(g, j + 1, tc);
                                            assert(g[j + 1] == g.subrange(j + 1, j2 as int)[0]);
                                            assert(g[j + 1] == ']');
                                        }
                                    }
                                }
                            }
                            return None;
                        }
                        let ghost t2g = t2;
                        let mut out = t2;
                        out.name = Some(crate::strutil::chars_to_string(&content));
                        proof {
                            lemma_chunks_cons_name(out);
                            assert(Torrent { name: None, ..out } == t2g);
                            assert(torrent_chunks(out) == seq![chunk] + torrent_chunks(t2g));
                            assert(torrent_chunks(t2g).len() > 0) by {
                                if torrent_chunks(t2g).len() == 0 {
                                    assert(t2g.id is None && t2g.name is None && t2g.status
                                        is None && t2g.eta is None && t2g.error is None
                                        && t2g.total_size is None);
                                }
                            }
                            lemma_mem_tail_build(out, t2g, chunk);
                            assert(g.subrange(i as int, j as int) == chunk);
                            assert(lit_at(g, i as int, chunk));
                            crate::codec::lemma_lit_at_first(g, j as int, ","@);
                            crate::codec::lemma_lit_at_single(g, j as int);
                            assert(seq![g[j as int]] =~= seq![',']);
                            assert(g.subrange(j + 1, j2 as int) == mem_tail_chars(t2g));
                            assert(lit_at(g, j + 1, mem_tail_chars(t2g)));
                            crate::codec::lemma_lit_at_join(g, i as int, chunk, seq![',']);
                            crate::codec::lemma_lit_at_join(
                                g,
                                i as int,
                                chunk + seq![','],
                                mem_tail_chars(t2g),
                            );
                            assert(mem_tail_chars(out) =~= (chunk + seq![','])
                                + mem_tail_chars(t2g));
                            assert(g.subrange(i as int, j2 as int) == mem_tail_chars(out));
                        }
                        return Some((out, j2));
                    },
                    None => {
                        proof {
                            assert forall|t: Torrent|
                                (torrent_ok(t) && low_ranks_none(t, 2))
                                    implies !mem_at(g, i as int, t) by {
                    if mem_at(g, i as int, t) {
                        assert(lit_at(g, i as int, key_chars(2))) by {
                        crate::codec::lemma_lit_at_concat(g, i as int, "\"name\":"@, seq!['"']);
                    }
                        lemma_first_key(g, i as int, t, 2);
                        lemma_mem_shape(g, i as int, t);
                        let tc = Torrent { name: None, ..t };
                        crate::codec::lemma_str_at_unique(
                            g,
                            i + 8,
                            content@,
                            t.name->0@,
                        );
                                    if torrent_chunks(tc).len() == 0 {
                                        crate::codec::lemma_lit_at_index(
                                            g,
                                            j as int,
                                            "}"@,
                                            0,
                                        );
                                        crate::codec::lemma_lit_at_index(g, j as int, ","@, 0);
                                    } else {
                                        assert(torrent_ok(tc));
                                        assert(low_ranks_none(tc, 3));
                                        assert(mem_at(g, j + 1, tc));
                                    }
                                }
                            }
                        }
                        return None;
                    },
                }
            } else if match_lit(s, j, "}") {
                let mut out = Torrent {
                    id: None,
                    name: None,
                    status: None,
                    eta: None,
                    error: None,
                    total_size: None,
                };
                out.name = Some(crate::strutil::chars_to_string(&content));
                proof {
                    assert(torrent_chunks(out) =~= seq![chunk]);
                    assert(join_comma(torrent_chunks(out)) == chunk);
                    assert(g.subrange(i as int, j as int) == chunk);
                    assert(lit_at(g, i as int, chunk));
                    crate::codec::lemma_lit_at_first(g, j as int, "}"@);
                    crate::codec::lemma_lit_at_single(g, j as int);
                    assert(seq![g[j as int]] =~= seq!['}']);
                    assert("}"@ =~= seq!['}']);
                    crate::codec::lemma_lit_at_join(g, i as int, chunk, "}"@);
                    assert(mem_tail_chars(out) =~= chunk + "}"@);
                    assert(g.subrange(i as int, j + 1) == mem_tail_chars(out));
                }
                return Some((out, j + 1));
            } else {
                proof {
                    assert forall|t: Torrent|
                        (torrent_ok(t) && low_ranks_none(t, 2))
                            implies !mem_at(g, i as int, t) by {
                    if mem_at(g, i as int, t) {
                        assert(lit_at(g, i as int, key_chars(2))) by {
                        crate::codec::lemma_lit_at_concat(g, i as int, "\"name\":"@, seq!['"']);
                    }
                        lemma_first_key(g, i as int, t, 2);
                        lemma_mem_shape(g, i as int, t);
                        let tc = Torrent { name: None, ..t };
                        crate::codec::lemma_str_at_unique(
                            g,
                            i + 8,
                            content@,
                            t.name->0@,
                        );
                        }
                    }
                }
                return None;
            }
        },
        None => {
        },
    }
    let r2 = member_level_3(s, i);
    proof {
        if r2 is None {
            assert forall|t: Torrent| (torrent_ok(t) && low_ranks_none(t, 2)) implies !mem_at(
                g,
                i as int,
                t,
            ) by {
                if mem_at(g, i as int, t) {
                    lemma_mem_shape(g, i as int, t);
                    if torrent_chunks(t).len() == 0 {
                        assert(lit_at(g, i as int, "}"@));
                    } else if t.name is Some {
                    assert(lit_at(g, i as int, "\"name\":"@ + seq!['"']));
                    assert(str_at(g, i + 8, t.name->0@));
                    } else {
                        assert(low_ranks_none(t, 3));
                    }
                }
            }
        }
    }
    r2
}

/// One level of member parsing: this rank's member if it leads here, then
/// the higher ranks.
#[verifier::rlimit(100)]
fn member_level_3(s: &Vec<char>, i: usize) -> (r: Option<(Torrent, usize)>)
    requires
        i <= s@.len(),
        !lit_at(s@, i as int, "}"@),
    ensures
        match r {
            Some((t, j)) => torrent_ok(t) && low_ranks_none(t, 3) && i < j <= s@.len()
                && s@.subrange(i as int, j as int) == mem_tail_chars(t) && j == i
                + mem_tail_chars(t).len(),
            None => forall|t: Torrent|
                (torrent_ok(t) && low_ranks_none(t, 3)) ==> !mem_at(s@, i as int, t),
        },
    decreases s@.len() - i, 4int,
{
    let ghost g = s@;
    let ghost n = g.len() as int;
    let nn = s.len();
    proof {
        reveal_strlit("}");
        reveal_strlit(",");
        reveal_strlit("\"id\":");
        reveal_strlit("\"name\":");
        reveal_strlit("\"status\":");
        reveal_strlit("\"eta\":");
        reveal_strlit("\"error\":");
        reveal_strlit("\"total-size\":");
        reveal_strlit("\"name\":\"");
    }
    match parse_int_member(s, i, "\"status\":") {
        Some((v, j)) => {
            let ghost chunk = "\"status\":"@ + spec_int_chars(v as int);
            if match_lit(s, j, ",") {
                match parse_members(s, j + 1, 4) {
                    Some((t2, j2)) => {
                        if t2.id.is_none() && t2.name.is_none() && t2.status.is_none()
                            && t2.eta.is_none() && t2.error.is_none()
                            && t2.total_size.is_none() {
                            proof {
                                assert(torrent_chunks(t2).len() == 0);
                                assert(g.subrange(j + 1, j2 as int) =~= "}"@);
                                assert forall|t: Torrent|
                                    (torrent_ok(t) && low_ranks_none(t, 3))
                                        implies !mem_at(g, i as int, t) by {
                    if mem_at(g, i as int, t) {
                        assert(lit_at(g, i as int, key_chars(3)));
                        lemma_first_key(g, i as int, t, 3);
                        lemma_mem_shape(g, i as int, t);
                        let tc = Torrent { status: None, ..t };
                        crate::numbers::lemma_int_at_unique(
                            g,
                            i + 9,
                            v as int,
                            t.status->0 as int,
                        );
                                        if torrent_chunks(tc).len() == 0 {
                                            crate::codec::lemma_lit_at_index(
                                                g,
                                                j as int,
                                                "}"@,
                                                0,
                                            );
                                            crate::codec::lemma_lit_at_index(g, j as int, ","@, 0);
                                        } else {
                                            first_member_head_clash(g, j + 1, tc);
                                            assert(g[j + 1] == g.subrange(j + 1, j2 as int)[0]);
                                            assert(g[j + 1] == ']');
                                        }
                                    }
                                }
                            }
                            return None;
                        }
                        let ghost t2g = t2;
                        let mut out = t2;
                        out.status = Some(v);
                        proof {
                            lemma_chunks_cons_status(out);
                            assert(Torrent { status: None, ..out } == t2g);
                            assert(torrent_chunks(out) == seq![chunk] + torrent_chunks(t2g));
                            assert(torrent_chunks(t2g).len() > 0) by {
                                if torrent_chunks(t2g).len() == 0 {
                                    assert(t2g.id is None && t2g.name is None && t2g.status
                                        is None && t2g.eta is None && t2g.error is None
                                        && t2g.total_size is None);
                                }
                            }
                            lemma_mem_tail_build(out, t2g, chunk);
                            assert(g.subrange(i as int, j as int) == chunk);
                            assert(lit_at(g, i as int, chunk));
                            crate::codec::lemma_lit_at_first(g, j as int, ","@);
                            crate::codec::lemma_lit_at_single(g, j as int);
                            assert(seq![g[j as int]] =~= seq![',']);
                            assert(g.subrange(j + 1, j2 as int) == mem_tail_chars(t2g));
                            assert(lit_at(g, j + 1, mem_tail_chars(t2g)));
                            crate::codec::lemma_lit_at_join(g, i as int, chunk, seq![',']);
                            crate::codec::lemma_lit_at_join(
                                g,
                                i as int,
                                chunk + seq![','],
                                mem_tail_chars(t2g),
                            );
                            assert(mem_tail_chars(out) =~= (chunk + seq![','])
                                + mem_tail_chars(t2g));
                            assert(g.subrange(i as int, j2 as int) == mem_tail_chars(out));
                        }
                        return Some((out, j2));
                    },
                    None => {
                        proof {
                            assert forall|t: Torrent|
                                (torrent_ok(t) && low_ranks_none(t, 3))
                                    implies !mem_at(g, i as int, t) by {
                    if mem_at(g, i as int, t) {
                        assert(lit_at(g, i as int, key_chars(3)));
                        lemma_first_key(g, i as int, t, 3);
                        lemma_mem_shape(g, i as int, t);
                        let tc = Torrent { status: None, ..t };
                        crate::numbers::lemma_int_at_unique(
                            g,
                            i + 9,
                            v as int,
                            t.status->0 as int,
                        );
                                    if torrent_chunks(tc).len() == 0 {
                                        crate::codec::lemma_lit_at_index(
                                            g,
                                            j as int,
                                            "}"@,
                                            0,
                                        );
                                        crate::codec::lemma_lit_at_index(g, j as int, ","@, 0);
                                    } else {
                                        assert(torrent_ok(tc));
                                        assert(low_ranks_none(tc, 4));
                                        assert(mem_at(g, j + 1, tc));
                                    }
                                }
                            }
                        }
                        return None;
                    },
                }
            } else if match_lit(s, j, "}") {
                let mut out = Torrent {
                    id: None,
                    name: None,
                    status: None,
                    eta: None,
                    error: None,
                    total_size: None,
                };
                out.status = Some(v);
                proof {
                    assert(torrent_chunks(out) =~= seq![chunk]);
                    assert(join_comma(torrent_chunks(out)) == chunk);
                    assert(g.subrange(i as int, j as int) == chunk);
                    assert(lit_at(g, i as int, chunk));
                    crate::codec::lemma_lit_at_first(g, j as int, "}"@);
                    crate::codec::lemma_lit_at_single(g, j as int);
                    assert(seq![g[j as int]] =~= seq!['}']);
                    assert("}"@ =~= seq!['}']);
                    crate::codec::lemma_lit_at_join(g, i as int, chunk, "}"@);
                    assert(mem_tail_chars(out) =~= chunk + "}"@);
                    assert(g.subrange(i as int, j + 1) == mem_tail_chars(out));
                }
                return Some((out, j + 1));
            } else {
                proof {
                    assert forall|t: Torrent|
                        (torrent_ok(t) && low_ranks_none(t, 3))
                            implies !mem_at(g, i as int, t) by {
                    if mem_at(g, i as int, t) {
                        assert(lit_at(g, i as int, key_chars(3)));
                        lemma_first_key(g, i as int, t, 3);
                        lemma_mem_shape(g, i as int, t);
                        let tc = Torrent { status: None, ..t };
                        crate::numbers::lemma_int_at_unique(
                            g,
                            i + 9,
                            v as int,
                            t.status->0 as int,
                        );
                        }
                    }
                }
                return None;
            }
        },
        None => {
        },
    }
    let r2 = member_level_4(s, i);
    proof {
        if r2 is None {
            assert forall|t: Torrent| (torrent_ok(t) && low_ranks_none(t, 3)) implies !mem_at(
                g,
                i as int,
                t,
            ) by {
                if mem_at(g, i as int, t) {
                    lemma_mem_shape(g, i as int, t);
                    if torrent_chunks(t).len() == 0 {
                        assert(lit_at(g, i as int, "}"@));
                    } else if t.status is Some {
                    assert(lit_at(g, i as int, "\"status\":"@));
                    assert(int_at(g, i + 9, t.status->0 as int));
                    } else {
                        assert(low_ranks_none(t, 4));
                    }
                }
            }
        }
    }
    r2
}

/// One level of member parsing: this rank's member if it leads here, then
/// the higher ranks.
#[verifier::rlimit(100)]
fn member_level_4(s: &Vec<char>, i: usize) -> (r: Option<(Torrent, usize)>)
    requires
        i <= s@.len(),
        !lit_at(s@, i as int, "}"@),
    ensures
        match r {
            Some((t, j)) => torrent_ok(t) && low_ranks_none(t, 4) && i < j <= s@.len()
                && s@.subrange(i as int, j as int) == mem_tail_chars(t) && j == i
                + mem_tail_chars(t).len(),
            None => forall|t: Torrent|
                (torrent_ok(t) && low_ranks_none(t, 4)) ==> !mem_at(s@, i as int, t),
        },
    decreases s@.len() - i, 3int,
{
    let ghost g = s@;
    let ghost n = g.len() as int;
    let nn = s.len();
    proof {
        reveal_strlit("}");
        reveal_strlit(",");
        reveal_strlit("\"id\":");
        reveal_strlit("\"name\":");
        reveal_strlit("\"status\":");
        reveal_strlit("\"eta\":");
        reveal_strlit("\"error\":");
        reveal_strlit("\"total-size\":");
        reveal_strlit("\"name\":\"");
    }
    match parse_int_member(s, i, "\"eta\":") {
        Some((v, j)) => {
            let ghost chunk = "\"eta\":"@ + spec_int_chars(v as int);
            if match_lit(s, j, ",") {
                match parse_members(s, j + 1, 5) {
                    Some((t2, j2)) => {
                        if t2.id.is_none() && t2.name.is_none() && t2.status.is_none()
                            && t2.eta.is_none() && t2.error.is_none()
                            && t2.total_size.is_none() {
                            proof {
                                assert(torrent_chunks(t2).len() == 0);
                                assert(g.subrange(j + 1, j2 as int) =~= "}"@);
                                assert forall|t: Torrent|
                                    (torrent_ok(t) && low_ranks_none(t, 4))
                                        implies !mem_at(g, i as int, t) by {
                    if mem_at(g, i as int, t) {
                        assert(lit_at(g, i as int, key_chars(4)));
                        lemma_first_key(g, i as int, t, 4);
                        lemma_mem_shape(g, i as int, t);
                        let tc = Torrent { eta: None, ..t };
                        crate::numbers::lemma_int_at_unique(
                            g,
                            i + 6,
                            v as int,
                            t.eta->0 as int,
                        );
                                        if torrent_chunks(tc).len() == 0 {
                                            crate::codec::lemma_lit_at_index(
                                                g,
                                                j as int,
                                                "}"@,
                                                0,
                                            );
                                            crate::codec::lemma_lit_at_index(g, j as int, ","@, 0);
                                        } else {
                                            first_member_head_clash(g, j + 1, tc);
                                            assert(g[j + 1] == g.subrange(j + 1, j2 as int)[0]);
                                            assert(g[j + 1] == ']');
                                        }
                                    }
                                }
                            }
                            return None;
                        }
                        let ghost t2g = t2;
                        let mut out = t2;
                        out.eta = Some(v);
                        proof {
                            lemma_chunks_cons_eta(out);
                            assert(Torrent { eta: None, ..out } == t2g);
                            assert(torrent_chunks(out) == seq![chunk] + torrent_chunks(t2g));
                            assert(torrent_chunks(t2g).len() > 0) by {
                                if torrent_chunks(t2g).len() == 0 {
                                    assert(t2g.id is None && t2g.name is None && t2g.status
                                        is None && t2g.eta is None && t2g.error is None
                                        && t2g.total_size is None);
                                }
                            }
                            lemma_mem_tail_build(out, t2g, chunk);
                            assert(g.subrange(i as int, j as int) == chunk);
                            assert(lit_at(g, i as int, chunk));
                            crate::codec::lemma_lit_at_first(g, j as int, ","@);
                            crate::codec::lemma_lit_at_single(g, j as int);
                            assert(seq![g[j as int]] =~= seq![',']);
                            assert(g.subrange(j + 1, j2 as int) == mem_tail_chars(t2g));
                            assert(lit_at(g, j + 1, mem_tail_chars(t2g)));
                            crate::codec::lemma_lit_at_join(g, i as int, chunk, seq![',']);
                            crate::codec::lemma_lit_at_join(
                                g,
                                i as int,
                                chunk + seq![','],
                                mem_tail_chars(t2g),
                            );
                            assert(mem_tail_chars(out) =~= (chunk + seq![','])
                                + mem_tail_chars(t2g));
                            assert(g.subrange(i as int, j2 as int) == mem_tail_chars(out));
                        }
                        return Some((out, j2));
                    },
                    None => {
                        proof {
                            assert forall|t: Torrent|
                                (torrent_ok(t) && low_ranks_none(t, 4))
                                    implies !mem_at(g, i as int, t) by {
                    if mem_at(g, i as int, t) {
                        assert(lit_at(g, i as int, key_chars(4)));
                        lemma_first_key(g, i as int, t, 4);
                        lemma_mem_shape(g, i as int, t);
                        let tc = Torrent { eta: None, ..t };
                        crate::numbers::lemma_int_at_unique(
                            g,
                            i + 6,
                            v as int,
                            t.eta->0 as int,
                        );
                                    if torrent_chunks(tc).len() == 0 {
                                        crate::codec::lemma_lit_at_index(
                                            g,
                                            j as int,
                                            "}"@,
                                            0,
                                        );
                                        crate::codec::lemma_lit_at_index(g, j as int, ","@, 0);
                                    } else {
                                        assert(torrent_ok(tc));
                                        assert(low_ranks_none(tc, 5));
                                        assert(mem_at(g, j + 1, tc));
                                    }
                                }
                            }
                        }
                        return None;
                    },
                }
            } else if match_lit(s, j, "}") {
                let mut out = Torrent {
                    id: None,
                    name: None,
                    status: None,
                    eta: None,
                    error: None,
                    total_size: None,
                };
                out.eta = Some(v);
                proof {
                    assert(torrent_chunks(out) =~= seq![chunk]);
                    assert(join_comma(torrent_chunks(out)) == chunk);
                    assert(g.subrange(i as int, j as int) == chunk);
                    assert(lit_at(g, i as int, chunk));
                    crate::codec::lemma_lit_at_first(g, j as int, "}"@);
                    crate::codec::lemma_lit_at_single(g, j as int);
                    assert(seq![g[j as int]] =~= seq!['}']);
                    assert("}"@ =~= seq!['}']);
                    crate::codec::lemma_lit_at_join(g, i as int, chunk, "}"@);
                    assert(mem_tail_chars(out) =~= chunk + "}"@);
                    assert(g.subrange(i as int, j + 1) == mem_tail_chars(out));
                }
                return Some((out, j + 1));
            } else {
                proof {
                    assert forall|t: Torrent|
                        (torrent_ok(t) && low_ranks_none(t, 4))
                            implies !mem_at(g, i as int, t) by {
                    if mem_at(g, i as int, t) {
                        assert(lit_at(g, i as int, key_chars(4)));
                        lemma_first_key(g, i as int, t, 4);
                        lemma_mem_shape(g, i as int, t);
                        let tc = Torrent { eta: None, ..t };
                        crate::numbers::lemma_int_at_unique(
                            g,
                            i + 6,
                            v as int,
                            t.eta->0 as int,
                        );
                        }
                    }
                }
                return None;
            }
        },
        None => {
        },
    }
    let r2 = member_level_5(s, i);
    proof {
        if r2 is None {
            assert forall|t: Torrent| (torrent_ok(t) && low_ranks_none(t, 4)) implies !mem_at(
                g,
                i as int,
                t,
            ) by {
                if mem_at(g, i as int, t) {
                    lemma_mem_shape(g, i as int, t);
                    if torrent_chunks(t).len() == 0 {
                        assert(lit_at(g, i as int, "}"@));
                    } else if t.eta is Some {
                    assert(lit_at(g, i as int, "\"eta\":"@));
                    assert(int_at(g, i + 6, t.eta->0 as int));
                    } else {
                        assert(low_ranks_none(t, 5));
                    }
                }
            }
        }
    }
    r2
}

/// One level of member parsing: this rank's member if it leads here, then
/// the higher ranks.
#[verifier::rlimit(100)]
fn member_level_5(s: &Vec<char>, i: usize) -> (r: Option<(Torrent, usize)>)
    requires
        i <= s@.len(),
        !lit_at(s@, i as int, "}"@),
    ensures
        match r {
            Some((t, j)) => torrent_ok(t) && low_ranks_none(t, 5) && i < j <= s@.len()
                && s@.subrange(i as int, j as int) == mem_tail_chars(t) && j == i
                + mem_tail_chars(t).len(),
            None => forall|t: Torrent|
                (torrent_ok(t) && low_ranks_none(t, 5)) ==> !mem_at(s@, i as int, t),
        },
    decreases s@.len() - i, 2int,
{
    let ghost g = s@;
    let ghost n = g.len() as int;
    let nn = s.len();
    proof {
        reveal_strlit("}");
        reveal_strlit(",");
        reveal_strlit("\"id\":");
        reveal_strlit("\"name\":");
        reveal_strlit("\"status\":");
        reveal_strlit("\"eta\":");
        reveal_strlit("\"error\":");
        reveal_strlit("\"total-size\":");
        reveal_strlit("\"name\":\"");
    }
    match parse_int_member(s, i, "\"error\":") {
        Some((v, j)) => {
            let ghost chunk = "\"error\":"@ + spec_int_chars(v as int);
            if match_lit(s, j, ",") {
                match parse_members(s, j + 1, 6) {
                    Some((t2, j2)) => {
                        if t2.id.is_none() && t2.name.is_none() && t2.status.is_none()
                            && t2.eta.is_none() && t2.error.is_none()
                            && t2.total_size.is_none() {
                            proof {
                                assert(torrent_chunks(t2).len() == 0);
                                assert(g.subrange(j + 1, j2 as int) =~= "}"@);
                                assert forall|t: Torrent|
                                    (torrent_ok(t) && low_ranks_none(t, 5))
                                        implies !mem_at(g, i as int, t) by {
                    if mem_at(g, i as int, t) {
                        assert(lit_at(g, i as int, key_chars(5)));
                        lemma_first_key(g, i as int, t, 5);
                        lemma_mem_shape(g, i as int, t);
                        let tc = Torrent { error: None, ..t };
                        crate::numbers::lemma_int_at_unique(
                            g,
                            i + 8,
                            v as int,
                            t.error->0 as int,
                        );
                                        if torrent_chunks(tc).len() == 0 {
                                            crate::codec::lemma_lit_at_index(
                                                g,
                                                j as int,
                                                "}"@,
                                                0,
                                            );
                                            crate::codec::lemma_lit_at_index(g, j as int, ","@, 0);
                                        } else {
                                            first_member_head_clash(g, j + 1, tc);
                                            assert(g[j + 1] == g.subrange(j + 1, j2 as int)[0]);
                                            assert(g[j + 1] == ']');
                                        }
                                    }
                                }
                            }
                            return None;
                        }
                        let ghost t2g = t2;
                        let mut out = t2;
                        out.error = Some(v);
                        proof {
                            lemma_chunks_cons_error(out);
                            assert(Torrent { error: None, ..out } == t2g);
                            assert(torrent_chunks(out) == seq![chunk] + torrent_chunks(t2g));
                            assert(torrent_chunks(t2g).len() > 0) by {
                                if torrent_chunks(t2g).len() == 0 {
                                    assert(t2g.id is None && t2g.name is None && t2g.status
                                        is None && t2g.eta is None && t2g.error is None
                                        && t2g.total_size is None);
                                }
                            }
                            lemma_mem_tail_build(out, t2g, chunk);
                            assert(g.subrange(i as int, j as int) == chunk);
                            assert(lit_at(g, i as int, chunk));
                            crate::codec::lemma_lit_at_first(g, j as int, ","@);
                            crate::codec::lemma_lit_at_single(g, j as int);
                            assert(seq![g[j as int]] =~= seq![',']);
                            assert(g.subrange(j + 1, j2 as int) == mem_tail_chars(t2g));
                            assert(lit_at(g, j + 1, mem_tail_chars(t2g)));
                            crate::codec::lemma_lit_at_join(g, i as int, chunk, seq![',']);
                            crate::codec::lemma_lit_at_join(
                                g,
                                i as int,
                                chunk + seq![','],
                                mem_tail_chars(t2g),
                            );
                            assert(mem_tail_chars(out) =~= (chunk + seq![','])
                                + mem_tail_chars(t2g));
                            assert(g.subrange(i as int, j2 as int) == mem_tail_chars(out));
                        }
                        return Some((out, j2));
                    },
                    None => {
                        proof {
                            assert forall|t: Torrent|
                                (torrent_ok(t) && low_ranks_none(t, 5))
                                    implies !mem_at(g, i as int, t) by {
                    if mem_at(g, i as int, t) {
                        assert(lit_at(g, i as int, key_chars(5)));
                        lemma_first_key(g, i as int, t, 5);
                        lemma_mem_shape(g, i as int, t);
                        let tc = Torrent { error: None, ..t };
                        crate::numbers::lemma_int_at_unique(
                            g,
                            i + 8,
                            v as int,
                            t.error->0 as int,
                        );
                                    if torrent_chunks(tc).len() == 0 {
                                        crate::codec::lemma_lit_at_index(
                                            g,
                                            j as int,
                                            "}"@,
                                            0,
                                        );
                                        crate::codec::lemma_lit_at_index(g, j as int, ","@, 0);
                                    } else {
                                        assert(torrent_ok(tc));
                                        assert(low_ranks_none(tc, 6));
                                        assert(mem_at(g, j + 1, tc));
                                    }
                                }
                            }
                        }
                        return None;
                    },
                }
            } else if match_lit(s, j, "}") {
                let mut out = Torrent {
                    id: None,
                    name: None,
                    status: None,
                    eta: None,
                    error: None,
                    total_size: None,
                };
                out.error = Some(v);
                proof {
                    assert(torrent_chunks(out) =~= seq![chunk]);
                    assert(join_comma(torrent_chunks(out)) == chunk);
                    assert(g.subrange(i as int, j as int) == chunk);
                    assert(lit_at(g, i as int, chunk));
                    crate::codec::lemma_lit_at_first(g, j as int, "}"@);
                    crate::codec::lemma_lit_at_single(g, j as int);
                    assert(seq![g[j as int]] =~= seq!['}']);
                    assert("}"@ =~= seq!['}']);
                    crate::codec::lemma_lit_at_join(g, i as int, chunk, "}"@);
                    assert(mem_tail_chars(out) =~= chunk + "}"@);
                    assert(g.subrange(i as int, j + 1) == mem_tail_chars(out));
                }
                return Some((out, j + 1));
            } else {
                proof {
                    assert forall|t: Torrent|
                        (torrent_ok(t) && low_ranks_none(t, 5))
                            implies !mem_at(g, i as int, t) by {
                    if mem_at(g, i as int, t) {
                        assert(lit_at(g, i as int, key_chars(5)));
                        lemma_first_key(g, i as int, t, 5);
                        lemma_mem_shape(g, i as int, t);
                        let tc = Torrent { error: None, ..t };
                        crate::numbers::lemma_int_at_unique(
                            g,
                            i + 8,
                            v as int,
                            t.error->0 as int,
                        );
                        }
                    }
                }
                return None;
            }
        },
        None => {
        },
    }
    let r2 = member_level_6(s, i);
    proof {
        if r2 is None {
            assert forall|t: Torrent| (torrent_ok(t) && low_ranks_none(t, 5)) implies !mem_at(
                g,
                i as int,
                t,
            ) by {
                if mem_at(g, i as int, t) {
                    lemma_mem_shape(g, i as int, t);
                    if torrent_chunks(t).len() == 0 {
                        assert(lit_at(g, i as int, "}"@));
                    } else if t.error is Some {
                    assert(lit_at(g, i as int, "\"error\":"@));
                    assert(int_at(g, i + 8, t.error->0 as int));
                    } else {
                        assert(low_ranks_none(t, 6));
                    }
                }
            }
        }
    }
    r2
}

/// One level of member parsing: this rank's member if it leads here, then
/// the higher ranks.
#[verifier::rlimit(100)]
fn member_level_6(s: &Vec<char>, i: usize) -> (r: Option<(Torrent, usize)>)
    requires
        i <= s@.len(),
        !lit_at(s@, i as int, "}"@),
    ensures
        match r {
            Some((t, j)) => torrent_ok(t) && low_ranks_none(t, 6) && i < j <= s@.len()
                && s@.subrange(i as int, j as int) == mem_tail_chars(t) && j == i
                + mem_tail_chars(t).len(),
            None => forall|t: Torrent|
                (torrent_ok(t) && low_ranks_none(t, 6)) ==> !mem_at(s@, i as int, t),
        },
    decreases s@.len() - i, 1int,
{
    let ghost g = s@;
    let ghost n = g.len() as int;
    let nn = s.len();
    proof {
        reveal_strlit("}");
        reveal_strlit(",");
        reveal_strlit("\"id\":");
        reveal_strlit("\"name\":");
        reveal_strlit("\"status\":");
        reveal_strlit("\"eta\":");
        reveal_strlit("\"error\":");
        reveal_strlit("\"total-size\":");
        reveal_strlit("\"name\":\"");
    }
    match parse_int_member(s, i, "\"total-size\":") {
        Some((v, j)) => {
            let ghost chunk = "\"total-size\":"@ + spec_int_chars(v as int);
            if match_lit(s, j, ",") {
                match parse_members(s, j + 1, 7) {
                    Some((t2, j2)) => {
                        if t2.id.is_none() && t2.name.is_none() && t2.status.is_none()
                            && t2.eta.is_none() && t2.error.is_none()
                            && t2.total_size.is_none() {
                            proof {
                                assert(torrent_chunks(t2).len() == 0);
                                assert(g.subrange(j + 1, j2 as int) =~= "}"@);
                                assert forall|t: Torrent|
                                    (torrent_ok(t) && low_ranks_none(t, 6))
                                        implies !mem_at(g, i as int, t) by {
                    if mem_at(g, i as int, t) {
                        assert(lit_at(g, i as int, key_chars(6)));
                        lemma_first_key(g, i as int, t, 6);
                        lemma_mem_shape(g, i as int, t);
                        let tc = Torrent { total_size: None, ..t };
                        crate::numbers::lemma_int_at_unique(
                            g,
                            i + 13,
                            v as int,
                            t.total_size->0 as int,
                        );
                                        if torrent_chunks(tc).len() == 0 {
                                            crate::codec::lemma_lit_at_index(
                                                g,
                                                j as int,
                                                "}"@,
                                                0,
                                            );
                                            crate::codec::lemma_lit_at_index(g, j as int, ","@, 0);
                                        } else {
                                            first_member_head_clash(g, j + 1, tc);
                                            assert(g[j + 1] == g.subrange(j + 1, j2 as int)[0]);
                                            assert(g[j + 1] == ']');
                                        }
                                    }
                                }
                            }
                            return None;
                        }
                        let ghost t2g = t2;
                        let mut out = t2;
                        out.total_size = Some(v);
                        proof {
                            lemma_chunks_cons_total_size(out);
                            assert(Torrent { total_size: None, ..out } == t2g);
                            assert(torrent_chunks(out) == seq![chunk] + torrent_chunks(t2g));
                            assert(torrent_chunks(t2g).len() > 0) by {
                                if torrent_chunks(t2g).len() == 0 {
                                    assert(t2g.id is None && t2g.name is None && t2g.status
                                        is None && t2g.eta is None && t2g.error is None
                                        && t2g.total_size is None);
                                }
                            }
                            lemma_mem_tail_build(out, t2g, chunk);
                            assert(g.subrange(i as int, j as int) == chunk);
                            assert(lit_at(g, i as int, chunk));
                            crate::codec::lemma_lit_at_first(g, j as int, ","@);
                            crate::codec::lemma_lit_at_single(g, j as int);
                            assert(seq![g[j as int]] =~= seq![',']);
                            assert(g.subrange(j + 1, j2 as int) == mem_tail_chars(t2g));
                            assert(lit_at(g, j + 1, mem_tail_chars(t2g)));
                            crate::codec::lemma_lit_at_join(g, i as int, chunk, seq![',']);
                            crate::codec::lemma_lit_at_join(
                                g,
                                i as int,
                                chunk + seq![','],
                                mem_tail_chars(t2g),
                            );
                            assert(mem_tail_chars(out) =~= (chunk + seq![','])
                                + mem_tail_chars(t2g));
                            assert(g.subrange(i as int, j2 as int) == mem_tail_chars(out));
                        }
                        return Some((out, j2));
                    },
                    None => {
                        proof {
                            assert forall|t: Torrent|
                                (torrent_ok(t) && low_ranks_none(t, 6))
                                    implies !mem_at(g, i as int, t) by {
                    if mem_at(g, i as int, t) {
                        assert(lit_at(g, i as int, key_chars(6)));
                        lemma_first_key(g, i as int, t, 6);
                        lemma_mem_shape(g, i as int, t);
                        let tc = Torrent { total_size: None, ..t };
                        crate::numbers::lemma_int_at_unique(
                            g,
                            i + 13,
                            v as int,
                            t.total_size->0 as int,
                        );
                                    if torrent_chunks(tc).len() == 0 {
                                        crate::codec::lemma_lit_at_index(
                                            g,
                                            j as int,
                                            "}"@,
                                            0,
                                        );
                                        crate::codec::lemma_lit_at_index(g, j as int, ","@, 0);
                                    } else {
                                        assert(torrent_ok(tc));
                                        assert(low_ranks_none(tc, 7));
                                        assert(mem_at(g, j + 1, tc));
                                    }
                                }
                            }
                        }
                        return None;
                    },
                }
            } else if match_lit(s, j, "}") {
                let mut out = Torrent {
                    id: None,
                    name: None,
                    status: None,
                    eta: None,
                    error: None,
                    total_size: None,
                };
                out.total_size = Some(v);
                proof {
                    assert(torrent_chunks(out) =~= seq![chunk]);
                    assert(join_comma(torrent_chunks(out)) == chunk);
                    assert(g.subrange(i as int, j as int) == chunk);
                    assert(lit_at(g, i as int, chunk));
                    crate::codec::lemma_lit_at_first(g, j as int, "}"@);
                    crate::codec::lemma_lit_at_single(g, j as int);
                    assert(seq![g[j as int]] =~= seq!['}']);
                    assert("}"@ =~= seq!['}']);
                    crate::codec::lemma_lit_at_join(g, i as int, chunk, "}"@);
                    assert(mem_tail_chars(out) =~= chunk + "}"@);
                    assert(g.subrange(i as int, j + 1) == mem_tail_chars(out));
                }
                return Some((out, j + 1));
            } else {
                proof {
                    assert forall|t: Torrent|
                        (torrent_ok(t) && low_ranks_none(t, 6))
                            implies !mem_at(g, i as int, t) by {
                    if mem_at(g, i as int, t) {
                        assert(lit_at(g, i as int, key_chars(6)));
                        lemma_first_key(g, i as int, t, 6);
                        lemma_mem_shape(g, i as int, t);
                        let tc = Torrent { total_size: None, ..t };
                        crate::numbers::lemma_int_at_unique(
                            g,
                            i + 13,
                            v as int,
                            t.total_size->0 as int,
                        );
                        }
                    }
                }
                return None;
            }
        },
        None => {
        },
    }
    proof {
        assert forall|t: Torrent| (torrent_ok(t) && low_ranks_none(t, 6)) implies !mem_at(
            g,
            i as int,
            t,
        ) by {
            if mem_at(g, i as int, t) {
                lemma_mem_shape(g, i as int, t);
                if torrent_chunks(t).len() == 0 {
                    assert(lit_at(g, i as int, "}"@));
                } else if t.total_size is Some {
                    assert(lit_at(g, i as int, "\"total-size\":"@));
                    assert(int_at(g, i + 13, t.total_size->0 as int));
                } else {
                    assert(torrent_chunks(t).len() == 0);
                }
            }
        }
    }
    None
}

/// Parses one torrent record at `i`: exact in both directions over record
/// texts of records whose strings can stand on the wire.
fn parse_torrent(s: &Vec<char>, i: usize) -> (r: Option<(Torrent, usize)>)
    requires
        i <= s@.len(),
    ensures
        match r {
            Some((t, j)) => torrent_ok(t) && i < j <= s@.len() && s@.subrange(i as int, j as int)
                == spec_torrent_chars(t) && j == i + spec_torrent_chars(t).len(),
            None => forall|t: Torrent| torrent_ok(t) ==> !rec_at(s@, i as int, t),
        },
{
    let ghost g = s@;
    let nn = s.len();
    proof {
        reveal_strlit("{");
        reveal_strlit("}");
        assert(nn == g.len());
    }
    if !match_lit(s, i, "{") {
        proof {
            assert forall|t: Torrent| torrent_ok(t) implies !rec_at(g, i as int, t) by {
                if rec_at(g, i as int, t) {
                    assert(spec_torrent_chars(t) =~= seq!['{'] + mem_tail_chars(t));
                    assert(lit_at(g, i as int, seq!['{'] + mem_tail_chars(t)));
                    crate::codec::lemma_lit_at_concat(g, i as int, seq!['{'], mem_tail_chars(t));
                    assert(seq!['{'] =~= "{"@);
                }
            }
        }
        return None;
    }
    match parse_members(s, i + 1, 1) {
        Some((t, j)) => {
            proof {
                crate::codec::lemma_lit_at_first(g, i as int, "{"@);
                crate::codec::lemma_lit_at_single(g, i as int);
                assert(seq![g[i as int]] =~= seq!['{']);
                assert(lit_at(g, i + 1, mem_tail_chars(t)));
                crate::codec::lemma_lit_at_join(g, i as int, seq!['{'], mem_tail_chars(t));
                assert(spec_torrent_chars(t) =~= seq!['{'] + mem_tail_chars(t));
                assert(g.subrange(i as int, j as int) == spec_torrent_chars(t));
            }
            Some((t, j))
        },
        None => {
            proof {
                assert forall|t: Torrent| torrent_ok(t) implies !rec_at(g, i as int, t) by {
                    if rec_at(g, i as int, t) {
                        assert(spec_torrent_chars(t) =~= seq!['{'] + mem_tail_chars(t));
                        assert(lit_at(g, i as int, seq!['{'] + mem_tail_chars(t)));
                        crate::codec::lemma_lit_at_concat(
                            g,
                            i as int,
                            seq!['{'],
                            mem_tail_chars(t),
                        );
                        assert(mem_at(g, i + 1, t));
                        assert(low_ranks_none(t, 1));
                    }
                }
            }
            None
        },
    }
}

/// One text, one record: two record texts at the same position are the
/// same text.
proof fn lemma_rec_text_unique(s: Seq<char>, i: int, t1: Torrent, t2: Torrent)
    requires
        rec_at(s, i, t1),
        rec_at(s, i, t2),
        torrent_ok(t1),
        torrent_ok(t2),
    ensures
        spec_torrent_chars(t1) == spec_torrent_chars(t2),
{
    reveal_strlit("{");
    reveal_strlit("}");
    assert(spec_torrent_chars(t1) =~= seq!['{'] + mem_tail_chars(t1));
    assert(spec_torrent_chars(t2) =~= seq!['{'] + mem_tail_chars(t2));
    assert(lit_at(s, i, seq!['{'] + mem_tail_chars(t1)));
    assert(lit_at(s, i, seq!['{'] + mem_tail_chars(t2)));
    crate::codec::lemma_lit_at_concat(s, i, seq!['{'], mem_tail_chars(t1));
    crate::codec::lemma_lit_at_concat(s, i, seq!['{'], mem_tail_chars(t2));
    lemma_mem_text_unique(s, i + 1, t1, t2);
}

/// Head decomposition of a nonempty torrent list tail.
proof fn lemma_torrents_tail_head(g: Seq<char>, i: int, ts: Seq<Torrent>)
    requires
        0 <= i <= g.len(),
        g.subrange(i, g.len() as int) == spec_torrent_list_chars(ts) + "]}}"@,
        ts.len() > 0,
        torrents_ok(ts),
    ensures
        rec_at(g, i, ts[0]),
        torrent_ok(ts[0]),
        ({
            let j = i + spec_torrent_chars(ts[0]).len();
            &&& j <= g.len()
            &&& (ts.len() == 1 ==> lit_at(g, j, "]}}"@) && j + 3 == g.len())
            &&& (ts.len() > 1 ==> lit_at(g, j, ","@) && g.subrange(j + 1, g.len() as int)
                == spec_torrent_list_chars(ts.drop_first()) + "]}}"@ && ts.drop_first().len() > 0
                && torrents_ok(ts.drop_first()))
        }),
{
    reveal_strlit("]}}");
    reveal_strlit(",");
    let c = spec_torrent_chars(ts[0]);
    let n = g.len() as int;
    let rem = g.subrange(i, n);
    assert(i + rem.len() == n);
    assert(torrent_ok(ts[0]));
    if ts.len() == 1 {
        assert(rem =~= c + "]}}"@);
        assert(g.subrange(i, i + rem.len()) == rem);
        assert(lit_at(g, i, c + "]}}"@));
        crate::codec::lemma_lit_at_concat(g, i, c, "]}}"@);
    } else {
        let y = spec_torrent_list_chars(ts.drop_first()) + "]}}"@;
        let t = seq![','] + y;
        assert(rem =~= c + t);
        assert(g.subrange(i, i + rem.len()) == rem);
        assert(lit_at(g, i, c + t));
        crate::codec::lemma_lit_at_concat(g, i, c, t);
        let j = i + c.len() as int;
        crate::codec::lemma_lit_at_concat(g, j, seq![','], y);
        assert(seq![','] =~= ","@);
        assert(g.subrange(j + 1, j + 1 + y.len()) == y);
        assert(j + 1 + y.len() == n);
        assert forall|k: int| 0 <= k < ts.drop_first().len() implies torrent_ok(
            #[trigger] ts.drop_first()[k],
        ) by {
            assert(ts.drop_first()[k] == ts[k + 1]);
        }
    }
}

/// Parses a torrent list closed by `]}}` at the very end of the input:
/// exact in both directions over such tails of wire-ready lists.
fn parse_torrents_tail(s: &Vec<char>, i: usize) -> (r: Option<Vec<Torrent>>)
    requires
        i <= s@.len(),
    ensures
        match r {
            Some(ts) => torrents_ok(ts@) && s@.subrange(i as int, s@.len() as int)
                == spec_torrent_list_chars(ts@) + "]}}"@,
            None => forall|ts: Seq<Torrent>|
                torrents_ok(ts) ==> s@.subrange(i as int, s@.len() as int)
                    != spec_torrent_list_chars(ts) + "]}}"@,
        },
    decreases s@.len() - i,
{
    let ghost g = s@;
    let ghost n = g.len() as int;
    let ghost rem = g.subrange(i as int, n);
    let nn = s.len();
    proof {
        reveal_strlit("]}}");
        reveal_strlit(",");
        reveal_strlit("{");
        reveal_strlit("}");
    }
    if match_lit(s, i, "]}}") {
        if i + 3 == nn {
            proof {
                assert(rem =~= "]}}"@);
                assert(spec_torrent_list_chars(Seq::<Torrent>::empty()) + "]}}"@ =~= "]}}"@);
            }
            return Some(Vec::new());
        }
        proof {
            assert forall|ts: Seq<Torrent>| torrents_ok(ts) implies rem != spec_torrent_list_chars(
                ts,
            ) + "]}}"@ by {
                if rem == spec_torrent_list_chars(ts) + "]}}"@ {
                    if ts.len() == 0 {
                        assert(rem =~= "]}}"@);
                        assert(i + rem.len() == n);
                    } else {
                        lemma_torrents_tail_head(g, i as int, ts);
                        assert(spec_torrent_chars(ts[0]) =~= seq!['{'] + mem_tail_chars(ts[0]));
                        assert(lit_at(g, i as int, seq!['{'] + mem_tail_chars(ts[0])));
                        crate::codec::lemma_lit_at_index(
                            g,
                            i as int,
                            seq!['{'] + mem_tail_chars(ts[0]),
                            0,
                        );
                        crate::codec::lemma_lit_at_index(g, i as int, "]}}"@, 0);
                    }
                }
            }
        }
        return None;
    }
    match parse_torrent(s, i) {
        None => {
            proof {
                assert forall|ts: Seq<Torrent>| torrents_ok(ts) implies rem
                    != spec_torrent_list_chars(ts) + "]}}"@ by {
                    if rem == spec_torrent_list_chars(ts) + "]}}"@ {
                        if ts.len() == 0 {
                            assert(rem =~= "]}}"@);
                            assert(i + 3 == n);
                            assert(g.subrange(i as int, i + 3) == "]}}"@);
                            assert(lit_at(g, i as int, "]}}"@));
                        } else {
                            lemma_torrents_tail_head(g, i as int, ts);
                        }
                    }
                }
            }
            return None;
        },
        Some((t, j)) => {
            if match_lit(s, j, ",") {
                match parse_torrents_tail(s, j + 1) {
                    Some(mut restv) => {
                        if restv.len() == 0 {
                            proof {
                                assert(g.subrange(j + 1, n) =~= spec_torrent_list_chars(
                                    Seq::<Torrent>::empty(),
                                ) + "]}}"@);
                                assert(g.subrange(j + 1, n) =~= "]}}"@);
                                assert forall|ts: Seq<Torrent>|
                                    torrents_ok(ts) implies rem != spec_torrent_list_chars(ts)
                                    + "]}}"@ by {
                                    if rem == spec_torrent_list_chars(ts) + "]}}"@ {
                                        if ts.len() == 0 {
                                            assert(rem =~= "]}}"@);
                                            assert(i + 3 == n);
                                            assert(g.subrange(i as int, i + 3) == "]}}"@);
                                            assert(lit_at(g, i as int, "]}}"@));
                                        } else {
                                            lemma_torrents_tail_head(g, i as int, ts);
                                            lemma_rec_text_unique(g, i as int, t, ts[0]);
                                            if ts.len() == 1 {
                                                crate::codec::lemma_lit_at_index(
                                                    g,
                                                    j as int,
                                                    "]}}"@,
                                                    0,
                                                );
                                                crate::codec::lemma_lit_at_index(
                                                    g,
                                                    j as int,
                                                    ","@,
                                                    0,
                                                );
                                            } else {
                                                lemma_torrents_tail_head(
                                                    g,
                                                    j + 1,
                                                    ts.drop_first(),
                                                );
                                                assert(spec_torrent_chars(ts.drop_first()[0])
                                                    =~= seq!['{'] + mem_tail_chars(
                                                    ts.drop_first()[0],
                                                ));
                                                crate::codec::lemma_lit_at_index(
                                                    g,
                                                    j + 1,
                                                    seq!['{'] + mem_tail_chars(ts.drop_first()[0]),
                                                    0,
                                                );
                                                assert(g[j + 1] == '{');
                                                assert(g[j + 1] == g.subrange(j + 1, n)[0]);
                                                assert(g[j + 1] == ']');
                                            }
                                        }
                                    }
                                }
                            }
                            return None;
                        }
                        let ghost restv0 = restv@;
                        proof {
                            let whole = seq![t].add(restv0);
                            assert(whole.drop_first() =~= restv0);
                            assert(whole[0] == t);
                            assert(whole.len() > 1);
                            assert(lit_at(g, i as int, spec_torrent_chars(t)));
                            crate::codec::lemma_lit_at_first(g, j as int, ","@);
                            crate::codec::lemma_lit_at_single(g, j as int);
                            assert(seq![g[j as int]] =~= seq![',']);
                            assert(g.subrange(j + 1, n) == spec_torrent_list_chars(restv0)
                                + "]}}"@);
                            assert(lit_at(g, j + 1, spec_torrent_list_chars(restv0) + "]}}"@));
                            crate::codec::lemma_lit_at_join(
                                g,
                                i as int,
                                spec_torrent_chars(t),
                                seq![','],
                            );
                            crate::codec::lemma_lit_at_join(
                                g,
                                i as int,
                                spec_torrent_chars(t) + seq![','],
                                spec_torrent_list_chars(restv0) + "]}}"@,
                            );
                            assert(spec_torrent_list_chars(whole) + "]}}"@ =~= (spec_torrent_chars(
                                t,
                            ) + seq![',']) + (spec_torrent_list_chars(restv0) + "]}}"@));
                            assert(i + ((spec_torrent_chars(t) + seq![','])
                                + (spec_torrent_list_chars(restv0) + "]}}"@)).len() == n);
                            assert(rem == spec_torrent_list_chars(whole) + "]}}"@);
                        }
                        restv.insert(0, t);
                        proof {
                            assert(restv@ =~= seq![t].add(restv0));
                            assert forall|k: int| 0 <= k < restv@.len() implies torrent_ok(
                                #[trigger] restv@[k],
                            ) by {
                                if k > 0 {
                                    assert(restv@[k] == restv0[k - 1]);
                                }
                            }
                        }
                        return Some(restv);
                    },
                    None => {
                        proof {
                            assert forall|ts: Seq<Torrent>|
                                torrents_ok(ts) implies rem != spec_torrent_list_chars(ts)
                                + "]}}"@ by {
                                if rem == spec_torrent_list_chars(ts) + "]}}"@ {
                                    if ts.len() == 0 {
                                        assert(rem =~= "]}}"@);
                                        assert(i + 3 == n);
                                        assert(g.subrange(i as int, i + 3) == "]}}"@);
                                        assert(lit_at(g, i as int, "]}}"@));
                                    } else {
                                        lemma_torrents_tail_head(g, i as int, ts);
                                        lemma_rec_text_unique(g, i as int, t, ts[0]);
                                        if ts.len() == 1 {
                                            crate::codec::lemma_lit_at_index(
                                                g,
                                                j as int,
                                                "]}}"@,
                                                0,
                                            );
                                            crate::codec::lemma_lit_at_index(g, j as int, ","@, 0);
                                        }
                                    }
                                }
                            }
                        }
                        return None;
                    },
                }
            } else if match_lit(s, j, "]}}") {
                if j + 3 == nn {
                    proof {
                        let whole = seq![t];
                        assert(spec_torrent_list_chars(whole) == spec_torrent_chars(t));
                        assert(lit_at(g, i as int, spec_torrent_chars(t)));
                        crate::codec::lemma_lit_at_join(g, i as int, spec_torrent_chars(t), "]}}"@);
                        assert(i + (spec_torrent_chars(t) + "]}}"@).len() == n);
                        assert(rem == spec_torrent_list_chars(whole) + "]}}"@);
                    }
                    let mut out: Vec<Torrent> = Vec::new();
                    out.push(t);
                    proof {
                        assert(out@ =~= seq![t]);
                    }
                    return Some(out);
                }
                proof {
                    assert forall|ts: Seq<Torrent>| torrents_ok(ts) implies rem
                        != spec_torrent_list_chars(ts) + "]}}"@ by {
                        if rem == spec_torrent_list_chars(ts) + "]}}"@ {
                            if ts.len() == 0 {
                                assert(rem =~= "]}}"@);
                                assert(i + 3 == n);
                                assert(g.subrange(i as int, i + 3) == "]}}"@);
                                assert(lit_at(g, i as int, "]}}"@));
                            } else {
                                lemma_torrents_tail_head(g, i as int, ts);
                                lemma_rec_text_unique(g, i as int, t, ts[0]);
                                if ts.len() > 1 {
                                    crate::codec::lemma_lit_at_index(g, j as int, "]}}"@, 0);
                                    crate::codec::lemma_lit_at_index(g, j as int, ","@, 0);
                                }
                            }
                        }
                    }
                }
                return None;
            } else {
                proof {
                    assert forall|ts: Seq<Torrent>| torrents_ok(ts) implies rem
                        != spec_torrent_list_chars(ts) + "]}}"@ by {
                        if rem == spec_torrent_list_chars(ts) + "]}}"@ {
                            if ts.len() == 0 {
                                assert(rem =~= "]}}"@);
                                assert(i + 3 == n);
                                assert(g.subrange(i as int, i + 3) == "]}}"@);
                                assert(lit_at(g, i as int, "]}}"@));
                            } else {
                                lemma_torrents_tail_head(g, i as int, ts);
                                lemma_rec_text_unique(g, i as int, t, ts[0]);
                                if ts.len() == 1 {
                                    assert(g.subrange(j as int, j + 3) =~= "]}}"@);
                                    assert(lit_at(g, j as int, "]}}"@));
                                } else {
                                    assert(g.subrange(j as int, j + 1) =~= ","@);
                                    assert(lit_at(g, j as int, ","@));
                                }
                            }
                        }
                    }
                }
                return None;
            }
        },
    }
}

impl RpcResponseArgument for Torrents<Torrent> {
    open spec fn spec_args_chars(&self) -> Seq<char> {
        "{\"torrents\":["@ + spec_torrent_list_chars(self.torrents@) + "]}"@
    }

    open spec fn args_ok(&self) -> bool {
        torrents_ok(self.torrents@)
    }

    fn parse_args_tail(s: &Vec<char>, i: usize) -> (r: Option<Self>) {
        let ghost g = s@;
        let ghost n = g.len() as int;
        let nn = s.len();
        proof {
            reveal_strlit("{\"torrents\":[");
            reveal_strlit("]}");
            reveal_strlit("]}}");
            reveal_strlit("}");
            assert("]}"@ + "}"@ =~= "]}}"@);
        }
        if !match_lit(s, i, "{\"torrents\":[") {
            proof {
                assert forall|a: Torrents<Torrent>|
                    a.args_ok() implies g.subrange(i as int, n) != a.spec_args_chars() + "}"@ by {
                    if g.subrange(i as int, n) == a.spec_args_chars() + "}"@ {
                        let x = a.spec_args_chars() + "}"@;
                        assert(x =~= "{\"torrents\":["@ + (spec_torrent_list_chars(a.torrents@)
                            + "]}}"@));
                        assert(lit_at(g, i as int, x));
                        crate::codec::lemma_lit_at_concat(
                            g,
                            i as int,
                            "{\"torrents\":["@,
                            spec_torrent_list_chars(a.torrents@) + "]}}"@,
                        );
                    }
                }
            }
            return None;
        }
        let head = "{\"torrents\":[";
        let off = head.unicode_len();
        proof {
            assert(i + "{\"torrents\":["@.len() <= nn);
        }
        match parse_torrents_tail(s, i + off) {
            Some(ts) => {
                let out = Torrents { torrents: ts };
                proof {
                    assert(g.subrange(i + off, n) == spec_torrent_list_chars(out.torrents@)
                        + "]}}"@);
                    assert(lit_at(g, i + off, spec_torrent_list_chars(out.torrents@) + "]}}"@));
                    crate::codec::lemma_lit_at_join(
                        g,
                        i as int,
                        "{\"torrents\":["@,
                        spec_torrent_list_chars(out.torrents@) + "]}}"@,
                    );
                    assert(out.spec_args_chars() + "}"@ =~= "{\"torrents\":["@ + (
                    spec_torrent_list_chars(out.torrents@) + "]}}"@));
                    assert(g.subrange(i as int, n) == out.spec_args_chars() + "}"@);
                }
                Some(out)
            },
            None => {
                proof {
                    assert forall|a: Torrents<Torrent>|
                        a.args_ok() implies g.subrange(i as int, n) != a.spec_args_chars()
                        + "}"@ by {
                        if g.subrange(i as int, n) == a.spec_args_chars() + "}"@ {
                            let x = a.spec_args_chars() + "}"@;
                            assert(x =~= "{\"torrents\":["@ + (spec_torrent_list_chars(a.torrents@)
                                + "]}}"@));
                            assert(lit_at(g, i as int, x));
                            crate::codec::lemma_lit_at_concat(
                                g,
                                i as int,
                                "{\"torrents\":["@,
                                spec_torrent_list_chars(a.torrents@) + "]}}"@,
                            );
                            assert(g.subrange(
                                i + "{\"torrents\":["@.len(),
                                i + "{\"torrents\":["@.len() + (spec_torrent_list_chars(
                                    a.torrents@,
                                ) + "]}}"@).len(),
                            ) == spec_torrent_list_chars(a.torrents@) + "]}}"@);
                            assert(i + "{\"torrents\":["@.len() + (spec_torrent_list_chars(
                                a.torrents@,
                            ) + "]}}"@).len() == n);
                            assert(g.subrange(i + off, n) == spec_torrent_list_chars(a.torrents@)
                                + "]}}"@);
                        }
                    }
                }
                None
            },
        }
    }
}

/// Decodes the canonical `result`-first spelling of a response body:
/// exact in both directions over that spelling.
fn decode_canonical<T: RpcResponseArgument>(body: &str) -> (r: Result<RpcResponse<T>, RpcError>)
    ensures
        match r {
            Ok(resp) => body@ == spec_response_chars(
                resp.result@,
                resp.arguments.spec_args_chars(),
            ) && string_ok(resp.result@) && resp.arguments.args_ok(),
            Err(e) => e matches RpcError::Decode(raw) && raw@ == body@ && (forall|
                rs: Seq<char>,
                a: T,
            |
                !(string_ok(rs) && a.args_ok() && body@ == spec_response_chars(
                    rs,
                    a.spec_args_chars(),
                ))),
        },
{
    let cs = crate::strutil::string_to_chars(body);
    let ghost g = body@;
    let ghost n = g.len() as int;
    let nn = cs.len();
    proof {
        reveal_strlit("{\"result\":\"");
        reveal_strlit("\",\"arguments\":");
        reveal_strlit(",\"arguments\":");
        reveal_strlit("}");
        assert("\",\"arguments\":"@ =~= seq!['"'] + ",\"arguments\":"@);
    }
    if !match_lit(&cs, 0, "{\"result\":\"") {
        proof {
            assert forall|rs: Seq<char>, a: T|
                !(string_ok(rs) && a.args_ok() && g == spec_response_chars(
                    rs,
                    a.spec_args_chars(),
                )) by {
                if string_ok(rs) && a.args_ok() && g == spec_response_chars(
                    rs,
                    a.spec_args_chars(),
                ) {
                    assert(g =~= "{\"result\":\""@ + (rs + (seq!['"'] + (",\"arguments\":"@ + (
                    a.spec_args_chars() + "}"@)))));
                    crate::codec::lemma_concat_prefix_lit(
                        "{\"result\":\""@,
                        rs + (seq!['"'] + (",\"arguments\":"@ + (a.spec_args_chars() + "}"@))),
                    );
                }
            }
        }
        return Err(RpcError::Decode(body.to_owned()));
    }
    let head = "{\"result\":\"";
    let p1 = head.unicode_len();
    proof {
        assert("{\"result\":\""@.len() <= nn);
    }
    match crate::codec::parse_string_content(&cs, p1) {
        None => {
            proof {
                assert forall|rs: Seq<char>, a: T|
                    !(string_ok(rs) && a.args_ok() && g == spec_response_chars(
                        rs,
                        a.spec_args_chars(),
                    )) by {
                    if string_ok(rs) && a.args_ok() && g == spec_response_chars(
                        rs,
                        a.spec_args_chars(),
                    ) {
                        let y = seq!['"'] + (",\"arguments\":"@ + (a.spec_args_chars() + "}"@));
                        assert(g =~= "{\"result\":\""@ + (rs + y));
                        crate::codec::lemma_concat_prefix_lit("{\"result\":\""@, rs + y);
                        assert(g.subrange(0, g.len() as int) =~= g);
                        assert(lit_at(g, 0, "{\"result\":\""@ + (rs + y)));
                        crate::codec::lemma_lit_at_concat(g, 0, "{\"result\":\""@, rs + y);
                        crate::codec::lemma_lit_at_concat(g, 11, rs, y);
                        crate::codec::lemma_lit_at_index(g, 11 + rs.len() as int, y, 0);
                        assert(str_at(g, 11, rs));
                    }
                }
            }
            return Err(RpcError::Decode(body.to_owned()));
        },
        Some((resv, j)) => {
            if !match_lit(&cs, j, ",\"arguments\":") {
                proof {
                    assert forall|rs: Seq<char>, a: T|
                        !(string_ok(rs) && a.args_ok() && g == spec_response_chars(
                            rs,
                            a.spec_args_chars(),
                        )) by {
                        if string_ok(rs) && a.args_ok() && g == spec_response_chars(
                            rs,
                            a.spec_args_chars(),
                        ) {
                            let y = seq!['"'] + (",\"arguments\":"@ + (a.spec_args_chars()
                                + "}"@));
                            assert(g =~= "{\"result\":\""@ + (rs + y));
                            assert(g.subrange(0, g.len() as int) =~= g);
                            assert(lit_at(g, 0, "{\"result\":\""@ + (rs + y)));
                            crate::codec::lemma_lit_at_concat(g, 0, "{\"result\":\""@, rs + y);
                            crate::codec::lemma_lit_at_concat(g, 11, rs, y);
                            crate::codec::lemma_lit_at_index(g, 11 + rs.len() as int, y, 0);
                            assert(str_at(g, 11, rs));
                            crate::codec::lemma_str_at_unique(g, 11, resv@, rs);
                            crate::codec::lemma_lit_at_concat(
                                g,
                                11 + rs.len() as int,
                                seq!['"'],
                                ",\"arguments\":"@ + (a.spec_args_chars() + "}"@),
                            );
                            crate::codec::lemma_lit_at_concat(
                                g,
                                11 + rs.len() as int + 1,
                                ",\"arguments\":"@,
                                a.spec_args_chars() + "}"@,
                            );
                        }
                    }
                }
                return Err(RpcError::Decode(body.to_owned()));
            }
            let mid = ",\"arguments\":";
            let p2 = j + mid.unicode_len();
            proof {
                assert(j + ",\"arguments\":"@.len() <= nn);
            }
            match T::parse_args_tail(&cs, p2) {
                None => {
                    proof {
                        assert forall|rs: Seq<char>, a: T|
                            !(string_ok(rs) && a.args_ok() && g == spec_response_chars(
                                rs,
                                a.spec_args_chars(),
                            )) by {
                            if string_ok(rs) && a.args_ok() && g == spec_response_chars(
                                rs,
                                a.spec_args_chars(),
                            ) {
                                let y = seq!['"'] + (",\"arguments\":"@ + (a.spec_args_chars()
                                    + "}"@));
                                assert(g =~= "{\"result\":\""@ + (rs + y));
                                assert(g.subrange(0, g.len() as int) =~= g);
                                assert(lit_at(g, 0, "{\"result\":\""@ + (rs + y)));
                                crate::codec::lemma_lit_at_concat(g, 0, "{\"result\":\""@, rs + y);
                                crate::codec::lemma_lit_at_concat(g, 11, rs, y);
                                crate::codec::lemma_lit_at_index(g, 11 + rs.len() as int, y, 0);
                                assert(str_at(g, 11, rs));
                                crate::codec::lemma_str_at_unique(g, 11, resv@, rs);
                                crate::codec::lemma_lit_at_concat(
                                    g,
                                    11 + rs.len() as int,
                                    seq!['"'],
                                    ",\"arguments\":"@ + (a.spec_args_chars() + "}"@),
                                );
                                crate::codec::lemma_lit_at_concat(
                                    g,
                                    11 + rs.len() as int + 1,
                                    ",\"arguments\":"@,
                                    a.spec_args_chars() + "}"@,
                                );
                                assert(g.subrange(
                                    p2 as int,
                                    p2 + (a.spec_args_chars() + "}"@).len(),
                                ) == a.spec_args_chars() + "}"@);
                                assert(p2 + (a.spec_args_chars() + "}"@).len() == n);
                                assert(g.subrange(p2 as int, n) == a.spec_args_chars() + "}"@);
                            }
                        }
                    }
                    return Err(RpcError::Decode(body.to_owned()));
                },
                Some(args) => {
                    proof {
                        assert(g[p1 + resv@.len()] == '"');
                        crate::codec::lemma_lit_at_single(g, p1 + resv@.len() as int);
                        assert(seq![g[p1 + resv@.len() as int]] =~= seq!['"']);
                        crate::codec::lemma_lit_at_join(g, 0, "{\"result\":\""@, resv@);
                        crate::codec::lemma_lit_at_join(g, 0, "{\"result\":\""@ + resv@, seq!['"']);
                        crate::codec::lemma_lit_at_join(
                            g,
                            0,
                            ("{\"result\":\""@ + resv@) + seq!['"'],
                            ",\"arguments\":"@,
                        );
                        assert(g.subrange(p2 as int, n) == args.spec_args_chars() + "}"@);
                        assert(lit_at(g, p2 as int, args.spec_args_chars() + "}"@));
                        crate::codec::lemma_lit_at_join(
                            g,
                            0,
                            (("{\"result\":\""@ + resv@) + seq!['"']) + ",\"arguments\":"@,
                            args.spec_args_chars() + "}"@,
                        );
                        assert(spec_response_chars(resv@, args.spec_args_chars()) =~= ((((
                        "{\"result\":\""@ + resv@) + seq!['"']) + ",\"arguments\":"@) + (
                        args.spec_args_chars() + "}"@)));
                        assert(g.subrange(0, n) =~= g);
                        assert(g == spec_response_chars(resv@, args.spec_args_chars()));
                    }
                    let result = crate::strutil::chars_to_string(&resv);
                    Ok(RpcResponse { result, arguments: args })
                },
            }
        },
    }
}


/// The other member order of the envelope: `arguments` first, as the
/// server commonly spells it.
pub open spec fn spec_response_args_first(result: Seq<char>, args: Seq<char>) -> Seq<char> {
    "{\"arguments\":"@ + args + ",\"result\":\""@ + result + "\"}"@
}

/// Placement of the parts of an `arguments`-first envelope spelling.
proof fn lemma_args_first_anatomy(g: Seq<char>, rs: Seq<char>, args: Seq<char>)
    requires
        g == spec_response_args_first(rs, args),
        string_ok(rs),
    ensures
        g.len() == 26 + args.len() + rs.len(),
        lit_at(g, 0, "{\"arguments\":"@),
        g.subrange(13, 13 + args.len() as int) == args,
        lit_at(g, 13 + args.len() as int, ",\"result\":\""@),
        ({
            let q = 23 + args.len() as int;
            &&& g[q] == '"'
            &&& g.subrange(q + 1, g.len() - 2) == rs
            &&& (forall|m: int| q < m < g.len() - 2 ==> g[m] != '"' && g[m] != '\\')
            &&& g[g.len() - 2] == '"'
            &&& g[g.len() - 1] == '}'
        }),
{
    reveal_strlit("{\"arguments\":");
    reveal_strlit(",\"result\":\"");
    reveal_strlit("\"}");
    assert(g =~= "{\"arguments\":"@ + (args + (",\"result\":\""@ + (rs + "\"}"@))));
    assert(g.subrange(0, g.len() as int) =~= g);
    assert(lit_at(g, 0, "{\"arguments\":"@ + (args + (",\"result\":\""@ + (rs + "\"}"@)))));
    crate::codec::lemma_lit_at_concat(
        g,
        0,
        "{\"arguments\":"@,
        args + (",\"result\":\""@ + (rs + "\"}"@)),
    );
    crate::codec::lemma_lit_at_concat(g, 13, args, ",\"result\":\""@ + (rs + "\"}"@));
    crate::codec::lemma_lit_at_concat(g, 13 + args.len() as int, ",\"result\":\""@, rs + "\"}"@);
    let q = 23 + args.len() as int;
    crate::codec::lemma_lit_at_index(g, 13 + args.len() as int, ",\"result\":\""@, 10);
    assert(g[q] == '"');
    crate::codec::lemma_lit_at_concat(g, q + 1, rs, "\"}"@);
    assert(g.subrange(q + 1, q + 1 + rs.len()) == rs);
    assert(q + 1 + rs.len() == g.len() - 2);
    crate::codec::lemma_lit_at_index(g, g.len() - 2, "\"}"@, 0);
    crate::codec::lemma_lit_at_index(g, g.len() - 2, "\"}"@, 1);
    assert forall|m: int| q < m < g.len() - 2 implies g[m] != '"' && g[m] != '\\' by {
        assert(g[m] == g.subrange(q + 1, g.len() - 2)[m - (q + 1)]);
        assert(g[m] == rs[m - (q + 1)]);
    }
}

/// A body that opens with `{"arguments":` is no `result`-first spelling.
proof fn lemma_not_canonical_when_args_open(g: Seq<char>, rs: Seq<char>, args: Seq<char>)
    requires
        lit_at(g, 0, "{\"arguments\":"@),
    ensures
        g != spec_response_chars(rs, args),
{
    reveal_strlit("{\"arguments\":");
    reveal_strlit("{\"result\":\"");
    reveal_strlit("\",\"arguments\":");
    reveal_strlit("}");
    if g == spec_response_chars(rs, args) {
        assert(g =~= "{\"result\":\""@ + (rs + ("\",\"arguments\":"@ + (args + "}"@))));
        assert(g.subrange(0, g.len() as int) =~= g);
        crate::codec::lemma_lit_at_concat(
            g,
            0,
            "{\"result\":\""@,
            rs + ("\",\"arguments\":"@ + (args + "}"@)),
        );
        crate::codec::lemma_lit_at_index(g, 0, "{\"result\":\""@, 2);
        crate::codec::lemma_lit_at_index(g, 0, "{\"arguments\":"@, 2);
        assert(false);
    }
}

/// Decodes a response body as an envelope around the expected payload
/// shape: exact in both directions, in either envelope member order. It
/// returns the typed envelope exactly when the body is a wire text of it —
/// `result` first, or `arguments` first as the server commonly answers —
/// around a wire-ready payload of the shape; every other body comes back
/// as a decode error carrying the raw body.
#[verifier::rlimit(100)]
pub fn decode_response<T: RpcResponseArgument>(body: &str) -> (r: Result<RpcResponse<T>, RpcError>)
    ensures
        match r {
            Ok(resp) => (body@ == spec_response_chars(
                resp.result@,
                resp.arguments.spec_args_chars(),
            ) || body@ == spec_response_args_first(
                resp.result@,
                resp.arguments.spec_args_chars(),
            )) && string_ok(resp.result@) && resp.arguments.args_ok(),
            Err(e) => e matches RpcError::Decode(raw) && raw@ == body@ && (forall|
                rs: Seq<char>,
                a: T,
            |
                !(string_ok(rs) && a.args_ok() && (body@ == spec_response_chars(
                    rs,
                    a.spec_args_chars(),
                ) || body@ == spec_response_args_first(rs, a.spec_args_chars())))),
        },
{
    let cs = crate::strutil::string_to_chars(body);
    let ghost g = body@;
    let nn = cs.len();
    let ghost n = g.len() as int;
    proof {
        reveal_strlit("{\"arguments\":");
        reveal_strlit(",\"result\":\"");
        reveal_strlit("\"}");
        reveal_strlit("{\"result\":\"");
        reveal_strlit("\",\"arguments\":");
        reveal_strlit(",\"arguments\":");
        reveal_strlit("}");
        assert("\",\"arguments\":"@ =~= seq!['"'] + ",\"arguments\":"@);
    }
    if !match_lit(&cs, 0, "{\"arguments\":") {
        let out = decode_canonical::<T>(body);
        proof {
            if out is Err {
                assert forall|rs: Seq<char>, a: T|
                    !(string_ok(rs) && a.args_ok() && (g == spec_response_chars(
                        rs,
                        a.spec_args_chars(),
                    ) || g == spec_response_args_first(rs, a.spec_args_chars()))) by {
                    if string_ok(rs) && a.args_ok() && g == spec_response_args_first(
                        rs,
                        a.spec_args_chars(),
                    ) {
                        lemma_args_first_anatomy(g, rs, a.spec_args_chars());
                    }
                }
            }
        }
        return out;
    }
    // `arguments` first: locate the trailing result string, rebuild the
    // canonical spelling, and decode that.
    if nn < 2 {
        proof {
            assert forall|rs: Seq<char>, a: T|
                !(string_ok(rs) && a.args_ok() && (g == spec_response_chars(
                    rs,
                    a.spec_args_chars(),
                ) || g == spec_response_args_first(rs, a.spec_args_chars()))) by {
                lemma_not_canonical_when_args_open(g, rs, a.spec_args_chars());
                if string_ok(rs) && a.args_ok() && g == spec_response_args_first(
                    rs,
                    a.spec_args_chars(),
                ) {
                    lemma_args_first_anatomy(g, rs, a.spec_args_chars());
                }
            }
        }
        return Err(RpcError::Decode(body.to_owned()));
    }
    if cs[nn - 1] != '}' || cs[nn - 2] != '"' {
        proof {
            assert forall|rs: Seq<char>, a: T|
                !(string_ok(rs) && a.args_ok() && (g == spec_response_chars(
                    rs,
                    a.spec_args_chars(),
                ) || g == spec_response_args_first(rs, a.spec_args_chars()))) by {
                lemma_not_canonical_when_args_open(g, rs, a.spec_args_chars());
                if string_ok(rs) && a.args_ok() && g == spec_response_args_first(
                    rs,
                    a.spec_args_chars(),
                ) {
                    lemma_args_first_anatomy(g, rs, a.spec_args_chars());
                }
            }
        }
        return Err(RpcError::Decode(body.to_owned()));
    }
    // walk left from the closing quote to the opening quote of the result
    let mut q = nn - 2;
    loop
        invariant
            2 <= nn == g.len(),
            g == cs@,
            g == body@,
            lit_at(g, 0, "{\"arguments\":"@),
            0 <= q <= nn - 2,
            forall|m: int| q <= m < nn - 2 ==> g[m] != '"' && g[m] != '\\',
        ensures
            1 <= q <= nn - 2,
            g[q - 1] == '"',
            forall|m: int| q <= m < nn - 2 ==> g[m] != '"' && g[m] != '\\',
        decreases q,
    {
        if q == 0 {
            proof {
                assert forall|rs: Seq<char>, a: T|
                    !(string_ok(rs) && a.args_ok() && (g == spec_response_chars(
                        rs,
                        a.spec_args_chars(),
                    ) || g == spec_response_args_first(rs, a.spec_args_chars()))) by {
                    lemma_not_canonical_when_args_open(g, rs, a.spec_args_chars());
                    if string_ok(rs) && a.args_ok() && g == spec_response_args_first(
                        rs,
                        a.spec_args_chars(),
                    ) {
                        lemma_args_first_anatomy(g, rs, a.spec_args_chars());
                        let qc = 23 + a.spec_args_chars().len() as int;
                        assert(g[qc] == '"');
                    }
                }
            }
            return Err(RpcError::Decode(body.to_owned()));
        }
        let c = cs[q - 1];
        if c == '"' {
            break;
        }
        if c == '\\' {
            proof {
                assert forall|rs: Seq<char>, a: T|
                    !(string_ok(rs) && a.args_ok() && (g == spec_response_chars(
                        rs,
                        a.spec_args_chars(),
                    ) || g == spec_response_args_first(rs, a.spec_args_chars()))) by {
                    lemma_not_canonical_when_args_open(g, rs, a.spec_args_chars());
                    if string_ok(rs) && a.args_ok() && g == spec_response_args_first(
                        rs,
                        a.spec_args_chars(),
                    ) {
                        lemma_args_first_anatomy(g, rs, a.spec_args_chars());
                        let qc = 23 + a.spec_args_chars().len() as int;
                        assert(g[qc] == '"');
                        if q - 1 > qc {
                            assert(g[q - 1] != '\\');
                        } else if q - 1 == qc {
                            assert(g[q - 1] == '"');
                        } else {
                            assert(g[qc] != '"');
                        }
                    }
                }
            }
            return Err(RpcError::Decode(body.to_owned()));
        }
        q -= 1;
    }
    q -= 1;
    // here g[q] == '"' and the span up to the closing quote is clean
    proof {
        assert(g[q as int] == '"');
    }
    if q < 23 || !match_lit(&cs, q - 10, ",\"result\":\"") {
        proof {
            assert forall|rs: Seq<char>, a: T|
                !(string_ok(rs) && a.args_ok() && (g == spec_response_chars(
                    rs,
                    a.spec_args_chars(),
                ) || g == spec_response_args_first(rs, a.spec_args_chars()))) by {
                lemma_not_canonical_when_args_open(g, rs, a.spec_args_chars());
                if string_ok(rs) && a.args_ok() && g == spec_response_args_first(
                    rs,
                    a.spec_args_chars(),
                ) {
                    lemma_args_first_anatomy(g, rs, a.spec_args_chars());
                    let qc = 23 + a.spec_args_chars().len() as int;
                    if q as int > qc {
                        assert(g[q as int] != '"');
                    } else if (q as int) < qc {
                        assert(g[qc] != '"');
                    }
                    assert(q as int == qc);
                }
            }
        }
        return Err(RpcError::Decode(body.to_owned()));
    }
    let rs_vec = crate::codec::copy_range(&cs, q + 1, nn - 2);
    let args_vec = crate::codec::copy_range(&cs, 13, q - 10);
    let mut rebuilt = String::new();
    rebuilt.append("{\"result\":\"");
    let rs_str = crate::strutil::chars_to_string(&rs_vec);
    rebuilt.append(rs_str.as_str());
    rebuilt.append("\",\"arguments\":");
    let args_str = crate::strutil::chars_to_string(&args_vec);
    rebuilt.append(args_str.as_str());
    rebuilt.append("}");
    let ghost rsg = g.subrange(q + 1, n - 2);
    let ghost argsg = g.subrange(13, q - 10);
    proof {
        assert(rebuilt@ == "{\"result\":\""@ + rsg + "\",\"arguments\":"@ + argsg + "}"@);
        assert(rebuilt@ == spec_response_chars(rsg, argsg));
        assert(string_ok(rsg)) by {
            assert forall|k: int| 0 <= k < rsg.len() implies rsg[k] != '"' && rsg[k] != '\\' by {
                assert(rsg[k] == g[q + 1 + k]);
            }
        }
        // the body is the arguments-first spelling of the same parts
        assert(g =~= spec_response_args_first(rsg, argsg)) by {
            assert(lit_at(g, 0, "{\"arguments\":"@));
            assert(lit_at(g, q - 10, ",\"result\":\""@));
            assert forall|m: int| 0 <= m < g.len() implies g[m] == spec_response_args_first(
                rsg,
                argsg,
            )[m] by {
                let x = spec_response_args_first(rsg, argsg);
                assert(x =~= "{\"arguments\":"@ + (argsg + (",\"result\":\""@ + (rsg + "\"}"@))));
                if m < 13 {
                    crate::codec::lemma_lit_at_index(g, 0, "{\"arguments\":"@, m);
                } else if m < q - 10 {
                    assert(g[m] == argsg[m - 13]);
                } else if m < q + 1 {
                    crate::codec::lemma_lit_at_index(g, q - 10, ",\"result\":\""@, m - (q - 10));
                } else if m < n - 2 {
                    assert(g[m] == rsg[m - (q + 1)]);
                } else {
                    assert("\"}"@ =~= seq!['"', '}']);
                }
            }
        }
    }
    match decode_canonical::<T>(rebuilt.as_str()) {
        Ok(resp) => {
            proof {
                // the canonical decode pins the parts of the rebuilt text
                let rb = rebuilt@;
                assert(rb == spec_response_chars(resp.result@, resp.arguments.spec_args_chars()));
                assert(rb == spec_response_chars(rsg, argsg));
                assert(rb =~= "{\"result\":\""@ + (rsg + (seq!['"'] + (",\"arguments\":"@ + (argsg
                    + "}"@)))));
                assert(rb =~= "{\"result\":\""@ + (resp.result@ + (seq!['"'] + (
                ",\"arguments\":"@ + (resp.arguments.spec_args_chars() + "}"@)))));
                assert(rb.subrange(0, rb.len() as int) =~= rb);
                assert(lit_at(rb, 0, "{\"result\":\""@ + (rsg + (seq!['"'] + (",\"arguments\":"@
                    + (argsg + "}"@))))));
                crate::codec::lemma_lit_at_concat(
                    rb,
                    0,
                    "{\"result\":\""@,
                    rsg + (seq!['"'] + (",\"arguments\":"@ + (argsg + "}"@))),
                );
                crate::codec::lemma_lit_at_concat(
                    rb,
                    11,
                    rsg,
                    seq!['"'] + (",\"arguments\":"@ + (argsg + "}"@)),
                );
                crate::codec::lemma_lit_at_index(
                    rb,
                    11 + rsg.len() as int,
                    seq!['"'] + (",\"arguments\":"@ + (argsg + "}"@)),
                    0,
                );
                assert(str_at(rb, 11, rsg));
                assert(lit_at(rb, 0, "{\"result\":\""@ + (resp.result@ + (seq!['"'] + (
                ",\"arguments\":"@ + (resp.arguments.spec_args_chars() + "}"@))))));
                crate::codec::lemma_lit_at_concat(
                    rb,
                    0,
                    "{\"result\":\""@,
                    resp.result@ + (seq!['"'] + (",\"arguments\":"@ + (
                    resp.arguments.spec_args_chars() + "}"@))),
                );
                crate::codec::lemma_lit_at_concat(
                    rb,
                    11,
                    resp.result@,
                    seq!['"'] + (",\"arguments\":"@ + (resp.arguments.spec_args_chars() + "}"@)),
                );
                crate::codec::lemma_lit_at_index(
                    rb,
                    11 + resp.result@.len() as int,
                    seq!['"'] + (",\"arguments\":"@ + (resp.arguments.spec_args_chars() + "}"@)),
                    0,
                );
                assert(str_at(rb, 11, resp.result@));
                crate::codec::lemma_str_at_unique(rb, 11, rsg, resp.result@);
                assert(rsg == resp.result@);
                assert(spec_response_chars(rsg, argsg) =~= ("{\"result\":\""@ + rsg
                    + "\",\"arguments\":"@) + (argsg + "}"@));
                assert(spec_response_chars(resp.result@, resp.arguments.spec_args_chars()) =~= (
                "{\"result\":\""@ + resp.result@ + "\",\"arguments\":"@) + (
                resp.arguments.spec_args_chars() + "}"@));
                crate::request::lemma_concat_cancel(
                    "{\"result\":\""@ + rsg + "\",\"arguments\":"@,
                    argsg + "}"@,
                    resp.arguments.spec_args_chars() + "}"@,
                );
                crate::request::lemma_concat_cancel_right(
                    argsg,
                    resp.arguments.spec_args_chars(),
                    "}"@,
                );
                assert(argsg == resp.arguments.spec_args_chars());
                assert(g == spec_response_args_first(
                    resp.result@,
                    resp.arguments.spec_args_chars(),
                ));
            }
            Ok(resp)
        },
        Err(_) => {
            proof {
                assert forall|rs: Seq<char>, a: T|
                    !(string_ok(rs) && a.args_ok() && (g == spec_response_chars(
                        rs,
                        a.spec_args_chars(),
                    ) || g == spec_response_args_first(rs, a.spec_args_chars()))) by {
                    lemma_not_canonical_when_args_open(g, rs, a.spec_args_chars());
                    if string_ok(rs) && a.args_ok() && g == spec_response_args_first(
                        rs,
                        a.spec_args_chars(),
                    ) {
                        lemma_args_first_anatomy(g, rs, a.spec_args_chars());
                        let qc = 23 + a.spec_args_chars().len() as int;
                        if q as int > qc {
                            assert(g[q as int] != '"');
                        } else if (q as int) < qc {
                            assert(g[qc] != '"');
                        }
                        assert(q as int == qc);
                        assert(rsg =~= rs);
                        assert(argsg =~= a.spec_args_chars());
                        assert(rebuilt@ == spec_response_chars(rs, a.spec_args_chars()));
                    }
                }
            }
            Err(RpcError::Decode(body.to_owned()))
        },
    }
}

} // verus!
