//! Wire primitives shared by the request and response codecs: matching a
//! fixed literal at a position, and reading a quoted string. Every parser
//! here is exact: it accepts a shape if and only if the shape stands at the
//! position.

use vstd::prelude::*;
use vstd::string::StrSliceExecFns;

verus! {

/// The characters `lit` stand at position `i` of `s`.
pub open spec fn lit_at(s: Seq<char>, i: int, lit: Seq<char>) -> bool {
    &&& 0 <= i
    &&& i + lit.len() <= s.len()
    &&& s.subrange(i, i + lit.len()) == lit
}

/// A literal placed right after another extends it.
pub proof fn lemma_lit_at_concat(s: Seq<char>, i: int, a: Seq<char>, b: Seq<char>)
    requires
        lit_at(s, i, a + b),
    ensures
        lit_at(s, i, a),
        lit_at(s, i + a.len(), b),
{
    let ab = a + b;
    assert forall|k: int| 0 <= k < a.len() implies s[i + k] == a[k] by {
        assert(s[i + k] == s.subrange(i, i + ab.len())[k]);
    }
    assert forall|k: int| 0 <= k < b.len() implies s[i + a.len() + k] == b[k] by {
        assert(s[i + a.len() + k] == s.subrange(i, i + ab.len())[a.len() + k]);
    }
    assert(s.subrange(i, i + a.len()) =~= a);
    assert(s.subrange(i + a.len(), i + a.len() + b.len()) =~= b);
}

/// Two adjacent literals merge into one.
pub proof fn lemma_lit_at_join(s: Seq<char>, i: int, a: Seq<char>, b: Seq<char>)
    requires
        lit_at(s, i, a),
        lit_at(s, i + a.len(), b),
    ensures
        lit_at(s, i, a + b),
{
    assert forall|k: int| 0 <= k < a.len() + b.len() implies s[i + k] == (a + b)[k] by {
        if k < a.len() {
            assert(s[i + k] == s.subrange(i, i + a.len())[k]);
        } else {
            assert(s[i + k] == s.subrange(i + a.len(), i + a.len() + b.len())[k - a.len()]);
        }
    }
    assert(s.subrange(i, i + a.len() + b.len()) =~= a + b);
}

/// Does `lit` stand at position `i`? Exact in both directions.
pub fn match_lit(s: &Vec<char>, i: usize, lit: &str) -> (r: bool)
    requires
        i <= s@.len(),
    ensures
        r == lit_at(s@, i as int, lit@),
{
    let ll = lit.unicode_len();
    let n = s.len();
    if n - i < ll {
        return false;
    }
    let mut k: usize = 0;
    while k < ll
        invariant
            i + ll <= n,
            n == s@.len(),
            ll == lit@.len(),
            k <= ll,
            forall|m: int| 0 <= m < k ==> s@[i + m] == lit@[m],
        decreases ll - k,
    {
        if s[i + k] != lit.get_char(k) {
            proof {
                if lit_at(s@, i as int, lit@) {
                    assert(s@[i + k] == s@.subrange(i as int, i + lit@.len())[k as int]);
                }
            }
            return false;
        }
        k += 1;
    }
    proof {
        assert(s@.subrange(i as int, i + lit@.len()) =~= lit@);
    }
    true
}

/// String content the wire form can carry verbatim: no quote, no backslash.
pub open spec fn string_ok(cs: Seq<char>) -> bool {
    forall|k: int| 0 <= k < cs.len() ==> cs[k] != '"' && cs[k] != '\\'
}

/// The content `cs` stands at position `i`, closed by a quote.
pub open spec fn str_at(s: Seq<char>, i: int, cs: Seq<char>) -> bool {
    &&& string_ok(cs)
    &&& 0 <= i
    &&& i + cs.len() < s.len()
    &&& s.subrange(i, i + cs.len()) == cs
    &&& s[i + cs.len()] == '"'
}

/// The first closing quote pins the content: at one position only one
/// content stands.
pub proof fn lemma_str_at_unique(s: Seq<char>, i: int, cs1: Seq<char>, cs2: Seq<char>)
    requires
        str_at(s, i, cs1),
        str_at(s, i, cs2),
    ensures
        cs1 == cs2,
{
    if cs1.len() < cs2.len() {
        assert(cs2[cs1.len() as int] == s.subrange(i, i + cs2.len())[cs1.len() as int]);
        assert(cs2[cs1.len() as int] == '"');
        assert(false);
    }
    if cs2.len() < cs1.len() {
        assert(cs1[cs2.len() as int] == s.subrange(i, i + cs1.len())[cs2.len() as int]);
        assert(cs1[cs2.len() as int] == '"');
        assert(false);
    }
    assert forall|k: int| 0 <= k < cs1.len() implies cs1[k] == cs2[k] by {
        assert(cs1[k] == s.subrange(i, i + cs1.len())[k]);
        assert(cs2[k] == s.subrange(i, i + cs2.len())[k]);
    }
    assert(cs1 =~= cs2);
}

/// Reads string content from `i` up to its closing quote: returns the
/// content and the position one past the quote exactly when content in
/// wire form stands there, `None` exactly when none does.
pub fn parse_string_content(s: &Vec<char>, i: usize) -> (r: Option<(Vec<char>, usize)>)
    requires
        i <= s@.len(),
    ensures
        match r {
            Some((cs, j)) => str_at(s@, i as int, cs@) && j == i + cs@.len() + 1,
            None => forall|cs: Seq<char>| !str_at(s@, i as int, cs),
        },
{
    let ghost gs = s@;
    let mut out: Vec<char> = Vec::new();
    let mut j = i;
    loop
        invariant
            i <= j <= gs.len(),
            gs == s@,
            out@ == gs.subrange(i as int, j as int),
            string_ok(out@),
        decreases gs.len() - j,
    {
        if j == s.len() {
            proof {
                assert forall|cs: Seq<char>| !str_at(gs, i as int, cs) by {
                    if str_at(gs, i as int, cs) {
                        let m = i + cs.len();
                        assert(gs[m] == '"');
                        assert(gs[m] == out@[m - i]);
                    }
                }
            }
            return None;
        }
        let c = s[j];
        if c == '"' {
            proof {
                assert(str_at(gs, i as int, out@));
            }
            return Some((out, j + 1));
        }
        if c == '\\' {
            proof {
                assert forall|cs: Seq<char>| !str_at(gs, i as int, cs) by {
                    if str_at(gs, i as int, cs) {
                        let m = i + cs.len();
                        assert(gs[m] == '"');
                        if m < j {
                            assert(gs[m] == out@[m - i]);
                        } else if m == j {
                            assert(gs[m] == '\\');
                        } else {
                            assert(cs[j - i] == gs.subrange(i as int, m)[j - i]);
                            assert(cs[j - i] == '\\');
                        }
                    }
                }
            }
            return None;
        }
        out.push(c);
        j += 1;
        proof {
            assert(out@ =~= gs.subrange(i as int, j as int));
        }
    }
}

/// The first character of a literal in place.
pub proof fn lemma_lit_at_first(s: Seq<char>, i: int, lit: Seq<char>)
    requires
        lit_at(s, i, lit),
        lit.len() > 0,
    ensures
        s[i] == lit[0],
{
    assert(s[i] == s.subrange(i, i + lit.len())[0]);
}

/// Any character of a literal in place.
pub proof fn lemma_lit_at_index(s: Seq<char>, i: int, lit: Seq<char>, k: int)
    requires
        lit_at(s, i, lit),
        0 <= k < lit.len(),
    ensures
        s[i + k] == lit[k],
{
    assert(s[i + k] == s.subrange(i, i + lit.len())[k]);
}

/// A single character in place is a one-character literal.
pub proof fn lemma_lit_at_single(s: Seq<char>, i: int)
    requires
        0 <= i < s.len(),
    ensures
        lit_at(s, i, seq![s[i]]),
{
    assert(s.subrange(i, i + 1) =~= seq![s[i]]);
}

/// The left part of a concatenation stands at its start.
pub proof fn lemma_concat_prefix_lit(a: Seq<char>, b: Seq<char>)
    ensures
        lit_at(a + b, 0, a),
{
    assert((a + b).subrange(0, a.len() as int) =~= a);
}

/// String content between its two quotes, as it stands on the wire.
pub open spec fn quoted_chars(cs: Seq<char>) -> Seq<char> {
    seq!['"'] + cs + seq!['"']
}

/// Where a quoted string stands as a literal, its content stands after the
/// opening quote.
pub proof fn lemma_quoted_str_at(s: Seq<char>, i: int, cs: Seq<char>)
    requires
        lit_at(s, i, quoted_chars(cs)),
        string_ok(cs),
    ensures
        str_at(s, i + 1, cs),
        s[i] == '"',
{
    let q = quoted_chars(cs);
    assert forall|k: int| 0 <= k < q.len() implies s[i + k] == q[k] by {
        assert(s[i + k] == s.subrange(i, i + q.len())[k]);
    }
    assert(s[i] == q[0]);
    assert(q[0] == '"');
    assert forall|k: int| 0 <= k < cs.len() implies s[i + 1 + k] == cs[k] by {
        assert(s[i + 1 + k] == q[1 + k]);
        assert(q[1 + k] == cs[k]);
    }
    assert(s.subrange(i + 1, i + 1 + cs.len()) =~= cs);
    assert(s[i + 1 + cs.len()] == q[cs.len() as int + 1]);
    assert(q[cs.len() as int + 1] == '"');
}

/// A copy of the characters between two positions.
pub fn copy_range(s: &Vec<char>, lo: usize, hi: usize) -> (r: Vec<char>)
    requires
        lo <= hi <= s@.len(),
    ensures
        r@ == s@.subrange(lo as int, hi as int),
{
    let mut r: Vec<char> = Vec::new();
    let mut k = lo;
    while k < hi
        invariant
            lo <= k <= hi <= s@.len(),
            r@ == s@.subrange(lo as int, k as int),
        decreases hi - k,
    {
        r.push(s[k]);
        k += 1;
        proof {
            assert(r@ =~= s@.subrange(lo as int, k as int));
        }
    }
    proof {
        assert(r@ =~= s@.subrange(lo as int, hi as int));
    }
    r
}

/// Does the vector hold exactly the characters of `lit`?
pub fn chars_eq_str(v: &Vec<char>, lit: &str) -> (r: bool)
    ensures
        r == (v@ == lit@),
{
    let ll = lit.unicode_len();
    if v.len() != ll {
        return false;
    }
    let mut k: usize = 0;
    while k < ll
        invariant
            ll == lit@.len(),
            ll == v@.len(),
            k <= ll,
            forall|m: int| 0 <= m < k ==> v@[m] == lit@[m],
        decreases ll - k,
    {
        if v[k] != lit.get_char(k) {
            return false;
        }
        k += 1;
    }
    proof {
        assert(v@ =~= lit@);
    }
    true
}

} // verus!
