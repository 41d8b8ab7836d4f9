//! Decimal integer codec: the canonical character sequence of an integer,
//! a verified printer appending to a string, and a verified parser over a
//! character vector, each the exact inverse of the other.

use vstd::prelude::*;
use vstd::string::StringExecFns;

verus! {

/// A decimal digit character.
pub open spec fn is_digit(c: char) -> bool {
    '0' as int <= c as int <= '9' as int
}

/// Numeric value of a digit character.
pub open spec fn digit_val(c: char) -> nat
    recommends
        is_digit(c),
{
    (c as int - '0' as int) as nat
}

/// The digit character for a value below ten.
pub open spec fn digit_char(d: nat) -> char
    recommends
        d < 10,
{
    if d == 0 {
        '0'
    } else if d == 1 {
        '1'
    } else if d == 2 {
        '2'
    } else if d == 3 {
        '3'
    } else if d == 4 {
        '4'
    } else if d == 5 {
        '5'
    } else if d == 6 {
        '6'
    } else if d == 7 {
        '7'
    } else if d == 8 {
        '8'
    } else {
        '9'
    }
}

/// Canonical decimal digits of a natural number, most significant first.
pub open spec fn spec_nat_chars(n: nat) -> Seq<char>
    decreases n,
{
    if n < 10 {
        seq![digit_char(n)]
    } else {
        spec_nat_chars(n / 10) + seq![digit_char(n % 10)]
    }
}

/// Canonical decimal form of an integer: a minus sign on negatives,
/// never a leading zero, never `-0`.
pub open spec fn spec_int_chars(n: int) -> Seq<char> {
    if n < 0 {
        seq!['-'] + spec_nat_chars((-n) as nat)
    } else {
        spec_nat_chars(n as nat)
    }
}

/// Value of a digit sequence, most significant first.
pub open spec fn digits_val(ds: Seq<char>) -> nat
    decreases ds.len(),
{
    if ds.len() == 0 {
        0
    } else {
        digits_val(ds.drop_last()) * 10 + digit_val(ds.last())
    }
}

pub open spec fn all_digits(ds: Seq<char>) -> bool {
    forall|k: int| 0 <= k < ds.len() ==> is_digit(ds[k])
}

/// The digit sequences the canonical form produces: nonempty, digits only,
/// no leading zero unless the number is zero itself.
pub open spec fn canonical_digits(ds: Seq<char>) -> bool {
    &&& ds.len() > 0
    &&& all_digits(ds)
    &&& (ds[0] != '0' || ds.len() == 1)
}

pub proof fn lemma_digit_char_val(d: nat)
    requires
        d < 10,
    ensures
        is_digit(digit_char(d)),
        digit_val(digit_char(d)) == d,
        d != 0 ==> digit_char(d) != '0',
{
}

pub proof fn lemma_digit_val_char(c: char)
    requires
        is_digit(c),
    ensures
        digit_val(c) < 10,
        digit_char(digit_val(c)) == c,
{
}

/// The canonical digits of every natural number are canonical digits.
pub proof fn lemma_nat_chars_canonical(n: nat)
    ensures
        canonical_digits(spec_nat_chars(n)),
        n == 0 ==> spec_nat_chars(n) == seq!['0'],
        n > 0 ==> spec_nat_chars(n)[0] != '0',
    decreases n,
{
    if n < 10 {
        lemma_digit_char_val(n);
    } else {
        lemma_nat_chars_canonical(n / 10);
        lemma_digit_char_val(n % 10);
        assert(spec_nat_chars(n)[0] == spec_nat_chars(n / 10)[0]);
    }
}

/// Printing then evaluating is the identity.
pub proof fn lemma_val_of_nat_chars(n: nat)
    ensures
        digits_val(spec_nat_chars(n)) == n,
    decreases n,
{
    if n < 10 {
        lemma_digit_char_val(n);
        let x = spec_nat_chars(n);
        assert(x == seq![digit_char(n)]);
        assert(x.drop_last() =~= Seq::<char>::empty());
        assert(digits_val(x.drop_last()) == 0);
        assert(x.last() == digit_char(n));
        assert(digits_val(x) == digits_val(x.drop_last()) * 10 + digit_val(x.last()));
    } else {
        lemma_val_of_nat_chars(n / 10);
        lemma_digit_char_val(n % 10);
        let a = spec_nat_chars(n / 10);
        let c = digit_char(n % 10);
        let x = spec_nat_chars(n);
        assert(x == a + seq![c]);
        assert(x.len() == a.len() + 1);
        assert(x.drop_last() =~= a);
        assert(x.last() == c);
        assert(digits_val(x) == digits_val(a) * 10 + digit_val(c));
        assert(n / 10 * 10 + n % 10 == n) by (nonlinear_arith);
    }
}

/// A digit sequence that does not start with zero has a positive value.
pub proof fn lemma_digits_val_pos(ds: Seq<char>)
    requires
        all_digits(ds),
        ds.len() > 0,
        ds[0] != '0',
    ensures
        digits_val(ds) >= 1,
    decreases ds.len(),
{
    if ds.len() == 1 {
        assert(digit_val(ds[0]) >= 1);
        assert(ds.drop_last() =~= Seq::<char>::empty());
    } else {
        lemma_digits_val_pos(ds.drop_last());
    }
}

/// Evaluating then printing canonical digits is the identity.
pub proof fn lemma_nat_chars_of_digits_val(ds: Seq<char>)
    requires
        canonical_digits(ds),
    ensures
        spec_nat_chars(digits_val(ds)) == ds,
    decreases ds.len(),
{
    if ds.len() == 1 {
        lemma_digit_val_char(ds[0]);
        assert(ds.drop_last() =~= Seq::<char>::empty());
        assert(digits_val(ds.drop_last()) == 0);
        assert(ds.last() == ds[0]);
        assert(digits_val(ds) == digit_val(ds[0]));
        assert(spec_nat_chars(digits_val(ds)) == seq![digit_char(digit_val(ds[0]))]);
        assert(spec_nat_chars(digits_val(ds)) =~= ds);
    } else {
        let a = ds.drop_last();
        let c = ds.last();
        lemma_digit_val_char(c);
        lemma_nat_chars_of_digits_val(a);
        lemma_digits_val_pos(a);
        let v = digits_val(ds);
        assert(v == digits_val(a) * 10 + digit_val(c));
        assert(v >= 10);
        assert(v / 10 == digits_val(a) && v % 10 == digit_val(c)) by (nonlinear_arith)
            requires
                v == digits_val(a) * 10 + digit_val(c),
                digit_val(c) < 10,
        ;
        assert(spec_nat_chars(v) == a + seq![c]);
        assert(a + seq![c] =~= ds);
    }
}

/// Digit values grow with the digits: any prefix evaluates to no more.
pub proof fn lemma_digits_val_prefix_le(ds: Seq<char>, k: int)
    requires
        all_digits(ds),
        0 <= k <= ds.len(),
    ensures
        digits_val(ds.take(k)) <= digits_val(ds),
    decreases ds.len() - k,
{
    if k == ds.len() {
        assert(ds.take(k) =~= ds);
    } else {
        lemma_digits_val_prefix_le(ds, k + 1);
        assert(ds.take(k + 1).drop_last() =~= ds.take(k));
        assert(digits_val(ds.take(k + 1)) == digits_val(ds.take(k)) * 10 + digit_val(
            ds.take(k + 1).last(),
        ));
    }
}

/// An integer `n` stands at position `i` of `s` in canonical form, with no
/// digit following it: the shape the parser accepts.
pub open spec fn int_at(s: Seq<char>, i: int, n: int) -> bool {
    let cs = spec_int_chars(n);
    &&& 0 <= i
    &&& i + cs.len() <= s.len()
    &&& s.subrange(i, i + cs.len()) == cs
    &&& (i + cs.len() == s.len() || !is_digit(s[i + cs.len()]))
}

/// Where the digit run of an integer at `i` begins: past the sign if any.
pub open spec fn sign_skip(s: Seq<char>, i: int) -> int {
    if s[i] == '-' {
        i + 1
    } else {
        i
    }
}

/// Placement of the digits of a canonical integer at `i`: its magnitude's
/// digits fill `s` from `sign_skip` and no digit follows them.
proof fn lemma_digits_at(s: Seq<char>, i: int, n: i64)
    requires
        int_at(s, i, n as int),
    ensures
        ((n as int) < 0) == (s[i] == '-'),
        ({
            let start = sign_skip(s, i);
            let digits = spec_nat_chars(if n < 0 {
                (-(n as int)) as nat
            } else {
                n as nat
            });
            &&& canonical_digits(digits)
            &&& i < s.len()
            &&& start < s.len()
            &&& start + digits.len() <= s.len()
            &&& s.subrange(start, start + digits.len() as int) == digits
            &&& (start + digits.len() == s.len() || !is_digit(s[start + digits.len()]))
            &&& is_digit(s[start])
        }),
{
    let cs = spec_int_chars(n as int);
    let mag = if n < 0 {
        (-(n as int)) as nat
    } else {
        n as nat
    };
    lemma_nat_chars_canonical(mag);
    let digits = spec_nat_chars(mag);
    let dl = digits.len() as int;
    assert(cs[0] == s.subrange(i, i + cs.len())[0]);
    if n < 0 {
        assert(cs == seq!['-'] + digits);
        assert(cs[0] == '-');
        assert(s[i] == '-');
    } else {
        assert(cs == digits);
        assert(is_digit(cs[0]));
        assert(s[i] != '-');
    }
    let start = sign_skip(s, i);
    assert forall|k: int| 0 <= k < dl implies s[start + k] == digits[k] by {
        assert(s[start + k] == s.subrange(i, i + cs.len())[start - i + k]);
        if n < 0 {
            assert(cs[start - i + k] == digits[k]);
        }
    }
    assert(s.subrange(start, start + dl) =~= digits);
    assert(is_digit(digits[0]));
    assert(start + dl == i + cs.len());
}

/// If a canonical integer stands at `i` and `s[start..j]` is the maximal
/// digit run from `start`, the run is exactly the integer's digits.
proof fn lemma_run_is_digits(s: Seq<char>, i: int, j: int, n: i64)
    requires
        int_at(s, i, n as int),
        sign_skip(s, i) <= j <= s.len(),
        all_digits(s.subrange(sign_skip(s, i), j)),
        j == s.len() || !is_digit(s[j]),
    ensures
        s.subrange(sign_skip(s, i), j) == spec_nat_chars(
            if n < 0 {
                (-(n as int)) as nat
            } else {
                n as nat
            },
        ),
        j == i + spec_int_chars(n as int).len(),
{
    lemma_digits_at(s, i, n);
    let start = sign_skip(s, i);
    let mag = if n < 0 {
        (-(n as int)) as nat
    } else {
        n as nat
    };
    let digits = spec_nat_chars(mag);
    let dl = digits.len() as int;
    if j < start + dl {
        assert(is_digit(digits[j - start]));
        assert(s[j] == s.subrange(start, start + dl)[j - start]);
        assert(false);
    }
    if j > start + dl {
        assert(!is_digit(s[start + dl]));
        assert(s[start + dl] == s.subrange(start, j)[dl]);
        assert(is_digit(s.subrange(start, j)[dl]));
        assert(false);
    }
    assert(s.subrange(start, j) =~= digits);
}

/// If the parser's accumulator would outgrow `u64` while a digit remains,
/// no canonical `i64` stands at `i`.
proof fn lemma_overrun_no_int(s: Seq<char>, i: int, j: int)
    requires
        0 <= i < s.len(),
        sign_skip(s, i) <= j < s.len(),
        all_digits(s.subrange(sign_skip(s, i), j)),
        is_digit(s[j]),
        digits_val(s.subrange(sign_skip(s, i), j)) * 10 + digit_val(s[j]) > u64::MAX,
    ensures
        forall|n: i64| !int_at(s, i, n as int),
{
    let start = sign_skip(s, i);
    assert forall|n: i64| !int_at(s, i, n as int) by {
        if int_at(s, i, n as int) {
            lemma_digits_at(s, i, n);
            let mag = if n < 0 {
                (-(n as int)) as nat
            } else {
                n as nat
            };
            let digits = spec_nat_chars(mag);
            let dl = digits.len() as int;
            // the scanned run plus the pending digit lies inside the digits
            if j >= start + dl {
                assert(start + dl < s.len());
                if start + dl < j {
                    assert(is_digit(s.subrange(start, j)[dl]));
                    assert(s.subrange(start, j)[dl] == s[start + dl]);
                }
                assert(is_digit(s[start + dl]));
                assert(false);
            }
            let p = digits.take(j + 1 - start);
            assert forall|k: int| 0 <= k < j + 1 - start implies s[start + k] == digits[k] by {
                assert(digits[k] == s.subrange(start, start + dl)[k]);
            }
            assert(s.subrange(start, j + 1) =~= p);
            lemma_digits_val_prefix_le(digits, j + 1 - start);
            lemma_val_of_nat_chars(mag);
            assert(s.subrange(start, j + 1).drop_last() =~= s.subrange(start, j));
            assert(digits_val(p) == digits_val(s.subrange(start, j)) * 10 + digit_val(s[j]));
            assert(digits_val(p) <= mag);
            assert(mag <= 9223372036854775808);
        }
    }
}

/// Two integers whose canonical forms open the same character sequence,
/// each followed there by no digit, are the same integer with the same
/// remainder.
pub proof fn lemma_int_chars_extend_unique(n1: int, n2: int, r1: Seq<char>, r2: Seq<char>)
    requires
        spec_int_chars(n1) + r1 == spec_int_chars(n2) + r2,
        r1.len() == 0 || !is_digit(r1[0]),
        r2.len() == 0 || !is_digit(r2[0]),
    ensures
        n1 == n2,
        r1 == r2,
{
    let c1 = spec_int_chars(n1);
    let c2 = spec_int_chars(n2);
    lemma_nat_chars_canonical(if n1 < 0 { (-n1) as nat } else { n1 as nat });
    lemma_nat_chars_canonical(if n2 < 0 { (-n2) as nat } else { n2 as nat });
    let s = c1 + r1;
    assert(c1[0] == s[0]);
    assert(c2[0] == (c2 + r2)[0]);
    assert((n1 < 0) == (c1[0] == '-'));
    assert((n2 < 0) == (c2[0] == '-'));
    if c1.len() < c2.len() {
        let k = c1.len() as int;
        assert(r1.len() > 0);
        assert(r1[0] == s[k]);
        assert(c2[k] == (c2 + r2)[k]);
        if n2 < 0 {
            assert(c2 == seq!['-'] + spec_nat_chars((-n2) as nat));
            assert(c2[k] == spec_nat_chars((-n2) as nat)[k - 1]);
        }
        assert(is_digit(c2[k]));
        assert(false);
    }
    if c2.len() < c1.len() {
        let k = c2.len() as int;
        assert(r2.len() > 0);
        assert(r2[0] == (c2 + r2)[k]);
        assert(c1[k] == s[k]);
        if n1 < 0 {
            assert(c1 == seq!['-'] + spec_nat_chars((-n1) as nat));
            assert(c1[k] == spec_nat_chars((-n1) as nat)[k - 1]);
        }
        assert(is_digit(c1[k]));
        assert(false);
    }
    assert forall|k: int| 0 <= k < c1.len() implies c1[k] == c2[k] by {
        assert(c1[k] == s[k]);
        assert(c2[k] == (c2 + r2)[k]);
    }
    assert(c1 =~= c2);
    if n1 < 0 && n2 < 0 {
        let d1 = spec_nat_chars((-n1) as nat);
        let d2 = spec_nat_chars((-n2) as nat);
        assert(c1 == seq!['-'] + d1 && c2 == seq!['-'] + d2);
        assert forall|k: int| 0 <= k < d1.len() implies d1[k] == d2[k] by {
            assert(d1[k] == c1[k + 1] && d2[k] == c2[k + 1]);
        }
        assert(d1 =~= d2);
        lemma_val_of_nat_chars((-n1) as nat);
        lemma_val_of_nat_chars((-n2) as nat);
    } else if n1 >= 0 && n2 >= 0 {
        lemma_val_of_nat_chars(n1 as nat);
        lemma_val_of_nat_chars(n2 as nat);
    }
    assert(n1 == n2);
    assert((c1 + r1).len() == (c2 + r2).len());
    assert(r1.len() == r2.len());
    assert forall|k: int| 0 <= k < r1.len() implies r1[k] == r2[k] by {
        let m = c1.len() as int + k;
        assert(s[m] == r1[k]);
        assert((c2 + r2)[m] == r2[m - c2.len() as int]);
        assert(m - c2.len() as int == k);
    }
    assert(r1 =~= r2);
}

/// At one position only one canonical integer can stand.
pub proof fn lemma_int_at_unique(s: Seq<char>, i: int, n1: int, n2: int)
    requires
        int_at(s, i, n1),
        int_at(s, i, n2),
    ensures
        n1 == n2,
{
    let c1 = spec_int_chars(n1);
    let c2 = spec_int_chars(n2);
    let r1 = s.subrange(i + c1.len(), s.len() as int);
    let r2 = s.subrange(i + c2.len(), s.len() as int);
    assert(c1 + r1 =~= s.subrange(i, s.len() as int));
    assert(c2 + r2 =~= s.subrange(i, s.len() as int));
    lemma_int_chars_extend_unique(n1, n2, r1, r2);
}

/// The digit character for a value below ten, as a borrowed string.
pub fn digit_str(d: u64) -> (r: &'static str)
    requires
        d < 10,
    ensures
        r@ == seq![digit_char(d as nat)],
{
    proof {
        reveal_strlit("0");
        reveal_strlit("1");
        reveal_strlit("2");
        reveal_strlit("3");
        reveal_strlit("4");
        reveal_strlit("5");
        reveal_strlit("6");
        reveal_strlit("7");
        reveal_strlit("8");
        reveal_strlit("9");
    }
    let r = if d == 0 {
        "0"
    } else if d == 1 {
        "1"
    } else if d == 2 {
        "2"
    } else if d == 3 {
        "3"
    } else if d == 4 {
        "4"
    } else if d == 5 {
        "5"
    } else if d == 6 {
        "6"
    } else if d == 7 {
        "7"
    } else if d == 8 {
        "8"
    } else {
        "9"
    };
    proof {
        assert(r@ =~= seq![digit_char(d as nat)]);
    }
    r
}

/// Appends the canonical decimal digits of `n`.
pub fn append_u64(s: &mut String, n: u64)
    ensures
        final(s)@ == old(s)@ + spec_nat_chars(n as nat),
    decreases n,
{
    if n < 10 {
        s.append(digit_str(n));
    } else {
        append_u64(s, n / 10);
        s.append(digit_str(n % 10));
        proof {
            assert(s@ =~= old(s)@ + spec_nat_chars(n as nat));
        }
    }
}

/// Appends the canonical decimal form of `n`, sign included.
pub fn append_i64(s: &mut String, n: i64)
    ensures
        final(s)@ == old(s)@ + spec_int_chars(n as int),
{
    if n >= 0 {
        append_u64(s, n as u64);
    } else {
        proof {
            reveal_strlit("-");
        }
        s.append("-");
        let mag: u64 = ((-(n + 1)) as u64) + 1;
        assert(mag as int == -(n as int));
        append_u64(s, mag);
        proof {
            assert("-"@ =~= seq!['-']);
            assert(s@ =~= old(s)@ + spec_int_chars(n as int));
        }
    }
}

/// Digit test on a character value.
pub fn is_digit_exec(c: char) -> (r: bool)
    ensures
        r == is_digit(c),
{
    '0' <= c && c <= '9'
}

/// Parses the canonical decimal form of an `i64` at position `i`: returns
/// the value and the position one past its characters exactly when one
/// stands there, and `None` exactly when none does.
pub fn parse_i64(s: &Vec<char>, i: usize) -> (r: Option<(i64, usize)>)
    requires
        i <= s@.len(),
    ensures
        match r {
            Some((n, j)) => int_at(s@, i as int, n as int) && j == i + spec_int_chars(
                n as int,
            ).len(),
            None => forall|n: i64| !int_at(s@, i as int, n as int),
        },
{
    let len = s.len();
    let ghost gs = s@;
    let mut start = i;
    let neg = i < len && s[i] == '-';
    if neg {
        start = i + 1;
    }
    if start >= len || !is_digit_exec(s[start]) {
        proof {
            assert forall|n: i64| !int_at(gs, i as int, n as int) by {
                if int_at(gs, i as int, n as int) {
                    lemma_digits_at(gs, i as int, n);
                    assert(start == sign_skip(gs, i as int));
                }
            }
        }
        return None;
    }
    proof {
        assert(neg ==> start == i + 1 && gs[i as int] == '-');
        assert(!neg ==> start == i && gs[i as int] != '-');
        assert(start == sign_skip(gs, i as int));
    }
    // scan the maximal digit run from `start`
    let mut j = start;
    let mut acc: u64 = 0;
    loop
        invariant
            i <= start <= j <= len,
            len == gs.len(),
            gs == s@,
            i < len,
            start == sign_skip(gs, i as int),
            start < len,
            is_digit(gs[start as int]),
            all_digits(gs.subrange(start as int, j as int)),
            acc as nat == digits_val(gs.subrange(start as int, j as int)),
        ensures
            i <= start <= j <= len,
            all_digits(gs.subrange(start as int, j as int)),
            acc as nat == digits_val(gs.subrange(start as int, j as int)),
            j == len || !is_digit(gs[j as int]),
        decreases len - j,
    {
        if j == len {
            break;
        }
        let c = s[j];
        if !is_digit_exec(c) {
            break;
        }
        let d: u64 = (c as u64) - ('0' as u64);
        proof {
            assert(d as nat == digit_val(c));
        }
        let step: Option<u64> = match acc.checked_mul(10) {
            Some(x) => x.checked_add(d),
            None => None,
        };
        match step {
            Some(v) => {
                proof {
                    assert(gs.subrange(start as int, j + 1).drop_last() =~= gs.subrange(
                        start as int,
                        j as int,
                    ));
                    assert(gs.subrange(start as int, j + 1).last() == c);
                    assert forall|k: int| 0 <= k < j + 1 - start implies is_digit(
                        #[trigger] gs.subrange(start as int, j + 1)[k],
                    ) by {
                        if k < j - start {
                            assert(gs.subrange(start as int, j + 1)[k] == gs.subrange(
                                start as int,
                                j as int,
                            )[k]);
                        }
                    }
                }
                acc = v;
                j += 1;
            },
            None => {
                // the run's value has outgrown u64: no i64 stands here
                proof {
                    lemma_overrun_no_int(gs, i as int, j as int);
                }
                return None;
            },
        }
    }
    let ghost run = gs.subrange(start as int, j as int);
    proof {
        assert(j != start);
        assert(run.len() > 0);
    }
    // canonical form never has a leading zero on a multi-digit run
    if j > start + 1 && s[start] == '0' {
        proof {
            assert forall|n: i64| !int_at(gs, i as int, n as int) by {
                if int_at(gs, i as int, n as int) {
                    lemma_run_is_digits(gs, i as int, j as int, n);
                    lemma_nat_chars_canonical(
                        if n < 0 {
                            (-(n as int)) as nat
                        } else {
                            n as nat
                        },
                    );
                }
            }
        }
        return None;
    }
    proof {
        assert(canonical_digits(run));
        lemma_nat_chars_of_digits_val(run);
    }
    if neg {
        if acc == 0 {
            // "-0" is not canonical for any integer
            proof {
                assert forall|n: i64| !int_at(gs, i as int, n as int) by {
                    if int_at(gs, i as int, n as int) {
                        lemma_digits_at(gs, i as int, n);
                        assert(n < 0);
                        lemma_run_is_digits(gs, i as int, j as int, n);
                        lemma_val_of_nat_chars((-(n as int)) as nat);
                    }
                }
            }
            return None;
        }
        if acc > 9223372036854775808u64 {
            proof {
                assert forall|n: i64| !int_at(gs, i as int, n as int) by {
                    if int_at(gs, i as int, n as int) {
                        lemma_digits_at(gs, i as int, n);
                        assert(n < 0);
                        lemma_run_is_digits(gs, i as int, j as int, n);
                        lemma_val_of_nat_chars((-(n as int)) as nat);
                    }
                }
            }
            return None;
        }
        let n: i64 = if acc == 9223372036854775808u64 {
            i64::MIN
        } else {
            -(acc as i64)
        };
        proof {
            assert((-(n as int)) as nat == acc as nat);
            assert(spec_nat_chars((-(n as int)) as nat) == run);
            assert(spec_int_chars(n as int) =~= seq!['-'] + run);
            assert(gs.subrange(i as int, j as int) =~= seq!['-'] + run);
            assert(int_at(gs, i as int, n as int));
        }
        Some((n, j))
    } else {
        if acc > 9223372036854775807u64 {
            proof {
                assert forall|n: i64| !int_at(gs, i as int, n as int) by {
                    if int_at(gs, i as int, n as int) {
                        lemma_digits_at(gs, i as int, n);
                        assert(n >= 0);
                        lemma_run_is_digits(gs, i as int, j as int, n);
                        lemma_val_of_nat_chars(n as nat);
                    }
                }
            }
            return None;
        }
        let n: i64 = acc as i64;
        proof {
            assert(spec_int_chars(n as int) == run);
            assert(gs.subrange(i as int, j as int) =~= run);
            assert(int_at(gs, i as int, n as int));
        }
        Some((n, j))
    }
}

} // verus!
