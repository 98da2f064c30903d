//! Decimal text for `ExactDecimal`: `"{trunc}.{fract}"`, both parts written
//! as plain decimal integers.
use crate::decimal::ExactDecimal;
use vstd::prelude::*;
use vstd::string::{StrSliceExecFns, StringExecFns};

verus! {

/// The character of a decimal digit.
pub open spec fn digit_char(d: int) -> char {
    if d == 0 {
        '0'
    } else if d == 1 {
        '1'
    } else if d == 2 {
        '2'
    } else if d == 3 {
        '3'
    } else if d == 4 {
        '4'
    } else if d == 5 {
        '5'
    } else if d == 6 {
        '6'
    } else if d == 7 {
        '7'
    } else if d == 8 {
        '8'
    } else {
        '9'
    }
}

/// The decimal digits of `n`, most significant first, without leading zeros.
pub open spec fn decimal_digits(n: nat) -> Seq<char>
    decreases n,
{
    if n < 10 {
        seq![digit_char(n as int)]
    } else {
        decimal_digits(n / 10).push(digit_char((n % 10) as int))
    }
}

/// The text of a decimal: an optional minus sign, the digits of `trunc`, a
/// point, and the digits of `fract` with no padding.
pub open spec fn render(d: ExactDecimal) -> Seq<char> {
    let whole = if d.trunc < 0 {
        seq!['-'] + decimal_digits((-d.trunc) as nat)
    } else {
        decimal_digits(d.trunc as nat)
    };
    whole + seq!['.'] + decimal_digits(d.fract as nat)
}

fn digit_str(d: u64) -> (r: &'static str)
    requires
        d < 10,
    ensures
        r@ == seq![digit_char(d as int)],
{
    if d == 0 {
        proof { reveal_strlit("0"); }
        "0"
    } else if d == 1 {
        proof { reveal_strlit("1"); }
        "1"
    } else if d == 2 {
        proof { reveal_strlit("2"); }
        "2"
    } else if d == 3 {
        proof { reveal_strlit("3"); }
        "3"
    } else if d == 4 {
        proof { reveal_strlit("4"); }
        "4"
    } else if d == 5 {
        proof { reveal_strlit("5"); }
        "5"
    } else if d == 6 {
        proof { reveal_strlit("6"); }
        "6"
    } else if d == 7 {
        proof { reveal_strlit("7"); }
        "7"
    } else if d == 8 {
        proof { reveal_strlit("8"); }
        "8"
    } else {
        proof { reveal_strlit("9"); }
        "9"
    }
}

fn push_digits(s: &mut String, n: u64)
    ensures
        final(s)@ == old(s)@ + decimal_digits(n as nat),
    decreases n,
{
    if n >= 10 {
        push_digits(s, n / 10);
    }
    s.append(digit_str(n % 10));
    proof {
        assert(decimal_digits(n as nat) =~= if n < 10 {
            seq![digit_char(n as int)]
        } else {
            decimal_digits((n / 10) as nat).push(digit_char((n % 10) as int))
        });
    }
}

impl ExactDecimal {
    /// The text `"{trunc}.{fract}"`; `fract` is written without leading
    /// zeros, so callers that want its nineteen places pad it themselves
    /// with the help of `frac_digits`.
    pub fn to_string(&self) -> (r: String)
        ensures
            r@ == render(*self),
    {
        let mut s = String::new();
        if self.trunc < 0 {
            proof { reveal_strlit("-"); }
            s.append("-");
            push_digits(&mut s, (-(self.trunc as i128)) as u64);
        } else {
            push_digits(&mut s, self.trunc as u64);
        }
        proof { reveal_strlit("."); }
        s.append(".");
        push_digits(&mut s, self.fract);
        proof {
            assert(s@ =~= render(*self));
        }
        s
    }

    /// The number of decimal digits in `fract` as `to_string` writes it.
    pub fn frac_digits(&self) -> (r: usize)
        ensures
            r == decimal_digits(self.fract as nat).len(),
    {
        let mut s = String::new();
        push_digits(&mut s, self.fract);
        s.as_str().unicode_len()
    }
}

pub open spec fn is_digit(c: char) -> bool {
    '0' <= c && c <= '9'
}

pub open spec fn digit_value(c: char) -> int {
    c as int - '0' as int
}

pub open spec fn all_digits(s: Seq<char>) -> bool {
    forall|i: int| 0 <= i < s.len() ==> is_digit(#[trigger] s[i])
}

/// The integer that a string of decimal digits denotes.
pub open spec fn digits_value(s: Seq<char>) -> int
    decreases s.len(),
{
    if s.len() == 0 {
        0
    } else {
        digits_value(s.drop_last()) * 10 + digit_value(s.last())
    }
}

/// Where the whole digits of a text start: after a leading minus sign, if any.
pub open spec fn whole_start(s: Seq<char>) -> int {
    if s.len() > 0 && s[0] == '-' {
        1
    } else {
        0
    }
}

/// `s` is an optional minus sign, a non-empty run of digits, a point at `p`,
/// and a non-empty run of digits.
pub open spec fn point_at(s: Seq<char>, p: int) -> bool {
    &&& whole_start(s) < p < s.len() - 1
    &&& s[p] == '.'
    &&& all_digits(s.subrange(whole_start(s), p))
    &&& all_digits(s.subrange(p + 1, s.len() as int))
}

/// `s` is the text `"{trunc}.{fract}"` of `d`, both parts read as decimal
/// integers (leading zeros allowed).
pub open spec fn denotes(s: Seq<char>, d: ExactDecimal) -> bool {
    exists|p: int|
        point_at(s, p) && d.trunc == (if whole_start(s) == 1 {
            -digits_value(s.subrange(1, p))
        } else {
            digits_value(s.subrange(0, p))
        }) && d.fract == digits_value(#[trigger] s.subrange(p + 1, s.len() as int))
}

/// The decimal that `s` denotes, if `s` denotes a well-formed one.
pub open spec fn parse_spec(s: Seq<char>) -> Option<ExactDecimal> {
    if exists|d: ExactDecimal| d.wf() && denotes(s, d) {
        Some(choose|d: ExactDecimal| d.wf() && denotes(s, d))
    } else {
        None
    }
}

/// A text has at most one point between its digit runs.
proof fn lemma_point_unique(s: Seq<char>, p: int, q: int)
    requires
        point_at(s, p),
        point_at(s, q),
    ensures
        p == q,
{
    if p < q {
        assert(s.subrange(whole_start(s), q)[p - whole_start(s)] == s[p]);
    } else if q < p {
        assert(s.subrange(whole_start(s), p)[q - whole_start(s)] == s[q]);
    }
}

/// A text denotes at most one decimal.
proof fn lemma_denotes_unique(s: Seq<char>, a: ExactDecimal, b: ExactDecimal)
    requires
        denotes(s, a),
        denotes(s, b),
    ensures
        a == b,
{
    let p = choose|p: int|
        point_at(s, p) && a.trunc == (if whole_start(s) == 1 {
            -digits_value(s.subrange(1, p))
        } else {
            digits_value(s.subrange(0, p))
        }) && a.fract == digits_value(#[trigger] s.subrange(p + 1, s.len() as int));
    let q = choose|q: int|
        point_at(s, q) && b.trunc == (if whole_start(s) == 1 {
            -digits_value(s.subrange(1, q))
        } else {
            digits_value(s.subrange(0, q))
        }) && b.fract == digits_value(#[trigger] s.subrange(q + 1, s.len() as int));
    lemma_point_unique(s, p, q);
}

/// The digits of `n` are digits, at least one, and denote `n`.
proof fn lemma_digits_of(n: nat)
    ensures
        all_digits(decimal_digits(n)),
        decimal_digits(n).len() >= 1,
        digits_value(decimal_digits(n)) == n,
    decreases n,
{
    let last = (n % 10) as int;
    assert(digit_value(digit_char(last)) == last && is_digit(digit_char(last)));
    let s = decimal_digits(n);
    if n >= 10 {
        lemma_digits_of(n / 10);
        assert(s.drop_last() =~= decimal_digits(n / 10));
    } else {
        assert(s.drop_last() =~= Seq::<char>::empty());
    }
    assert(s.last() == digit_char(last));
    assert(digits_value(s) == digits_value(s.drop_last()) * 10 + digit_value(s.last()));
    assert(n == (n / 10) * 10 + n % 10);
}

/// Text written by `to_string` reads back as the decimal it was written from.
pub proof fn lemma_text_round_trip(d: ExactDecimal)
    requires
        d.wf(),
    ensures
        parse_spec(render(d)) == Some(d),
{
    let s = render(d);
    let neg = d.trunc < 0;
    let w = if neg {
        decimal_digits((-d.trunc) as nat)
    } else {
        decimal_digits(d.trunc as nat)
    };
    let f = decimal_digits(d.fract as nat);
    lemma_digits_of(if neg { (-d.trunc) as nat } else { d.trunc as nat });
    lemma_digits_of(d.fract as nat);
    let start: int = if neg { 1 } else { 0 };
    let p = start + w.len();
    if neg {
        assert(s =~= seq!['-'] + w + seq!['.'] + f);
    } else {
        assert(s =~= w + seq!['.'] + f);
        assert(is_digit(s[0]));
    }
    assert(whole_start(s) == start);
    assert(s.subrange(start, p) =~= w);
    assert(s.subrange(p + 1, s.len() as int) =~= f);
    assert(point_at(s, p));
    assert(denotes(s, d));
    let c = choose|c: ExactDecimal| c.wf() && denotes(s, c);
    lemma_denotes_unique(s, c, d);
}

/// A prefix of a run of digits denotes no more than the whole run.
proof fn lemma_digits_prefix(t: Seq<char>, k: int)
    requires
        all_digits(t),
        0 <= k <= t.len(),
    ensures
        0 <= digits_value(t.subrange(0, k)) <= digits_value(t),
    decreases t.len(),
{
    if k == t.len() {
        assert(t.subrange(0, k) =~= t);
        if t.len() > 0 {
            lemma_digits_prefix(t.drop_last(), 0);
            assert(t.drop_last().subrange(0, 0) =~= t.subrange(0, 0));
        } else {
            assert(digits_value(t) == 0);
        }
    } else {
        let u = t.drop_last();
        lemma_digits_prefix(u, k);
        assert(u.subrange(0, k) =~= t.subrange(0, k));
        assert(is_digit(t[t.len() - 1]));
    }
}

/// The point of a text comes after any run of digits that starts where the
/// whole digits start.
proof fn lemma_point_after(s: Seq<char>, p: int, j: int)
    requires
        point_at(s, p),
        whole_start(s) <= j <= s.len(),
        all_digits(s.subrange(whole_start(s), j)),
    ensures
        p >= j,
{
    if p < j {
        assert(s.subrange(whole_start(s), j)[p - whole_start(s)] == s[p]);
    }
}

/// The point of a text comes no later than the first non-digit after the sign.
proof fn lemma_point_before(s: Seq<char>, p: int, j: int)
    requires
        point_at(s, p),
        whole_start(s) <= j < s.len(),
        !is_digit(s[j]),
    ensures
        p <= j,
{
    if p > j {
        assert(s.subrange(whole_start(s), p)[j - whole_start(s)] == s[j]);
    }
}

fn digit_of(c: char) -> (r: Option<u128>)
    ensures
        r == (if is_digit(c) {
            Some(digit_value(c) as u128)
        } else {
            None::<u128>
        }),
{
    if '0' <= c && c <= '9' {
        Some((c as u32 - '0' as u32) as u128)
    } else {
        None
    }
}

/// Values that a run of digits may reach before it certainly denotes too much.
const DIGITS_LIMIT: u128 = 0x1_0000_0000_0000_0000;

impl ExactDecimal {
    /// Reads the text `"{trunc}.{fract}"` that `to_string` writes: an optional
    /// minus sign, the digits of `trunc`, a point and the digits of `fract`.
    /// Returns `None` when `s` has another shape, when `trunc` does not fit in
    /// an `i64`, or when `fract` is not below `10^19`.
    pub fn parse(s: &str) -> (r: Option<ExactDecimal>)
        ensures
            r == parse_spec(s@),
    {
        let n = s.unicode_len();
        let neg = n > 0 && s.get_char(0) == '-';
        let start: usize = if neg { 1 } else { 0 };
        proof {
            assert(whole_start(s@) == start);
        }
        let mut i: usize = start;
        let mut whole: u128 = 0;
        while i < n && digit_of(s.get_char(i)).is_some()
            invariant
                n == s@.len(),
                whole_start(s@) == start,
                start <= i <= n,
                all_digits(s@.subrange(start as int, i as int)),
                whole == digits_value(s@.subrange(start as int, i as int)),
                whole <= DIGITS_LIMIT,
            decreases n - i,
        {
            let d = digit_of(s.get_char(i)).unwrap();
            proof {
                let t = s@.subrange(start as int, i + 1);
                assert(t.drop_last() =~= s@.subrange(start as int, i as int));
            }
            whole = whole * 10 + d;
            i = i + 1;
            if whole > DIGITS_LIMIT {
                proof {
                    assert forall|x: ExactDecimal| x.wf() implies !denotes(s@, x) by {
                        if denotes(s@, x) {
                            let p = choose|p: int| point_at(s@, p) && x.trunc == (if whole_start(s@) == 1 {
                                -digits_value(s@.subrange(1, p))
                            } else {
                                digits_value(s@.subrange(0, p))
                            }) && x.fract == digits_value(#[trigger] s@.subrange(p + 1, s@.len() as int));
                            lemma_point_after(s@, p, i as int);
                            let t = s@.subrange(start as int, p);
                            lemma_digits_prefix(t, i - start);
                            assert(t.subrange(0, i - start) =~= s@.subrange(start as int, i as int));
                        }
                    }
                }
                return None;
            }
        }
        if i == start || i >= n || s.get_char(i) != '.' {
            proof {
                assert forall|x: ExactDecimal| x.wf() implies !denotes(s@, x) by {
                    if denotes(s@, x) {
                        let p = choose|p: int| point_at(s@, p) && x.trunc == (if whole_start(s@) == 1 {
                            -digits_value(s@.subrange(1, p))
                        } else {
                            digits_value(s@.subrange(0, p))
                        }) && x.fract == digits_value(#[trigger] s@.subrange(p + 1, s@.len() as int));
                        lemma_point_after(s@, p, i as int);
                        if i < n {
                            lemma_point_before(s@, p, i as int);
                        }
                    }
                }
            }
            return None;
        }
        let point = i;
        i = i + 1;
        let mut frac: u128 = 0;
        while i < n && digit_of(s.get_char(i)).is_some()
            invariant
                n == s@.len(),
                whole_start(s@) == start,
                neg == (start == 1),
                start < point < n,
                s@[point as int] == '.',
                all_digits(s@.subrange(start as int, point as int)),
                whole == digits_value(s@.subrange(start as int, point as int)),
                whole <= DIGITS_LIMIT,
                point < i <= n,
                all_digits(s@.subrange(point + 1, i as int)),
                frac == digits_value(s@.subrange(point + 1, i as int)),
                frac <= DIGITS_LIMIT,
            decreases n - i,
        {
            let d = digit_of(s.get_char(i)).unwrap();
            proof {
                let t = s@.subrange(point + 1, i + 1);
                assert(t.drop_last() =~= s@.subrange(point + 1, i as int));
            }
            frac = frac * 10 + d;
            i = i + 1;
            if frac > DIGITS_LIMIT {
                proof {
                    assert forall|x: ExactDecimal| x.wf() implies !denotes(s@, x) by {
                        if denotes(s@, x) {
                            let p = choose|p: int| point_at(s@, p) && x.trunc == (if whole_start(s@) == 1 {
                                -digits_value(s@.subrange(1, p))
                            } else {
                                digits_value(s@.subrange(0, p))
                            }) && x.fract == digits_value(#[trigger] s@.subrange(p + 1, s@.len() as int));
                            lemma_point_after(s@, p, point as int);
                            lemma_point_before(s@, p, point as int);
                            let t = s@.subrange(point + 1, n as int);
                            lemma_digits_prefix(t, i - point - 1);
                            assert(t.subrange(0, i - point - 1) =~= s@.subrange(point + 1, i as int));
                        }
                    }
                }
                return None;
            }
        }
        let trunc: i128 = if neg { -(whole as i128) } else { whole as i128 };
        if i < n || i == point + 1 || trunc < i64::MIN as i128 || trunc > i64::MAX as i128 || frac
            >= crate::decimal::FRACT_BASE as u128 {
            proof {
                assert forall|x: ExactDecimal| x.wf() implies !denotes(s@, x) by {
                    if denotes(s@, x) {
                        let p = choose|p: int| point_at(s@, p) && x.trunc == (if whole_start(s@) == 1 {
                                -digits_value(s@.subrange(1, p))
                            } else {
                                digits_value(s@.subrange(0, p))
                            }) && x.fract == digits_value(#[trigger] s@.subrange(p + 1, s@.len() as int));
                        lemma_point_after(s@, p, point as int);
                        lemma_point_before(s@, p, point as int);
                        if i < n {
                            assert(s@.subrange(point + 1, n as int)[i - point - 1] == s@[i as int]);
                        }
                        assert(s@.subrange(point + 1, i as int) =~= s@.subrange(point + 1, n as int));
                    }
                }
            }
            return None;
        }
        let r = ExactDecimal { trunc: trunc as i64, fract: frac as u64 };
        proof {
            assert(s@.subrange(point + 1, i as int) =~= s@.subrange(point + 1, n as int));
            assert(point_at(s@, point as int));
            assert(r.wf() && denotes(s@, r));
            let c = choose|c: ExactDecimal| c.wf() && denotes(s@, c);
            lemma_denotes_unique(s@, c, r);
        }
        Some(r)
    }
}

} // verus!
