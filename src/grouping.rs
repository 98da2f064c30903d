//! Sorting and grouping of decimal values by the total order of `ExactDecimal`.
use crate::decimal::{base, ExactDecimal, FRACT_BASE};
use vstd::multiset::Multiset;
use vstd::prelude::*;
use vstd::seq_lib::{group_to_multiset_ensures, lemma_multiset_commutative};

verus! {

/// Non-decreasing under the order of `ExactDecimal`.
pub open spec fn sorted(s: Seq<ExactDecimal>) -> bool {
    forall|i: int, j: int| 0 <= i < j < s.len() ==> #[trigger] s[i].le_spec(#[trigger] s[j])
}

/// A sequence of well-formed decimals that is sorted by their order is
/// non-decreasing in value.
pub proof fn lemma_sorted_by_value(s: Seq<ExactDecimal>)
    requires
        sorted(s),
        forall|i: int| 0 <= i < s.len() ==> (#[trigger] s[i]).wf(),
    ensures
        forall|i: int, j: int| 0 <= i < j < s.len() ==> #[trigger] s[i].scaled() <= #[trigger] s[j].scaled(),
{
    assert forall|i: int, j: int| 0 <= i < j < s.len() implies #[trigger] s[i].scaled() <= #[trigger] s[j].scaled() by {
        assert(s[i].wf() && s[j].wf() && s[i].le_spec(s[j]));
        crate::decimal::lemma_order_matches_value(s[i], s[j]);
    }
}

/// How many times `x` occurs in `s`.
pub open spec fn occurrences(s: Seq<ExactDecimal>, x: ExactDecimal) -> nat {
    s.to_multiset().count(x)
}

/// Inserting one element adds it once to the multiset of a sequence.
proof fn lemma_insert_multiset(s: Seq<ExactDecimal>, i: int, x: ExactDecimal)
    requires
        0 <= i <= s.len(),
    ensures
        s.insert(i, x).to_multiset() =~= s.to_multiset().insert(x),
{
    broadcast use vstd::multiset::group_multiset_axioms;

    let (a, b) = (s.subrange(0, i), s.subrange(i, s.len() as int));
    assert(s.insert(i, x) =~= a + (seq![x] + b));
    assert(s =~= a + b);
    lemma_multiset_commutative(a, seq![x] + b);
    lemma_multiset_commutative(seq![x], b);
    lemma_multiset_commutative(a, b);
    assert(seq![x].to_multiset() =~= Multiset::empty().insert(x)) by {
        broadcast use group_to_multiset_ensures;

        assert(seq![x] =~= Seq::<ExactDecimal>::empty().push(x));
    }
}

/// The values of `input` in non-decreasing order, each as many times as it occurs.
pub fn sort_float(input: &[ExactDecimal]) -> (r: Vec<ExactDecimal>)
    ensures
        r@.to_multiset() == input@.to_multiset(),
        sorted(r@),
{
    let mut out: Vec<ExactDecimal> = Vec::with_capacity(input.len());
    let mut i: usize = 0;
    proof {
        broadcast use group_to_multiset_ensures;

        assert(input@.subrange(0, 0) =~= out@);
    }
    while i < input.len()
        invariant
            i <= input.len(),
            sorted(out@),
            out@.to_multiset() == input@.subrange(0, i as int).to_multiset(),
        decreases input.len() - i,
    {
        let x = input[i];
        let mut pos: usize = 0;
        while pos < out.len() && out[pos].less_or_equal(&x)
            invariant
                pos <= out.len(),
                forall|k: int| 0 <= k < pos ==> #[trigger] out@[k].le_spec(x),
            decreases out.len() - pos,
        {
            pos = pos + 1;
        }
        let ghost old_out = out@;
        proof {
            lemma_insert_multiset(out@, pos as int, x);
            broadcast use group_to_multiset_ensures;

            assert(input@.subrange(0, i + 1) =~= input@.subrange(0, i as int).push(x));
        }
        out.insert(pos, x);
        proof {
            assert forall|a: int, b: int| 0 <= a < b < out@.len() implies #[trigger] out@[a].le_spec(
                #[trigger] out@[b],
            ) by {
                if pos < old_out.len() {
                    assert(x.lt_spec(old_out[pos as int]));
                }
                if b > pos as int && a < pos as int {
                    assert(old_out[a].le_spec(old_out[b - 1]));
                } else if b > pos as int && a > pos as int {
                    assert(old_out[a - 1].le_spec(old_out[b - 1]));
                } else if b > pos as int && a == pos as int {
                    assert(old_out[pos as int].le_spec(old_out[b - 1]));
                }
            }
        }
        i = i + 1;
    }
    proof {
        assert(input@.subrange(0, input.len() as int) =~= input@);
    }
    out
}

/// The keys of a frequency or probability table.
pub open spec fn keys<T>(t: Seq<(ExactDecimal, T)>) -> Seq<ExactDecimal> {
    t.map_values(|e: (ExactDecimal, T)| e.0)
}

/// The keys rise strictly.
pub open spec fn strictly_ascending<T>(t: Seq<(ExactDecimal, T)>) -> bool {
    forall|i: int, j: int| 0 <= i < j < t.len() ==> #[trigger] t[i].0.lt_spec(#[trigger] t[j].0)
}

/// The sum of the counts of a frequency table.
pub open spec fn total(t: Seq<(ExactDecimal, usize)>) -> int
    decreases t.len(),
{
    if t.len() == 0 {
        0
    } else {
        total(t.drop_last()) + t.last().1
    }
}

/// A table of `input`: its keys rise strictly, each is a value of `input`
/// with the number of times it occurs there, and every value of `input` is a key.
pub open spec fn is_frequency_table(input: Seq<ExactDecimal>, t: Seq<(ExactDecimal, usize)>) -> bool {
    &&& strictly_ascending(t)
    &&& forall|i: int| 0 <= i < t.len() ==> #[trigger] t[i].1 == occurrences(input, t[i].0)
    &&& forall|i: int| 0 <= i < t.len() ==> input.contains(#[trigger] t[i].0)
    &&& forall|x: ExactDecimal| input.contains(x) ==> #[trigger] keys(t).contains(x)
}

/// Each distinct value of `input` with the number of times it occurs, in
/// ascending order of value.
pub fn frequency_distribution(input: &[ExactDecimal]) -> (r: Vec<(ExactDecimal, usize)>)
    ensures
        is_frequency_table(input@, r@),
        total(r@) == input@.len(),
{
    broadcast use group_to_multiset_ensures;
    broadcast use vstd::seq_lib::group_seq_properties;
    broadcast use vstd::multiset::group_multiset_axioms;

    let s = sort_float(input);
    let mut out: Vec<(ExactDecimal, usize)> = Vec::new();
    let mut i: usize = 0;
    proof {
        assert(s@.subrange(0, 0) =~= Seq::<ExactDecimal>::empty());
    }
    while i < s.len()
        invariant
            i <= s.len(),
            sorted(s@),
            is_frequency_table(s@.subrange(0, i as int), out@),
            total(out@) == i,
            forall|k: int| 0 <= k < out.len() ==> #[trigger] out@[k].1 <= i,
            i > 0 ==> out.len() > 0 && out@.last().0 == s@[i - 1],
            i == 0 ==> out.len() == 0,
        decreases s.len() - i,
    {
        let ghost p = s@.subrange(0, i as int);
        let ghost old_out = out@;
        let x = s[i];
        proof {
            assert(s@.subrange(0, i + 1) =~= p.push(x));
            assert forall|y: ExactDecimal| #[trigger] occurrences(p.push(x), y) == occurrences(p, y) + (
            if y == x {
                1int
            } else {
                0int
            }) by {
                p.to_multiset_ensures();
            }
        }
        let n = out.len();
        if n > 0 && out[n - 1].0 == x {
            let c = out[n - 1].1;
            out.set(n - 1, (x, c + 1));
            proof {
                assert(out@.drop_last() =~= old_out.drop_last());
                assert(keys(out@) =~= keys(old_out));
            }
        } else {
            proof {
                if i > 0 {
                    assert(s@[i - 1].le_spec(x));
                    assert forall|k: int| 0 <= k < i implies p[k].lt_spec(x) && #[trigger] p[k] != x by {
                        assert(s@[k].le_spec(s@[i - 1]));
                    }
                }
                assert(!p.contains(x));
                assert(keys(out@.push((x, 1usize))) =~= keys(old_out).push(x));
                assert forall|y: ExactDecimal| keys(old_out).contains(y) implies keys(
                    old_out,
                ).push(x).contains(y) by {
                    let k = choose|k: int| 0 <= k < keys(old_out).len() && keys(old_out)[k] == y;
                    assert(keys(old_out).push(x)[k] == y);
                }
                assert(out@.push((x, 1usize)).drop_last() =~= old_out);
            }
            out.push((x, 1));
        }
        proof {
            let p2 = p.push(x);
            assert forall|k: int| 0 <= k < out.len() implies (#[trigger] out@[k]).1 == occurrences(
                p2,
                out@[k].0,
            ) && p2.contains(out@[k].0) by {
                if k < old_out.len() && out@[k] == old_out[k] {
                    assert(p.contains(old_out[k].0));
                    let j = choose|j: int| 0 <= j < p.len() && p[j] == old_out[k].0;
                    assert(p2[j] == p[j]);
                    if old_out[k].0 == x {
                        assert(k == old_out.len() - 1) by {
                            if k < old_out.len() - 1 {
                                assert(old_out[k].0.lt_spec(old_out[old_out.len() - 1].0));
                            }
                        }
                    }
                } else {
                    assert(p2[i as int] == x);
                    p.to_multiset_ensures();
                    if k == old_out.len() {
                        assert(occurrences(p, x) == 0);
                    } else {
                        assert(old_out[k].0 == x);
                    }
                }
            }
            assert forall|y: ExactDecimal| p2.contains(y) implies #[trigger] keys(out@).contains(y) by {
                assert(keys(out@)[out.len() - 1] == x);
                if y != x {
                    let j = choose|j: int| 0 <= j < p2.len() && p2[j] == y;
                    assert(p[j] == y);
                    assert(keys(old_out).contains(y));
                    let m = choose|m: int| 0 <= m < keys(old_out).len() && keys(old_out)[m] == y;
                    assert(out@[m].0 == old_out[m].0);
                    assert(keys(out@)[m] == y);
                }
            }
            assert(is_frequency_table(p2, out@));
            assert(s@.subrange(0, i + 1) == p2);
        }
        i = i + 1;
    }
    proof {
        assert(s@.subrange(0, s.len() as int) =~= s@);
        assert(s@.len() == s@.to_multiset().len());
        assert(input@.len() == input@.to_multiset().len());
        assert forall|y: ExactDecimal| input@.contains(y) implies s@.contains(y) by {
            assert(input@.to_multiset().count(y) > 0);
        }
        assert forall|k: int| 0 <= k < out.len() implies input@.contains(#[trigger] out@[k].0) by {
            assert(s@.to_multiset().count(out@[k].0) > 0);
        }
    }
    out
}

/// No entry of a frequency table exceeds the sum of its counts.
proof fn lemma_entry_within_total(t: Seq<(ExactDecimal, usize)>, k: int)
    requires
        0 <= k < t.len(),
    ensures
        t[k].1 <= total(t),
        total(t) >= 0,
    decreases t.len(),
{
    let d = t.drop_last();
    if d.len() > 0 {
        lemma_entry_within_total(d, if k < d.len() { k } else { 0 });
    } else {
        assert(total(d) == 0);
    }
    if k < d.len() {
        assert(d[k] == t[k]);
    }
}

/// The sum of the scaled probabilities of a probability table.
pub open spec fn probability_total(t: Seq<(ExactDecimal, ExactDecimal)>) -> int
    decreases t.len(),
{
    if t.len() == 0 {
        0
    } else {
        probability_total(t.drop_last()) + t.last().1.scaled()
    }
}

/// A table of `input` whose keys are those of its frequency table, each with
/// its count divided by the length of `input`, to nineteen fractional digits
/// rounded down.
pub open spec fn is_probability_table(
    input: Seq<ExactDecimal>,
    t: Seq<(ExactDecimal, ExactDecimal)>,
) -> bool {
    &&& strictly_ascending(t)
    &&& forall|i: int|
        0 <= i < t.len() ==> (#[trigger] t[i]).1.wf() && t[i].1.scaled() == occurrences(
            input,
            t[i].0,
        ) * base() / (input.len() as int)
    &&& forall|i: int| 0 <= i < t.len() ==> input.contains(#[trigger] t[i].0)
    &&& forall|x: ExactDecimal| input.contains(x) ==> #[trigger] keys(t).contains(x)
}

/// Each distinct value of `input` with the share of `input` that it makes up,
/// in ascending order of value. The shares are exact to nineteen fractional
/// digits, rounded down, so that for a non-empty `input` their sum lies
/// within `10^-19` times the number of keys below one, and never above one.
pub fn probability_distribution(input: &[ExactDecimal]) -> (r: Vec<(ExactDecimal, ExactDecimal)>)
    ensures
        is_probability_table(input@, r@),
        input@.len() > 0 ==> base() - r@.len() < probability_total(r@) <= base(),
{
    let freq = frequency_distribution(input);
    let n = input.len();
    let mut out: Vec<(ExactDecimal, ExactDecimal)> = Vec::new();
    let mut j: usize = 0;
    proof {
        assert(freq@.subrange(0, 0) =~= Seq::<(ExactDecimal, usize)>::empty());
    }
    while j < freq.len()
        invariant
            j <= freq.len(),
            n == input@.len(),
            is_frequency_table(input@, freq@),
            total(freq@) == n,
            out.len() == j,
            forall|k: int| 0 <= k < j ==> (#[trigger] out@[k]).0 == freq@[k].0,
            forall|k: int|
                0 <= k < j ==> (#[trigger] out@[k]).1.wf() && out@[k].1.scaled() == freq@[k].1
                    * base() / (n as int),
            n * probability_total(out@) <= total(freq@.subrange(0, j as int)) * base(),
            total(freq@.subrange(0, j as int)) * base() + j <= n * (probability_total(out@) + j),
        decreases freq.len() - j,
    {
        let (key, c) = freq[j];
        proof {
            lemma_entry_within_total(freq@, j as int);
        }
        let num: u128 = c as u128 * FRACT_BASE as u128;
        let q: u128 = num / n as u128;
        let ghost (pt, ct) = (probability_total(out@), total(freq@.subrange(0, j as int)));
        proof {
            vstd::arithmetic::div_mod::lemma_fundamental_div_mod(num as int, n as int);
            vstd::arithmetic::div_mod::lemma_mod_bound(num as int, n as int);
            assert(q <= base()) by (nonlinear_arith)
                requires num == n * q + (num as int) % (n as int), (num as int) % (n as int) >= 0, num == c * base(), c <= n, n > 0, q >= 0;
            assert(freq@.subrange(0, j + 1).drop_last() =~= freq@.subrange(0, j as int));
        }
        let p = ExactDecimal::from_scaled(q as i128);
        let ghost old_out = out@;
        out.push((key, p));
        proof {
            assert(out@.drop_last() =~= old_out);
            assert(n * (pt + q) <= (ct + c) * base() && (ct + c) * base() + j + 1 <= n * (pt + q + j + 1)) by (nonlinear_arith)
                requires
                    num == n * q + (num as int) % (n as int),
                    0 <= (num as int) % (n as int) < n,
                    num == c * base(),
                    n * pt <= ct * base(),
                    ct * base() + j <= n * (pt + j);
        }
        j = j + 1;
    }
    proof {
        assert(freq@.subrange(0, freq.len() as int) =~= freq@);
        assert(keys(out@) =~= keys(freq@));
        let pt = probability_total(out@);
        let k = out@.len() as int;
        if n > 0 {
            if pt > base() {
                vstd::arithmetic::mul::lemma_mul_strict_inequality(base(), pt, n as int);
                assert(n * pt == pt * n && n * base() == base() * n) by (nonlinear_arith);
            }
            if pt + k <= base() {
                vstd::arithmetic::mul::lemma_mul_inequality(pt + k, base(), n as int);
                assert(n * (pt + k) == (pt + k) * n && n * base() == base() * n) by (nonlinear_arith);
            }
        }
    }
    out
}

/// The values rise strictly.
pub open spec fn ascending(s: Seq<ExactDecimal>) -> bool {
    forall|i: int, j: int| 0 <= i < j < s.len() ==> #[trigger] s[i].lt_spec(#[trigger] s[j])
}

/// The most frequent values of a non-empty `input`: the highest number of
/// times any value occurs, and every value that occurs that often, in
/// ascending order. Several values are returned when they tie.
pub fn mode(input: &[ExactDecimal]) -> (r: (usize, Vec<ExactDecimal>))
    requires
        input.len() > 0,
    ensures
        forall|x: ExactDecimal| occurrences(input@, x) <= r.0,
        r.1.len() > 0,
        ascending(r.1@),
        forall|i: int| 0 <= i < r.1.len() ==> occurrences(input@, #[trigger] r.1@[i]) == r.0,
        forall|x: ExactDecimal| occurrences(input@, x) == r.0 ==> #[trigger] r.1@.contains(x),
{
    broadcast use group_to_multiset_ensures;

    let freq = frequency_distribution(input);
    proof {
        assert(input@.contains(input@[0]));
        assert(keys(freq@).contains(input@[0]));
    }
    let mut best: usize = freq[0].1;
    let ghost mut at: int = 0;
    let mut j: usize = 1;
    while j < freq.len()
        invariant
            1 <= j <= freq.len(),
            forall|k: int| 0 <= k < j ==> (#[trigger] freq@[k]).1 <= best,
            0 <= at < j && freq@[at].1 == best,
        decreases freq.len() - j,
    {
        if freq[j].1 > best {
            best = freq[j].1;
            proof {
                at = j as int;
            }
        }
        j = j + 1;
    }
    let mut tied: Vec<ExactDecimal> = Vec::new();
    let mut j: usize = 0;
    while j < freq.len()
        invariant
            j <= freq.len(),
            is_frequency_table(input@, freq@),
            forall|k: int| 0 <= k < freq.len() ==> (#[trigger] freq@[k]).1 <= best,
            exists|k: int| 0 <= k < freq.len() && (#[trigger] freq@[k]).1 == best,
            ascending(tied@),
            forall|i: int| 0 <= i < tied.len() ==> occurrences(input@, #[trigger] tied@[i]) == best,
            forall|i: int| 0 <= i < tied.len() ==> exists|k: int| 0 <= k < j && (#[trigger] freq@[k]).0 == #[trigger] tied@[i],
            forall|k: int| 0 <= k < j && (#[trigger] freq@[k]).1 == best ==> tied@.contains(freq@[k].0),
            tied.len() > 0 ==> exists|k: int| 0 <= k < j && (#[trigger] freq@[k]).0 == tied@.last(),
        decreases freq.len() - j,
    {
        let (key, c) = freq[j];
        if c == best {
            let ghost old_tied = tied@;
            proof {
                if tied.len() > 0 {
                    let k = choose|k: int| 0 <= k < j && (#[trigger] freq@[k]).0 == tied@.last();
                    assert(freq@[k].0.lt_spec(key));
                }
            }
            tied.push(key);
            proof {
                assert forall|i: int| 0 <= i < old_tied.len() implies exists|k: int| 0 <= k < j + 1 && (#[trigger] freq@[k]).0 == #[trigger] tied@[i] by {
                    assert(tied@[i] == old_tied[i]);
                }
                assert(tied@[tied.len() - 1] == freq@[j as int].0);
                assert forall|k: int| 0 <= k < j + 1 && (#[trigger] freq@[k]).1 == best implies tied@.contains(freq@[k].0) by {
                    if k < j {
                        let i = choose|i: int| 0 <= i < old_tied.len() && old_tied[i] == freq@[k].0;
                        assert(tied@[i] == old_tied[i]);
                    }
                }
                assert forall|a: int, b: int| 0 <= a < b < tied.len() implies #[trigger] tied@[a].lt_spec(#[trigger] tied@[b]) by {
                    if b == tied.len() - 1 && a < b {
                        let k = choose|k: int| 0 <= k < j && (#[trigger] freq@[k]).0 == old_tied.last();
                        assert(freq@[k].0.lt_spec(key));
                        assert(old_tied[a].le_spec(old_tied.last()));
                    }
                }
            }
        }
        j = j + 1;
    }
    proof {
        let k0 = choose|k: int| 0 <= k < freq.len() && (#[trigger] freq@[k]).1 == best;
        assert(tied@.contains(freq@[k0].0));
        assert forall|x: ExactDecimal| occurrences(input@, x) <= best by {
            if occurrences(input@, x) > 0 {
                assert(input@.contains(x));
                assert(keys(freq@).contains(x));
                let k = choose|k: int| 0 <= k < keys(freq@).len() && keys(freq@)[k] == x;
                assert(freq@[k].0 == x);
            }
        }
        assert forall|x: ExactDecimal| occurrences(input@, x) == best implies #[trigger] tied@.contains(x) by {
            assert(occurrences(input@, x) > 0);
            assert(input@.contains(x));
            assert(keys(freq@).contains(x));
            let k = choose|k: int| 0 <= k < keys(freq@).len() && keys(freq@)[k] == x;
            assert(freq@[k].0 == x);
        }
    }
    (best, tied)
}

} // verus!
