//! Decision levels of trail positions, and the progress measure of the
//! search: every step but a restart makes it grow, and it is bounded.
use vstd::arithmetic::power::{lemma_pow_increases, lemma_pow_positive, pow};
use vstd::prelude::*;

verus! {

/// The limits are strictly increasing positions.
pub open spec fn limits_increasing(lim: Seq<usize>) -> bool {
    forall|a: int, b: int| 0 <= a < b < lim.len() ==> lim[a] < lim[b]
}

/// The decision level of trail position `i`: the number of levels that
/// begin at or before it.
pub open spec fn level_at(lim: Seq<usize>, i: int) -> nat
    decreases lim.len(),
{
    if lim.len() == 0 {
        0
    } else {
        level_at(lim.drop_last(), i) + if lim.last() <= i { 1nat } else { 0nat }
    }
}

/// Position `i` lies on level `k`: at or after the start of level `k` and
/// before the start of level `k + 1`.
pub proof fn lemma_level_at(lim: Seq<usize>, i: int, k: nat)
    requires
        limits_increasing(lim),
        k <= lim.len(),
        k == 0 || lim[k - 1] <= i,
        k == lim.len() || i < lim[k as int],
    ensures
        level_at(lim, i) == k,
    decreases lim.len(),
{
    if lim.len() > 0 {
        let d = lim.drop_last();
        if k == lim.len() {
            if k > 0 {
                assert(lim.last() <= i);
                lemma_level_at(d, i, (k - 1) as nat);
            }
        } else {
            assert(i < lim.last()) by {
                if k < lim.len() - 1 {
                    assert(lim[k as int] < lim[lim.len() - 1]);
                }
            }
            lemma_level_at(d, i, k);
        }
    }
}

/// The level of a position is at most the number of levels.
pub proof fn lemma_level_le(lim: Seq<usize>, i: int)
    ensures
        level_at(lim, i) <= lim.len(),
    decreases lim.len(),
{
    if lim.len() > 0 {
        lemma_level_le(lim.drop_last(), i);
    }
}

/// Position `i` is on a level above `b` exactly when it is at or after the
/// start of level `b + 1`.
pub proof fn lemma_level_above(lim: Seq<usize>, i: int, b: nat)
    requires
        limits_increasing(lim),
        b < lim.len(),
        0 <= i,
    ensures
        level_at(lim, i) > b <==> i >= lim[b as int],
{
    lemma_choose_level(lim, i);
    let k = choose_level(lim, i);
    lemma_level_at(lim, i, k);
    if k > b {
        if k - 1 > b {
            assert(lim[b as int] < lim[k - 1]);
        }
    } else {
        if k < b {
            assert(lim[k as int] < lim[b as int]);
        }
    }
}

/// The level that position `i` lies on, found by a walk over the limits.
pub open spec fn choose_level(lim: Seq<usize>, i: int) -> nat
    decreases lim.len(),
{
    if lim.len() == 0 {
        0
    } else if lim.last() <= i {
        lim.len()
    } else {
        choose_level(lim.drop_last(), i)
    }
}

proof fn lemma_choose_level(lim: Seq<usize>, i: int)
    requires
        limits_increasing(lim),
    ensures
        choose_level(lim, i) <= lim.len(),
        choose_level(lim, i) == 0 || lim[choose_level(lim, i) - 1] <= i,
        choose_level(lim, i) == lim.len() || i < lim[choose_level(lim, i) as int],
    decreases lim.len(),
{
    if lim.len() > 0 && !(lim.last() <= i) {
        let d = lim.drop_last();
        lemma_choose_level(d, i);
        let k = choose_level(d, i);
        if k < d.len() {
            assert(lim[k as int] == d[k as int]);
        }
    }
}

/// Levels are kept when the limits are cut back to `b` levels, for the
/// positions before the start of level `b + 1`.
pub proof fn lemma_level_prefix(lim: Seq<usize>, b: nat, i: int)
    requires
        limits_increasing(lim),
        b < lim.len(),
        0 <= i < lim[b as int],
    ensures
        level_at(lim.subrange(0, b as int), i) == level_at(lim, i),
{
    lemma_choose_level(lim, i);
    let k = choose_level(lim, i);
    lemma_level_at(lim, i, k);
    assert(k <= b) by {
        if k > b {
            if k - 1 > b {
                assert(lim[b as int] < lim[k - 1]);
            }
        }
    }
    let p = lim.subrange(0, b as int);
    if k < b {
        assert(p[k as int] == lim[k as int]);
    }
    if k > 0 {
        assert(p[k - 1] == lim[k - 1]);
    }
    lemma_level_at(p, i, k);
}

/// The weight of a position on level `lvl`, with `n` variables.
pub open spec fn weight(n: nat, lvl: nat) -> nat {
    if lvl <= n { pow(n as int + 1, (n - lvl) as nat) as nat } else { 0 }
}

/// The progress measure of a trail of length `len` with the given limits:
/// the sum of the weights of its positions. Adding a literal adds to it, and
/// a backjump that then asserts a literal on the level it jumped to also
/// adds to it, since the asserted literal weighs more than all the positions
/// above its level together.
pub open spec fn progress(lim: Seq<usize>, len: nat, n: nat) -> nat
    decreases len,
{
    if len == 0 {
        0
    } else {
        progress(lim, (len - 1) as nat, n) + weight(n, level_at(lim, len - 1))
    }
}

/// The measure never reaches `(n + 1)^(n + 1)` while the trail holds at
/// most `n` literals.
pub proof fn lemma_progress_bound(lim: Seq<usize>, len: nat, n: nat)
    requires
        len <= n,
    ensures
        progress(lim, len, n) <= len * pow(n as int + 1, n),
        progress(lim, len, n) < pow(n as int + 1, n + 1),
    decreases len,
{
    lemma_pow_positive(n as int + 1, n);
    if len > 0 {
        lemma_progress_bound(lim, (len - 1) as nat, n);
        let l = level_at(lim, len - 1);
        if l <= n {
            lemma_pow_increases((n + 1) as nat, (n - l) as nat, n);
            lemma_pow_positive(n as int + 1, (n - l) as nat);
        }
        assert(progress(lim, len, n) <= (len - 1) * pow(n as int + 1, n) + pow(n as int + 1, n));
        assert((len - 1) * pow(n as int + 1, n) + pow(n as int + 1, n) == len * pow(n as int + 1, n)) by (nonlinear_arith);
    }
    assert(pow(n as int + 1, n + 1) == (n + 1) * pow(n as int + 1, n)) by {
        vstd::arithmetic::power::lemma_pow_adds(n as int + 1, 1, n);
        vstd::arithmetic::power::lemma_pow1(n as int + 1);
    }
    assert(len * pow(n as int + 1, n) < (n + 1) * pow(n as int + 1, n)) by (nonlinear_arith)
        requires len <= n, pow(n as int + 1, n) > 0;
}

/// The measure counts only the positions before `len`, so extra limits at
/// or after `len` leave it unchanged.
pub proof fn lemma_progress_push_limit(lim: Seq<usize>, x: usize, len: nat, n: nat)
    requires
        len <= x,
    ensures
        progress(lim.push(x), len, n) == progress(lim, len, n),
    decreases len,
{
    if len > 0 {
        lemma_progress_push_limit(lim, x, (len - 1) as nat, n);
        assert(lim.push(x).drop_last() =~= lim);
    }
}

/// Cutting the limits back to `b` levels keeps the measure of the positions
/// before the start of level `b + 1`.
pub proof fn lemma_progress_prefix(lim: Seq<usize>, b: nat, len: nat, n: nat)
    requires
        limits_increasing(lim),
        b < lim.len(),
        len <= lim[b as int],
    ensures
        progress(lim.subrange(0, b as int), len, n) == progress(lim, len, n),
    decreases len,
{
    if len > 0 {
        lemma_progress_prefix(lim, b, (len - 1) as nat, n);
        lemma_level_prefix(lim, b, len - 1);
    }
}

/// The positions from `lo` to `len` are all above level `b`, so together they
/// weigh at most `(len - lo) * (n + 1)^(n - b - 1)`.
proof fn lemma_progress_tail(lim: Seq<usize>, b: nat, lo: nat, len: nat, n: nat)
    requires
        limits_increasing(lim),
        b < lim.len(),
        lim[b as int] <= lo <= len,
        b < n,
    ensures
        progress(lim, len, n) <= progress(lim, lo, n) + (len - lo) * pow(n as int + 1, (n - b - 1) as nat),
    decreases len,
{
    if len > lo {
        lemma_progress_tail(lim, b, lo, (len - 1) as nat, n);
        lemma_pow_positive(n as int + 1, (n - b - 1) as nat);
        let l = level_at(lim, len - 1);
        lemma_level_above(lim, len - 1, b);
        if l <= n {
            lemma_pow_increases((n + 1) as nat, (n - l) as nat, (n - b - 1) as nat);
            lemma_pow_positive(n as int + 1, (n - l) as nat);
        }
        assert(weight(n, l) <= pow(n as int + 1, (n - b - 1) as nat));
        assert((len - 1 - lo) * pow(n as int + 1, (n - b - 1) as nat) + pow(n as int + 1, (n - b - 1) as nat)
            == (len - lo) * pow(n as int + 1, (n - b - 1) as nat)) by (nonlinear_arith);
        assert(progress(lim, len, n) == progress(lim, (len - 1) as nat, n) + weight(n, l));
    } else {
        let w = pow(n as int + 1, (n - b - 1) as nat);
        assert(len - lo == 0);
        assert((len - lo) * w == 0) by (nonlinear_arith)
            requires len - lo == 0;
    }
}

/// A backjump to level `b` followed by a literal asserted on level `b`
/// makes the measure grow.
pub proof fn lemma_progress_backjump(lim: Seq<usize>, b: nat, len: nat, n: nat)
    requires
        limits_increasing(lim),
        b < lim.len(),
        lim[b as int] < len <= n,
    ensures
        progress(lim, len, n) < progress(lim.subrange(0, b as int), (lim[b as int] + 1) as nat, n),
{
    let p = lim.subrange(0, b as int);
    let s = lim[b as int] as nat;
    lemma_progress_prefix(lim, b, s, n);
    lemma_limit_at_least(lim, b as int);
    lemma_progress_tail(lim, b, s, len, n);
    lemma_choose_level(p, s as int);
    assert(level_at(p, s as int) == b) by {
        if b > 0 {
            assert(p[b - 1] == lim[b - 1]);
            assert(lim[b - 1] < lim[b as int]);
        }
        lemma_level_at(p, s as int, b);
    }
    let w = pow(n as int + 1, (n - b - 1) as nat);
    lemma_pow_positive(n as int + 1, (n - b - 1) as nat);
    assert(pow(n as int + 1, (n - b) as nat) == (n + 1) * w) by {
        vstd::arithmetic::power::lemma_pow_adds(n as int + 1, 1, (n - b - 1) as nat);
        vstd::arithmetic::power::lemma_pow1(n as int + 1);
    }
    assert((len - s) * w < (n + 1) * w) by (nonlinear_arith)
        requires len - s <= n, w > 0;
}

/// The limit of level `a + 1` is at least `a`.
pub proof fn lemma_limit_at_least(lim: Seq<usize>, a: int)
    requires
        limits_increasing(lim),
        0 <= a < lim.len(),
    ensures
        lim[a] >= a,
    decreases a,
{
    if a > 0 {
        lemma_limit_at_least(lim, a - 1);
        assert(lim[a - 1] < lim[a]);
    }
}

} // verus!

verus! {

/// Adding positions to the trail, with the limits unchanged, never lowers
/// the measure.
pub proof fn lemma_progress_grows(lim: Seq<usize>, lo: nat, hi: nat, n: nat)
    requires
        lo <= hi,
    ensures
        progress(lim, lo, n) <= progress(lim, hi, n),
    decreases hi,
{
    if hi > lo {
        lemma_progress_grows(lim, lo, (hi - 1) as nat, n);
    }
}

} // verus!
