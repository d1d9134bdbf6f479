//! Candidate breakpoints, and the starts they admit.
use vstd::prelude::*;

verus! {

/// Largest multiple of `jump` that is not above `x`.
pub open spec fn round_down(x: int, jump: int) -> int {
    x - x % jump
}

/// Smallest multiple of `jump` that is at least `minimum_segment_length - 1`.
pub open spec fn first_candidate(jump: usize, min_len: usize) -> int {
    let floor = if min_len >= 1 { min_len - 1 } else { 0 };
    if floor % (jump as int) == 0 {
        floor
    } else {
        round_down(floor, jump as int) + jump
    }
}

/// Every `jump`-th index from `t` up to, but not including, `n`.
pub open spec fn grid_from(t: int, n: int, jump: int) -> Seq<usize>
    decreases if t < n { n - t } else { 0 },
{
    if 0 <= t < n && jump > 0 {
        seq![t as usize] + grid_from(t + jump, n, jump)
    } else {
        seq![]
    }
}

/// Candidate breakpoints of a signal of `n` rows, in the order they are processed: every
/// `jump`-th index from the first candidate below `n`, then `n` itself.
pub open spec fn candidates(n: usize, jump: usize, min_len: usize) -> Seq<usize> {
    grid_from(first_candidate(jump, min_len), n as int, jump as int).push(n)
}

/// Start admitted when breakpoint `t` is processed: the largest multiple of `jump` that is
/// not above `t - minimum_segment_length`, or zero when that difference is negative.
pub open spec fn admission_point(t: usize, jump: usize, min_len: usize) -> usize {
    if t >= min_len {
        round_down(t - min_len, jump as int) as usize
    } else {
        0
    }
}

proof fn lemma_grid_from(t: int, n: int, jump: int)
    requires
        jump >= 1,
        t >= 0,
        n <= usize::MAX,
    ensures
        forall|i: int|
            0 <= i < grid_from(t, n, jump).len() ==> {
                &&& #[trigger] grid_from(t, n, jump)[i] == t + i * jump
                &&& t + i * jump < n
            },
    decreases if t < n { n - t } else { 0 },
{
    if t < n {
        lemma_grid_from(t + jump, n, jump);
        assert forall|i: int| 0 <= i < grid_from(t, n, jump).len() implies #[trigger] grid_from(
            t,
            n,
            jump,
        )[i] == t + i * jump && t + i * jump < n by {
            if i == 0 {
                assert(0 * jump == 0);
            } else {
                let rest = grid_from(t + jump, n, jump);
                assert(grid_from(t, n, jump)[i] == rest[i - 1]);
                assert(rest[i - 1] == t + jump + (i - 1) * jump);
                assert(t + jump + (i - 1) * jump == t + i * jump) by (nonlinear_arith);
            }
        }
    }
}

/// The candidate breakpoints are strictly ascending, all but the last lie `jump` apart from
/// the first candidate on, and the last is the signal length.
pub proof fn lemma_candidates_shape(n: usize, jump: usize, min_len: usize)
    requires
        jump >= 1,
    ensures
        candidates(n, jump, min_len).len() >= 1,
        candidates(n, jump, min_len).last() == n,
        forall|i: int|
            0 <= i < candidates(n, jump, min_len).len() - 1 ==> #[trigger] candidates(
                n,
                jump,
                min_len,
            )[i] == first_candidate(jump, min_len) + i * jump,
        forall|i: int, k: int|
            0 <= i < k < candidates(n, jump, min_len).len() ==> #[trigger] candidates(
                n,
                jump,
                min_len,
            )[i] < #[trigger] candidates(n, jump, min_len)[k],
{
    let s = first_candidate(jump, min_len);
    assert(s >= 0) by {
        let floor = if min_len >= 1 { min_len - 1 } else { 0int };
        assert(floor % (jump as int) <= floor) by (nonlinear_arith)
            requires
                floor >= 0,
                jump >= 1,
        ;
    }
    lemma_grid_from(s, n as int, jump as int);
    let g = grid_from(s, n as int, jump as int);
    let c = candidates(n, jump, min_len);
    assert forall|i: int, k: int| 0 <= i < k < c.len() implies #[trigger] c[i] < #[trigger] c[k] by {
        if k < g.len() {
            assert(g[i] == s + i * jump);
            assert(g[k] == s + k * jump);
            assert(i * jump < k * jump) by (nonlinear_arith)
                requires
                    i < k,
                    jump >= 1,
            ;
        } else {
            assert(g[i] < n);
        }
    }
}

/// Every breakpoint before the last admits a start at least `jump` above the start that any
/// earlier breakpoint admitted, so a start that pruning dropped is never admitted again; the
/// last breakpoint, the signal length, admits a start no lower than any earlier one.
pub proof fn lemma_admission_increasing(n: usize, jump: usize, min_len: usize, i: int, l: int)
    requires
        jump >= 1,
        0 <= i < l < candidates(n, jump, min_len).len(),
        candidates(n, jump, min_len)[i] >= min_len,
    ensures
        l < candidates(n, jump, min_len).len() - 1 ==> admission_point(
            candidates(n, jump, min_len)[i],
            jump,
            min_len,
        ) + jump <= admission_point(candidates(n, jump, min_len)[l], jump, min_len),
        admission_point(candidates(n, jump, min_len)[i], jump, min_len) <= admission_point(
            candidates(n, jump, min_len)[l],
            jump,
            min_len,
        ),
{
    let c = candidates(n, jump, min_len);
    lemma_candidates_shape(n, jump, min_len);
    assert(c[i] < c[l]);
    let j = jump as int;
    let x = c[i] - min_len;
    let y = c[l] - min_len;
    assert(0 <= x % j <= x) by (nonlinear_arith)
        requires
            x >= 0,
            j >= 1,
    ;
    assert(0 <= y % j <= y) by (nonlinear_arith)
        requires
            y >= 0,
            j >= 1,
    ;
    assert(admission_point(c[i], jump, min_len) == x - x % j);
    assert(admission_point(c[l], jump, min_len) == y - y % j);
    if l < c.len() - 1 {
        let d = l - i;
        assert(c[i] == first_candidate(jump, min_len) + i * j);
        assert(c[l] == first_candidate(jump, min_len) + l * j);
        assert(y == j * d + x) by (nonlinear_arith)
            requires
                y == x + (l * j - i * j),
                d == l - i,
        ;
        vstd::arithmetic::div_mod::lemma_mod_multiples_vanish(d, x, j);
        assert(j * d >= j) by (nonlinear_arith)
            requires
                d >= 1,
                j >= 1,
        ;
        assert(y % j == x % j);
    } else {
        vstd::arithmetic::div_mod::lemma_fundamental_div_mod(x, j);
        vstd::arithmetic::div_mod::lemma_fundamental_div_mod(y, j);
        vstd::arithmetic::div_mod::lemma_div_is_ordered(x, y, j);
        assert(j * (x / j) <= j * (y / j)) by (nonlinear_arith)
            requires
                x / j <= y / j,
                j >= 1,
        ;
    }
}

} // verus!
