//! The spacing equalizer: marbles of each contiguous run of non-gap slots
//! are placed a fixed arc length apart, counting back from the run's head.
use vstd::prelude::*;
use crate::chain::{positions_ok, ChainMarble, S_ONE};
use crate::path::{length_at, param_at, Path};

verus! {

/// Number of non-gap slots directly after index `k`.
pub open spec fn run_tail(c: Seq<ChainMarble>, k: int) -> nat
    decreases c.len() - k,
{
    if 0 <= k && k + 1 < c.len() && c[k + 1].color is Some {
        1 + run_tail(c, k + 1)
    } else {
        0
    }
}

/// The arc length that the equalizer aims at for slot `k`: the head's arc
/// length less one `spacing` per member between `k` and the head.
pub open spec fn target_length(total: int, c: Seq<ChainMarble>, k: int, spacing: int) -> int {
    let h = k + run_tail(c, k);
    length_at(total, c[h].s as int) - (h - k) * spacing
}

/// The new path parameter of non-gap slot `k`.
pub open spec fn spaced_s(total: int, c: Seq<ChainMarble>, k: int, spacing: int) -> int {
    let d = target_length(total, c, k, spacing);
    if d <= 0 {
        0
    } else {
        param_at(total, d)
    }
}

/// The chain after equalization: gaps stay where they are, every marble
/// takes its spaced position; ids and colours are kept.
pub open spec fn equalized(total: int, c: Seq<ChainMarble>, spacing: int) -> Seq<ChainMarble> {
    Seq::new(
        c.len(),
        |k: int|
            if c[k].color is None {
                c[k]
            } else {
                ChainMarble { s: spaced_s(total, c, k, spacing) as u64, ..c[k] }
            },
    )
}

proof fn lemma_run_tail_bound(c: Seq<ChainMarble>, k: int)
    requires
        0 <= k < c.len(),
    ensures
        k + run_tail(c, k) < c.len(),
        forall|j: int| k < j <= k + run_tail(c, k) ==> c[j].color is Some,
    decreases c.len() - k,
{
    if k + 1 < c.len() && c[k + 1].color is Some {
        lemma_run_tail_bound(c, k + 1);
    }
}

/// Re-spaces every run of non-gap marbles: the head of a run (its last
/// member) stays at its arc length, and each member before it is placed
/// `spacing` further back, stopping at the path's start.
pub fn equalize_chain_spacing(chain: &mut Vec<ChainMarble>, path: &Path, spacing: u64)
    requires
        path.wf(),
    ensures
        final(chain)@ == equalized(path.total as int, old(chain)@, spacing as int),
        positions_ok(old(chain)@) ==> positions_ok(final(chain)@),
{
    let ghost c0 = chain@;
    let ghost total = path.total as int;
    let n = chain.len();
    let mut k: usize = n;
    let mut in_run = false;
    let mut head_len: u64 = 0;
    let mut back: u64 = 0;
    let ghost mut head: int = 0;
    while k > 0
        invariant
            n == c0.len(),
            chain@.len() == n,
            k <= n,
            path.wf(),
            total == path.total,
            forall|j: int| 0 <= j < k ==> #[trigger] chain@[j] == c0[j],
            forall|j: int|
                k <= j < n ==> #[trigger] chain@[j] == equalized(total, c0, spacing as int)[j],
            in_run ==> {
                &&& k < n
                &&& c0[k as int].color is Some
                &&& head == k + run_tail(c0, k as int)
                &&& head < n
                &&& head_len == length_at(total, c0[head].s as int)
                &&& (back == (head - k) * spacing || (back >= head_len && (head - k) * spacing
                    >= head_len))
            },
            !in_run ==> (k == n || c0[k as int].color is None),
        decreases k,
    {
        let idx = k - 1;
        let cm = chain[idx];
        if cm.color.is_none() {
            in_run = false;
        } else {
            proof {
                lemma_run_tail_bound(c0, idx as int);
            }
            if !in_run {
                in_run = true;
                proof {
                    head = idx as int;
                }
                head_len = path.arc_length_to(cm.s);
                back = 0;
            } else {
                let ghost old_back = back;
                back = back.saturating_add(spacing);
                proof {
                    assert(head - idx == (head - k) + 1);
                    assert((head - idx) * spacing == (head - k) * spacing + spacing) by (nonlinear_arith)
                        requires
                            head - idx == (head - k) + 1,
                    ;
                    if !(old_back == (head - k) * spacing) {
                        assert(back >= old_back);
                    }
                }
            }
            assert(head == idx + run_tail(c0, idx as int));
            let new_s = if back >= head_len {
                0
            } else {
                path.s_at_length(head_len - back)
            };
            chain.set(idx, ChainMarble { id: cm.id, s: new_s, color: cm.color });
        }
        k = idx;
    }
    assert(chain@ =~= equalized(total, c0, spacing as int));
    proof {
        if positions_ok(c0) {
            lemma_equalized_positions(total, c0, spacing as int);
        }
    }
}

/// A length up to the arc length at `sh` converts back to a parameter no
/// larger than `sh`.
proof fn lemma_param_below_head(total: int, sh: int, d: int)
    requires
        0 <= sh <= S_ONE,
        total >= 0,
        0 < d <= length_at(total, sh),
    ensures
        param_at(total, d) <= sh,
{
    let one = S_ONE as int;
    let lh = sh * total / one;
    lemma_div_bounds(sh * total, one);
    assert(sh * total >= 0) by (nonlinear_arith)
        requires
            sh >= 0,
            total >= 0,
    ;
    assert(total > 0) by {
        if total == 0 {
            assert(sh * total == 0) by (nonlinear_arith)
                requires
                    total == 0,
            ;
        }
    }
    assert(lh <= total) by (nonlinear_arith)
        requires
            lh * one <= sh * total,
            sh <= one,
            total > 0,
            one > 0,
    ;
    let x = d * one / total;
    lemma_div_bounds(d * one, total);
    assert(x <= sh) by (nonlinear_arith)
        requires
            x * total <= d * one,
            d <= lh,
            lh * one <= sh * total,
            total > 0,
            one > 0,
    ;
}

/// Equalization keeps every slot before the path's end.
proof fn lemma_equalized_positions(total: int, c: Seq<ChainMarble>, spacing: int)
    requires
        total >= 0,
        spacing >= 0,
        positions_ok(c),
    ensures
        positions_ok(equalized(total, c, spacing)),
{
    let e = equalized(total, c, spacing);
    assert forall|k: int| 0 <= k < e.len() implies #[trigger] e[k].s < S_ONE by {
        if c[k].color is Some {
            let d = target_length(total, c, k, spacing);
            if d > 0 {
                lemma_run_tail_bound(c, k);
                let h = k + run_tail(c, k);
                assert(c[h].s < S_ONE);
                assert(d <= length_at(total, c[h].s as int)) by (nonlinear_arith)
                    requires
                        d == length_at(total, c[h].s as int) - (h - k) * spacing,
                        h >= k,
                        spacing >= 0,
                ;
                lemma_param_below_head(total, c[h].s as int, d);
            }
        }
    }
}

/// Floor division bounds: `q * d <= x < q * d + d` for `q = x / d`.
proof fn lemma_div_bounds(x: int, d: int)
    requires
        x >= 0,
        d > 0,
    ensures
        (x / d) * d <= x < (x / d) * d + d,
        x / d >= 0,
{
    vstd::arithmetic::div_mod::lemma_fundamental_div_mod(x, d);
    vstd::arithmetic::div_mod::lemma_mod_bound(x, d);
    vstd::arithmetic::div_mod::lemma_div_pos_is_pos(x, d);
    assert(d * (x / d) == (x / d) * d) by (nonlinear_arith);
}

/// Converting an arc length to a path parameter and back loses at most
/// `total / S_ONE + 1`, and never gains.
pub proof fn lemma_length_round_trip(total: int, d: int)
    requires
        0 < d <= total,
    ensures
        0 <= param_at(total, d) <= S_ONE,
        d - (total / (S_ONE as int) + 1) <= length_at(total, param_at(total, d)) <= d,
{
    let one = S_ONE as int;
    let x = d * one / total;
    lemma_div_bounds(d * one, total);
    if x > one {
        assert(x * total > one * total) by (nonlinear_arith)
            requires
                x > one,
                total > 0,
        ;
        assert(one * total >= d * one) by (nonlinear_arith)
            requires
                d <= total,
                one > 0,
        ;
    }
    assert(param_at(total, d) == x);
    let y = x * total / one;
    assert(length_at(total, x) == y);
    lemma_div_bounds(x * total, one);
    lemma_div_bounds(total, one);
    let q = total / one;
    assert(y <= d) by (nonlinear_arith)
        requires
            y * one <= x * total,
            x * total <= d * one,
            one > 0,
    ;
    assert(y >= d - q - 1) by (nonlinear_arith)
        requires
            d * one < x * total + total,
            x * total < y * one + one,
            total < q * one + one,
            one > 0,
    ;
}

/// After equalization, two neighbouring marbles of one run lie `spacing`
/// apart in arc length, up to the path parameter's rounding
/// (`total / S_ONE + 1` either way). This holds where the rear one's target
/// length is positive: members whose target falls before the path's start
/// are all placed at the start.
pub proof fn lemma_equalized_spacing(path: &Path, c: Seq<ChainMarble>, spacing: u64, k: int)
    requires
        path.wf(),
        0 <= k,
        k + 1 < c.len(),
        c[k].color is Some,
        c[k + 1].color is Some,
        target_length(path.total as int, c, k, spacing as int) > 0,
    ensures
        ({
            let total = path.total as int;
            let e = equalized(total, c, spacing as int);
            let gap = length_at(total, e[k + 1].s as int) - length_at(total, e[k].s as int);
            spacing - (total / (S_ONE as int) + 1) <= gap <= spacing + (total / (S_ONE as int)
                + 1)
        }),
{
    let total = path.total as int;
    let sp = spacing as int;
    lemma_run_tail_bound(c, k);
    assert(run_tail(c, k) == 1 + run_tail(c, k + 1));
    let h = k + run_tail(c, k);
    let lh = length_at(total, c[h].s as int);
    assert(lh <= total) by (nonlinear_arith)
        requires
            lh == length_at(total, c[h].s as int),
            total >= 0,
    {
        let sc = if c[h].s > S_ONE { S_ONE as int } else { c[h].s as int };
        assert(sc * total <= (S_ONE as int) * total) by (nonlinear_arith)
            requires
                0 <= sc <= S_ONE,
                total >= 0,
        ;
        lemma_div_bounds(sc * total, S_ONE as int);
    }
    let dk = target_length(total, c, k, sp);
    let dk1 = target_length(total, c, k + 1, sp);
    assert((h - k) * sp == (h - (k + 1)) * sp + sp) by (nonlinear_arith);
    assert(dk == dk1 - sp);
    assert(dk1 <= lh) by (nonlinear_arith)
        requires
            dk1 == lh - (h - (k + 1)) * sp,
            h >= k + 1,
            sp >= 0,
    ;
    lemma_length_round_trip(total, dk);
    lemma_length_round_trip(total, dk1);
    let e = equalized(total, c, sp);
    assert(e[k].s == param_at(total, dk));
    assert(e[k + 1].s == param_at(total, dk1));
}

} // verus!
