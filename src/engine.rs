//! Collision and insertion: projectiles meet the chain, are spliced into it,
//! and trigger the match resolver.
use vstd::prelude::*;
use crate::chain::{
    first_after, sorted_spec, insert_position, is_insert_pos, positions_ok, resolved, sort_by_s, sorted_by_s, try_remove_matches,
    ChainMarble, Color, S_ONE,
};
use crate::path::Path;
use crate::spacing::{equalize_chain_spacing, equalized};

verus! {

/// Half-width of the box outside which projectiles are dropped, in
/// micrometres.
pub const WORLD_LIMIT: i64 = 200_000_000;

/// Distance within which a projectile is captured by a chain marble.
pub const COLLISION_DISTANCE: u64 = 700_000;

/// Squared capture distance.
pub const COLLISION_DISTANCE_SQ: u64 = 490_000_000_000;

/// Head-bias tolerance: candidates whose squared distance exceeds the
/// closest one's by at most this much count as equally close, and the one
/// nearest the chain's head wins.
pub const HEAD_BIAS_TOLERANCE_SQ: u64 = 4_900_000_000;

/// A free projectile. Position in micrometres, velocity in micrometres per
/// millisecond, remaining life in milliseconds.
#[derive(Clone, Copy, Debug, PartialEq, Eq, Structural)]
pub struct Marble {
    pub id: u64,
    pub x: i64,
    pub y: i64,
    pub z: i64,
    pub vx: i64,
    pub vy: i64,
    pub vz: i64,
    pub life: i64,
    pub color: Color,
    pub owner: Option<u64>,
}

/// Squared planar distance from the chain point at parameter `s` to
/// `(mx, mz)`.
pub open spec fn dist2_at(path: &Path, s: u64, mx: i64, mz: i64) -> int {
    let p = path.pos_at(s as int);
    (p.0 - mx) * (p.0 - mx) + (p.1 - mz) * (p.1 - mz)
}

/// Slot `k` is a marble within capture distance of `(mx, mz)`.
pub open spec fn is_candidate(path: &Path, c: Seq<ChainMarble>, k: int, mx: i64, mz: i64) -> bool {
    0 <= k < c.len() && c[k].color is Some && dist2_at(path, c[k].s, mx, mz)
        <= COLLISION_DISTANCE_SQ
}

/// The smallest squared distance of a candidate among the first `n` slots,
/// or just beyond capture distance when there is none.
pub open spec fn min_dist2(path: &Path, c: Seq<ChainMarble>, mx: i64, mz: i64, n: int) -> int
    decreases n,
{
    if n <= 0 {
        COLLISION_DISTANCE_SQ + 1
    } else {
        let rest = min_dist2(path, c, mx, mz, n - 1);
        if is_candidate(path, c, n - 1, mx, mz) && dist2_at(path, c[n - 1].s, mx, mz) < rest {
            dist2_at(path, c[n - 1].s, mx, mz)
        } else {
            rest
        }
    }
}

proof fn lemma_min_dist2(path: &Path, c: Seq<ChainMarble>, mx: i64, mz: i64, n: int)
    requires
        0 <= n <= c.len(),
    ensures
        forall|k: int|
            0 <= k < n && is_candidate(path, c, k, mx, mz) ==> min_dist2(path, c, mx, mz, n)
                <= dist2_at(path, c[k].s, mx, mz),
        min_dist2(path, c, mx, mz, n) <= COLLISION_DISTANCE_SQ ==> exists|k: int|
            0 <= k < n && is_candidate(path, c, k, mx, mz) && dist2_at(path, c[k].s, mx, mz)
                == min_dist2(path, c, mx, mz, n),
        min_dist2(path, c, mx, mz, n) <= COLLISION_DISTANCE_SQ + 1,
    decreases n,
{
    if n > 0 {
        lemma_min_dist2(path, c, mx, mz, n - 1);
        if min_dist2(path, c, mx, mz, n) <= COLLISION_DISTANCE_SQ {
            if min_dist2(path, c, mx, mz, n) != min_dist2(path, c, mx, mz, n - 1) {
                assert(is_candidate(path, c, n - 1, mx, mz));
            }
        }
    }
}

/// Slot `j` captures a projectile at `(mx, mz)`: it is a candidate at most
/// `HEAD_BIAS_TOLERANCE_SQ` (squared) farther than the closest one, and no
/// candidate nearer the head is.
pub open spec fn is_choice(path: &Path, c: Seq<ChainMarble>, mx: i64, mz: i64, j: int) -> bool {
    let m = min_dist2(path, c, mx, mz, c.len() as int);
    &&& is_candidate(path, c, j, mx, mz)
    &&& dist2_at(path, c[j].s, mx, mz) <= m + HEAD_BIAS_TOLERANCE_SQ
    &&& forall|k: int|
        j < k < c.len() && is_candidate(path, c, k, mx, mz) ==> dist2_at(path, c[k].s, mx, mz) > m
            + HEAD_BIAS_TOLERANCE_SQ
}

/// The slot that captures a projectile at `(mx, mz)`, if any.
pub open spec fn collision_choice(path: &Path, c: Seq<ChainMarble>, mx: i64, mz: i64) -> Option<int> {
    if exists|j: int| is_choice(path, c, mx, mz, j) {
        Some(choose|j: int| is_choice(path, c, mx, mz, j))
    } else {
        None
    }
}

proof fn lemma_choice_is(path: &Path, c: Seq<ChainMarble>, mx: i64, mz: i64, j: int)
    requires
        is_choice(path, c, mx, mz, j),
    ensures
        collision_choice(path, c, mx, mz) == Some(j),
{
    let i = choose|i: int| is_choice(path, c, mx, mz, i);
    assert(is_choice(path, c, mx, mz, i));
    if i < j {
        assert(is_candidate(path, c, j, mx, mz));
    } else if j < i {
        assert(is_candidate(path, c, i, mx, mz));
    }
}

proof fn lemma_no_choice(path: &Path, c: Seq<ChainMarble>, mx: i64, mz: i64)
    requires
        forall|k: int| !is_candidate(path, c, k, mx, mz),
    ensures
        collision_choice(path, c, mx, mz) is None,
{
    if exists|j: int| is_choice(path, c, mx, mz, j) {
        let j = choose|j: int| is_choice(path, c, mx, mz, j);
        assert(is_candidate(path, c, j, mx, mz));
    }
}

/// Squared planar distance from the chain point at `s` to `(mx, mz)`.
fn chain_dist2(path: &Path, s: u64, mx: i64, mz: i64) -> (r: u64)
    requires
        path.wf(),
        -WORLD_LIMIT <= mx <= WORLD_LIMIT,
        -WORLD_LIMIT <= mz <= WORLD_LIMIT,
    ensures
        r == dist2_at(path, s, mx, mz),
{
    let p = path.world_pos(s);
    let dx: u64 = if p.0 >= mx {
        (p.0 - mx) as u64
    } else {
        (mx - p.0) as u64
    };
    let dz: u64 = if p.1 >= mz {
        (p.1 - mz) as u64
    } else {
        (mz - p.1) as u64
    };
    assert(dx * dx <= 90_000_000_000_000_000 && dz * dz <= 90_000_000_000_000_000)
        by (nonlinear_arith)
        requires
            dx <= 300_000_000,
            dz <= 300_000_000,
    ;
    let d = dx * dx + dz * dz;
    assert(d == (p.0 - mx) * (p.0 - mx) + (p.1 - mz) * (p.1 - mz)) by (nonlinear_arith)
        requires
            dx == if p.0 >= mx { p.0 - mx } else { mx - p.0 },
            dz == if p.1 >= mz { p.1 - mz } else { mz - p.1 },
            d == dx * dx + dz * dz,
    ;
    d
}

/// Picks the chain marble that captures a projectile at `(mx, mz)`: among
/// the marbles within capture distance, those at most
/// `HEAD_BIAS_TOLERANCE_SQ` farther (squared) than the closest count as
/// closest, and of these the one nearest the chain's head (highest index)
/// is chosen. Gaps are never chosen.
pub fn find_collision_index(chain: &Vec<ChainMarble>, path: &Path, mx: i64, mz: i64) -> (r:
    Option<usize>)
    requires
        path.wf(),
        -WORLD_LIMIT <= mx <= WORLD_LIMIT,
        -WORLD_LIMIT <= mz <= WORLD_LIMIT,
    ensures
        collision_choice(path, chain@, mx, mz) == match r {
            Some(j) => Some(j as int),
            None => None::<int>,
        },
        r is None <==> forall|k: int| !is_candidate(path, chain@, k, mx, mz),
        r matches Some(j) ==> {
            let m = min_dist2(path, chain@, mx, mz, chain@.len() as int);
            &&& j < chain@.len()
            &&& is_candidate(path, chain@, j as int, mx, mz)
            &&& dist2_at(path, chain@[j as int].s, mx, mz) <= m + HEAD_BIAS_TOLERANCE_SQ
            &&& forall|k: int|
                j < k < chain@.len() && is_candidate(path, chain@, k, mx, mz) ==> dist2_at(
                    path,
                    chain@[k].s,
                    mx,
                    mz,
                ) > m + HEAD_BIAS_TOLERANCE_SQ
        },
{
    let n = chain.len();
    let mut best: u64 = COLLISION_DISTANCE_SQ + 1;
    let mut k: usize = 0;
    while k < n
        invariant
            path.wf(),
            -WORLD_LIMIT <= mx <= WORLD_LIMIT,
            -WORLD_LIMIT <= mz <= WORLD_LIMIT,
            n == chain@.len(),
            k <= n,
            best == min_dist2(path, chain@, mx, mz, k as int),
        decreases n - k,
    {
        if chain[k].color.is_some() {
            let d = chain_dist2(path, chain[k].s, mx, mz);
            if d <= COLLISION_DISTANCE_SQ && d < best {
                best = d;
            }
        }
        k = k + 1;
    }
    proof {
        lemma_min_dist2(path, chain@, mx, mz, n as int);
    }
    if best > COLLISION_DISTANCE_SQ {
        assert forall|k: int| !is_candidate(path, chain@, k, mx, mz) by {
            if is_candidate(path, chain@, k, mx, mz) {
                assert(min_dist2(path, chain@, mx, mz, n as int) <= dist2_at(path, chain@[k].s, mx, mz));
            }
        }
        proof {
            lemma_no_choice(path, chain@, mx, mz);
        }
        return None;
    }
    let ghost m = best as int;
    let limit = best + HEAD_BIAS_TOLERANCE_SQ;
    let mut j: usize = n;
    while j > 0
        invariant
            path.wf(),
            -WORLD_LIMIT <= mx <= WORLD_LIMIT,
            -WORLD_LIMIT <= mz <= WORLD_LIMIT,
            n == chain@.len(),
            j <= n,
            m == min_dist2(path, chain@, mx, mz, n as int),
            m <= COLLISION_DISTANCE_SQ,
            limit == m + HEAD_BIAS_TOLERANCE_SQ,
            forall|k: int|
                j <= k < n && is_candidate(path, chain@, k, mx, mz) ==> dist2_at(
                    path,
                    chain@[k].s,
                    mx,
                    mz,
                ) > limit,
            forall|k: int|
                0 <= k < n && is_candidate(path, chain@, k, mx, mz) ==> m <= dist2_at(
                    path,
                    chain@[k].s,
                    mx,
                    mz,
                ),
            exists|k: int|
                0 <= k < n && is_candidate(path, chain@, k, mx, mz) && dist2_at(
                    path,
                    chain@[k].s,
                    mx,
                    mz,
                ) == m,
        decreases j,
    {
        let idx = j - 1;
        if chain[idx].color.is_some() {
            let d = chain_dist2(path, chain[idx].s, mx, mz);
            if d <= COLLISION_DISTANCE_SQ && d <= limit {
                proof {
                    lemma_choice_is(path, chain@, mx, mz, idx as int);
                }
                return Some(idx);
            }
        }
        j = idx;
    }
    proof {
        let k = choose|k: int|
            0 <= k < n && is_candidate(path, chain@, k, mx, mz) && dist2_at(path, chain@[k].s, mx, mz)
                == m;
        assert(dist2_at(path, chain@[k].s, mx, mz) > limit);
    }
    None
}

/// Index of the first marble (not a gap) at or after slot `i`.
pub open spec fn next_marble_index(c: Seq<ChainMarble>, i: int) -> Option<int>
    decreases c.len() - i,
{
    if i < 0 || i >= c.len() {
        None
    } else if c[i].color is Some {
        Some(i)
    } else {
        next_marble_index(c, i + 1)
    }
}

/// How far past the collision point a projectile is placed when no marble
/// lies ahead of it.
pub const HEAD_INSERT_OFFSET: u64 = 20_000;

/// Highest position at which a projectile is placed ahead of the head.
pub const HEAD_INSERT_LIMIT: u64 = 999_900;

/// Position of a projectile captured at slot `k`: just behind the slot,
/// halfway to the slot before it (or to the path's start); or, when no
/// marble lies ahead of the slot (it is the chain's head), just ahead of
/// it, halfway to a point a little further along.
pub open spec fn insert_s_for(c: Seq<ChainMarble>, k: int) -> int {
    let cur = c[k].s as int;
    match next_marble_index(c, k + 1) {
        Some(_) => {
            let prev = if k > 0 {
                c[k - 1].s as int
            } else {
                0
            };
            (prev + cur) / 2
        },
        None => {
            let ahead = if cur + HEAD_INSERT_OFFSET < HEAD_INSERT_LIMIT {
                cur + HEAD_INSERT_OFFSET
            } else {
                HEAD_INSERT_LIMIT as int
            };
            (cur + ahead) / 2
        },
    }
}

/// A gap that separates nothing: it has no gap beside it, and it stands at
/// one end of the chain.
pub open spec fn is_isolated_gap(c: Seq<ChainMarble>, k: int) -> bool {
    &&& 0 <= k < c.len()
    &&& c[k].color is None
    &&& (k == 0 || c[k - 1].color is Some)
    &&& (k + 1 == c.len() || c[k + 1].color is Some)
    &&& (k == 0 || k + 1 == c.len())
}

/// The chain with the isolated gaps beside slot `p` removed.
pub open spec fn trimmed(c: Seq<ChainMarble>, p: int) -> Seq<ChainMarble> {
    let c1 = if is_isolated_gap(c, p + 1) {
        c.remove(p + 1)
    } else {
        c
    };
    if is_isolated_gap(c1, p - 1) {
        c1.remove(p - 1)
    } else {
        c1
    }
}

/// Computes where a projectile captured at slot `k` is placed.
pub fn insert_s_at(chain: &Vec<ChainMarble>, k: usize) -> (r: u64)
    requires
        k < chain.len(),
        positions_ok(chain@),
    ensures
        r == insert_s_for(chain@, k as int),
        r < S_ONE,
{
    let cur = chain[k].s;
    let mut j: usize = k + 1;
    while j < chain.len() && chain[j].color.is_none()
        invariant
            k < j <= chain.len(),
            positions_ok(chain@),
            next_marble_index(chain@, k + 1) == next_marble_index(chain@, j as int),
        decreases chain.len() - j,
    {
        j = j + 1;
    }
    if j < chain.len() {
        let prev = if k > 0 {
            chain[k - 1].s
        } else {
            0
        };
        (prev + cur) / 2
    } else {
        let ahead = if cur + HEAD_INSERT_OFFSET < HEAD_INSERT_LIMIT {
            cur + HEAD_INSERT_OFFSET
        } else {
            HEAD_INSERT_LIMIT
        };
        (cur + ahead) / 2
    }
}

/// Removes the isolated gaps beside slot `p`.
pub fn trim_isolated_gaps(chain: &mut Vec<ChainMarble>, p: usize)
    requires
        p < old(chain)@.len(),
    ensures
        final(chain)@ == trimmed(old(chain)@, p as int),
{
    if chain.len() - p == 2 && chain[p + 1].color.is_none() && chain[p].color.is_some() {
        chain.remove(p + 1);
    }
    if p == 1 && chain[0].color.is_none() && chain[1].color.is_some() {
        chain.remove(0);
    }
}

/// The chain after a projectile with `id` and `color`, captured at slot
/// `k`, is spliced in: on an empty chain it becomes the only slot, at the
/// path's start; otherwise it enters at its position, a match is resolved at
/// its slot, the chain is re-spaced, the isolated gaps beside the slot are
/// removed and the chain is put back in order.
pub open spec fn after_insert(
    total: int,
    spacing: int,
    c: Seq<ChainMarble>,
    id: u64,
    color: Color,
    k: int,
) -> Seq<ChainMarble> {
    if c.len() == 0 {
        seq![ChainMarble { id: Some(id), s: 0, color: Some(color) }]
    } else {
        let s = insert_s_for(c, k) as u64;
        let p = first_after(c, s, 0);
        let spliced = c.insert(p, ChainMarble { id: Some(id), s, color: Some(color) });
        sorted_spec(trimmed(equalized(total, resolved(spliced, p), spacing), p))
    }
}

/// Splices a captured projectile into the chain (see `after_insert`).
/// Returns the slot at which it was spliced in.
pub fn insert_into_chain(
    chain: &mut Vec<ChainMarble>,
    path: &Path,
    spacing: u64,
    id: u64,
    color: Color,
    k: usize,
) -> (p: usize)
    requires
        path.wf(),
        sorted_by_s(old(chain)@),
        positions_ok(old(chain)@),
        old(chain)@.len() == 0 || k < old(chain)@.len(),
    ensures
        final(chain)@ == after_insert(
            path.total as int,
            spacing as int,
            old(chain)@,
            id,
            color,
            k as int,
        ),
        old(chain)@.len() == 0 ==> p == 0,
        old(chain)@.len() > 0 ==> is_insert_pos(
            old(chain)@,
            insert_s_for(old(chain)@, k as int) as u64,
            p as int,
        ),
        sorted_by_s(final(chain)@),
        positions_ok(final(chain)@),
{
    if chain.len() == 0 {
        chain.push(ChainMarble { id: Some(id), s: 0, color: Some(color) });
        assert(chain@ =~= seq![ChainMarble { id: Some(id), s: 0, color: Some(color) }]);
        return 0;
    }
    let s = insert_s_at(chain, k);
    let p = insert_position(chain, s);
    let ghost c0 = old(chain)@;
    let ghost spliced = c0.insert(p as int, ChainMarble { id: Some(id), s, color: Some(color) });
    chain.insert(p, ChainMarble { id: Some(id), s, color: Some(color) });
    assert(chain@ == spliced);
    assert(positions_ok(spliced));
    try_remove_matches(chain, p);
    let ghost res = chain@;
    proof {
        crate::chain::lemma_resolve_keeps_slots(spliced, p as int);
        assert(positions_ok(res));
    }
    equalize_chain_spacing(chain, path, spacing);
    let ghost eq = chain@;
    trim_isolated_gaps(chain, p);
    let ghost settled = chain@;
    proof {
        assert forall|j: int| 0 <= j < settled.len() implies #[trigger] settled[j].s < S_ONE by {
            let c1 = if is_isolated_gap(eq, p + 1) {
                eq.remove(p + 1)
            } else {
                eq
            };
            if j + 1 < c1.len() {
                assert(c1[j + 1].s < S_ONE);
            }
            assert(c1[j].s < S_ONE);
        }
    }
    sort_by_s(chain);
    p
}

/// Number of slots at the chain's start (its most recently spawned end)
/// whose colours bias the colour of a newly spawned marble.
pub const SPAWN_HISTORY: usize = 6;

/// Chance, in percent, that a spawned marble takes a colour already present
/// among the most recent slots.
pub const SPAWN_BIAS_PERCENT: u64 = 60;

/// Colours of the marbles among the first `n` slots, in order.
pub open spec fn recent_colors(c: Seq<ChainMarble>, n: int) -> Seq<Color>
    decreases n,
{
    if n <= 0 || c.len() == 0 {
        Seq::empty()
    } else {
        let rest = recent_colors(c, n - 1);
        if n - 1 < c.len() && c[n - 1].color is Some {
            rest.push(c[n - 1].color->Some_0)
        } else {
            rest
        }
    }
}

/// Colour of a newly spawned marble, given the draws `roll` (percent),
/// `pick` and `uniform`: when the chain holds at least `SPAWN_HISTORY`
/// slots, with a roll below `SPAWN_BIAS_PERCENT`, and with a marble among
/// them, a colour of the recent marbles; otherwise a palette colour.
pub open spec fn spawn_color(c: Seq<ChainMarble>, roll: u64, pick: u64, uniform: u64) -> Color {
    let recent = recent_colors(c, SPAWN_HISTORY as int);
    if c.len() >= SPAWN_HISTORY && roll < SPAWN_BIAS_PERCENT && recent.len() > 0 {
        recent[(pick as int) % (recent.len() as int)]
    } else {
        crate::chain::color_of_index((uniform % crate::chain::PALETTE_SIZE) as int)
    }
}

proof fn lemma_recent_colors_len(c: Seq<ChainMarble>, n: int)
    ensures
        recent_colors(c, n).len() <= if n < 0 { 0 } else { n },
    decreases n,
{
    if n > 0 && c.len() > 0 {
        lemma_recent_colors_len(c, n - 1);
    }
}

/// Picks the colour of a newly spawned marble from the given draws.
pub fn spawn_color_from(chain: &Vec<ChainMarble>, roll: u64, pick: u64, uniform: u64) -> (r: Color)
    ensures
        r == spawn_color(chain@, roll, pick, uniform),
{
    let mut recent: Vec<Color> = Vec::new();
    if chain.len() > 0 {
        let mut k: usize = 0;
        while k < SPAWN_HISTORY
            invariant
                k <= SPAWN_HISTORY,
                chain@.len() > 0,
                recent@ == recent_colors(chain@, k as int),
            decreases SPAWN_HISTORY - k,
        {
            if k < chain.len() {
                if let Some(col) = chain[k].color {
                    recent.push(col);
                }
            }
            k = k + 1;
        }
    }
    proof {
        lemma_recent_colors_len(chain@, SPAWN_HISTORY as int);
    }
    if chain.len() >= SPAWN_HISTORY && roll < SPAWN_BIAS_PERCENT && recent.len() > 0 {
        recent[(pick % (recent.len() as u64)) as usize]
    } else {
        Color::from_index(uniform % crate::chain::PALETTE_SIZE)
    }
}

} // verus!
