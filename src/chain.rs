//! The chain model: marbles bound to the path, gaps, and the match resolver.
use vstd::prelude::*;

verus! {

/// One full path length in path-parameter units.
pub const S_ONE: u64 = 1_000_000;

/// The palette of marble colours.
#[derive(Clone, Copy, Debug, PartialEq, Eq, Structural)]
pub enum Color {
    Red,
    Green,
    Blue,
    Yellow,
    Purple,
}

/// Number of colours in the palette.
pub const PALETTE_SIZE: u64 = 5;

pub open spec fn color_of_index(i: int) -> Color {
    if i == 0 {
        Color::Red
    } else if i == 1 {
        Color::Green
    } else if i == 2 {
        Color::Blue
    } else if i == 3 {
        Color::Yellow
    } else {
        Color::Purple
    }
}

impl Color {
    /// The colour at position `i` of the palette.
    pub fn from_index(i: u64) -> (r: Color)
        requires
            i < PALETTE_SIZE,
        ensures
            r == color_of_index(i as int),
    {
        if i == 0 {
            Color::Red
        } else if i == 1 {
            Color::Green
        } else if i == 2 {
            Color::Blue
        } else if i == 3 {
            Color::Yellow
        } else {
            Color::Purple
        }
    }

    /// The colour's lower-case name, as clients display it.
    pub fn name(&self) -> (r: &'static str) {
        match self {
            Color::Red => "red",
            Color::Green => "green",
            Color::Blue => "blue",
            Color::Yellow => "yellow",
            Color::Purple => "purple",
        }
    }
}

/// A slot of the chain. `color == None` marks a gap: a placeholder that keeps
/// its place on the path after its marble was matched away.
#[derive(Clone, Copy, Debug, PartialEq, Eq, Structural)]
pub struct ChainMarble {
    pub id: Option<u64>,
    pub s: u64,
    pub color: Option<Color>,
}

impl ChainMarble {
    pub open spec fn is_gap(self) -> bool {
        self.color is None
    }

    /// The gap that this slot becomes when its marble is matched away.
    pub open spec fn to_gap(self) -> ChainMarble {
        ChainMarble { id: None, s: self.s, color: None }
    }
}

/// Number of marbles of colour `c` directly before index `i`, stopping at the
/// first slot of another colour or a gap.
pub open spec fn run_left(c: Seq<ChainMarble>, i: int, col: Color) -> nat
    decreases i,
{
    if 0 < i <= c.len() && c[i - 1].color == Some(col) {
        1 + run_left(c, i - 1, col)
    } else {
        0
    }
}

/// Number of marbles of colour `c` directly after index `i`, stopping at the
/// first slot of another colour or a gap.
pub open spec fn run_right(c: Seq<ChainMarble>, i: int, col: Color) -> nat
    decreases c.len() - i,
{
    if 0 <= i && i + 1 < c.len() && c[i + 1].color == Some(col) {
        1 + run_right(c, i + 1, col)
    } else {
        0
    }
}

/// The chain after resolving a match at index `i`: when the slot holds a
/// marble whose same-coloured run (bounded by other colours and gaps) has at
/// least three members, the whole run becomes gaps in place; otherwise the
/// chain is unchanged.
pub open spec fn resolved(c: Seq<ChainMarble>, i: int) -> Seq<ChainMarble> {
    if 0 <= i < c.len() && c[i].color is Some {
        let col = c[i].color->Some_0;
        let lo = i - run_left(c, i, col);
        let hi = i + run_right(c, i, col);
        if hi - lo + 1 >= 3 {
            Seq::new(c.len(), |k: int| if lo <= k <= hi { c[k].to_gap() } else { c[k] })
        } else {
            c
        }
    } else {
        c
    }
}

proof fn lemma_run_left_bound(c: Seq<ChainMarble>, i: int, col: Color)
    requires
        0 <= i <= c.len(),
    ensures
        run_left(c, i, col) <= i,
        forall|k: int| i - run_left(c, i, col) <= k < i ==> c[k].color == Some(col),
    decreases i,
{
    if 0 < i && c[i - 1].color == Some(col) {
        lemma_run_left_bound(c, i - 1, col);
    }
}

proof fn lemma_run_right_bound(c: Seq<ChainMarble>, i: int, col: Color)
    requires
        0 <= i < c.len(),
    ensures
        i + run_right(c, i, col) < c.len(),
        forall|k: int| i < k <= i + run_right(c, i, col) ==> c[k].color == Some(col),
    decreases c.len() - i,
{
    if i + 1 < c.len() && c[i + 1].color == Some(col) {
        lemma_run_right_bound(c, i + 1, col);
    }
}

/// Resolving a match never changes the chain's length, and every slot keeps
/// its path position; a slot that changes becomes a gap with neither id nor
/// colour.
pub proof fn lemma_resolve_keeps_slots(c: Seq<ChainMarble>, i: int)
    ensures
        resolved(c, i).len() == c.len(),
        forall|k: int|
            0 <= k < c.len() ==> #[trigger] resolved(c, i)[k].s == c[k].s,
        forall|k: int|
            0 <= k < c.len() && resolved(c, i)[k] != c[k] ==> (#[trigger] resolved(c, i)[k]).id
                is None && resolved(c, i)[k].color is None,
{
}

/// Resolving twice at the same index gives the same chain as resolving once.
pub proof fn lemma_resolve_idempotent(c: Seq<ChainMarble>, i: int)
    ensures
        resolved(resolved(c, i), i) == resolved(c, i),
{
    if 0 <= i < c.len() && c[i].color is Some {
        let col = c[i].color->Some_0;
        lemma_run_left_bound(c, i, col);
        lemma_run_right_bound(c, i, col);
        let lo = i - run_left(c, i, col);
        let hi = i + run_right(c, i, col);
        if hi - lo + 1 >= 3 {
            assert(resolved(c, i)[i].color is None);
        }
    }
}

/// Counts the marbles of colour `col` directly before index `i`.
fn count_left(c: &Vec<ChainMarble>, i: usize, col: Color) -> (r: usize)
    requires
        i < c.len(),
    ensures
        r == run_left(c@, i as int, col),
{
    let mut cur: usize = i;
    let mut n: usize = 0;
    while cur > 0 && c[cur - 1].color == Some(col)
        invariant
            cur <= i < c.len(),
            n == i - cur,
            run_left(c@, i as int, col) == n + run_left(c@, cur as int, col),
        decreases cur,
    {
        n = n + 1;
        cur = cur - 1;
    }
    n
}

/// Counts the marbles of colour `col` directly after index `i`.
fn count_right(c: &Vec<ChainMarble>, i: usize, col: Color) -> (r: usize)
    requires
        i < c.len(),
    ensures
        r == run_right(c@, i as int, col),
{
    let mut cur: usize = i;
    let mut n: usize = 0;
    while cur + 1 < c.len() && c[cur + 1].color == Some(col)
        invariant
            i <= cur < c.len(),
            n == cur - i,
            run_right(c@, i as int, col) == n + run_right(c@, cur as int, col),
        decreases c.len() - cur,
    {
        n = n + 1;
        cur = cur + 1;
    }
    n
}

/// Resolves a match at index `idx`: a run of at least three marbles of the
/// colour at `idx` turns into gaps in place.
pub fn try_remove_matches(chain: &mut Vec<ChainMarble>, idx: usize)
    ensures
        final(chain)@ == resolved(old(chain)@, idx as int),
{
    if idx >= chain.len() {
        return;
    }
    let col = match chain[idx].color {
        Some(col) => col,
        None => {
            return;
        },
    };
    let left = count_left(chain, idx, col);
    let right = count_right(chain, idx, col);
    proof {
        lemma_run_left_bound(chain@, idx as int, col);
        lemma_run_right_bound(chain@, idx as int, col);
    }
    if left + right + 1 >= 3 {
        let ghost c0 = chain@;
        let start = idx - left;
        let stop = idx + right + 1;
        let mut k: usize = start;
        while k < stop
            invariant
                start <= k <= stop <= c0.len(),
                chain@.len() == c0.len(),
                forall|j: int|
                    0 <= j < c0.len() ==> #[trigger] chain@[j] == if start <= j < k {
                        c0[j].to_gap()
                    } else {
                        c0[j]
                    },
            decreases stop - k,
        {
            let s = chain[k].s;
            chain.set(k, ChainMarble { id: None, s, color: None });
            k = k + 1;
        }
        assert(chain@ =~= resolved(c0, idx as int));
    }
}

/// Every slot lies before the path's end.
pub open spec fn positions_ok(c: Seq<ChainMarble>) -> bool {
    forall|k: int| 0 <= k < c.len() ==> #[trigger] c[k].s < S_ONE
}

/// The chain is in ascending order of path position.
pub open spec fn sorted_by_s(c: Seq<ChainMarble>) -> bool {
    forall|i: int, j: int| 0 <= i < j < c.len() ==> c[i].s <= c[j].s
}

/// Index at which a slot at position `s` enters the sorted chain `c`: after
/// every slot at or before `s`.
pub open spec fn is_insert_pos(c: Seq<ChainMarble>, s: u64, p: int) -> bool {
    &&& 0 <= p <= c.len()
    &&& forall|k: int| 0 <= k < p ==> #[trigger] c[k].s <= s
    &&& forall|k: int| p <= k < c.len() ==> #[trigger] c[k].s > s
}

/// Index of the first slot at or after `i` that lies beyond `s`, or the
/// chain's length when there is none.
pub open spec fn first_after(c: Seq<ChainMarble>, s: u64, i: int) -> int
    decreases c.len() - i,
{
    if i < 0 || i >= c.len() {
        c.len() as int
    } else if c[i].s > s {
        i
    } else {
        first_after(c, s, i + 1)
    }
}

/// `c` with `x` inserted after every leading slot at or before `x`'s
/// position.
pub open spec fn sorted_insert(c: Seq<ChainMarble>, x: ChainMarble) -> Seq<ChainMarble> {
    c.insert(first_after(c, x.s, 0), x)
}

/// The chain in ascending order of position, slots of equal position in
/// their former order: each slot in turn is inserted after the slots placed
/// before it at or before its position.
pub open spec fn sorted_spec(c: Seq<ChainMarble>) -> Seq<ChainMarble>
    decreases c.len(),
{
    if c.len() == 0 {
        c
    } else {
        sorted_insert(sorted_spec(c.drop_last()), c.last())
    }
}

/// Finds where a slot at position `s` enters the chain: before the first
/// slot beyond `s`.
pub fn insert_position(c: &Vec<ChainMarble>, s: u64) -> (p: usize)
    ensures
        p == first_after(c@, s, 0),
        sorted_by_s(c@) ==> is_insert_pos(c@, s, p as int),
{
    let mut p: usize = 0;
    while p < c.len() && c[p].s <= s
        invariant
            p <= c.len(),
            forall|k: int| 0 <= k < p ==> #[trigger] c@[k].s <= s,
            first_after(c@, s, 0) == first_after(c@, s, p as int),
        decreases c.len() - p,
    {
        p = p + 1;
    }
    p
}

/// Puts the chain in ascending order of path position, keeping slots of
/// equal position in their former order.
pub fn sort_by_s(chain: &mut Vec<ChainMarble>)
    ensures
        final(chain)@ == sorted_spec(old(chain)@),
        sorted_by_s(final(chain)@),
        final(chain)@.to_multiset() == old(chain)@.to_multiset(),
        positions_ok(old(chain)@) ==> positions_ok(final(chain)@),
{
    broadcast use vstd::seq_lib::group_to_multiset_ensures;

    let ghost c0 = chain@;
    let mut out: Vec<ChainMarble> = Vec::new();
    let mut i: usize = 0;
    while i < chain.len()
        invariant
            chain@ == c0,
            i <= c0.len(),
            sorted_by_s(out@),
            out@.to_multiset() == c0.take(i as int).to_multiset(),
            out@ == sorted_spec(c0.take(i as int)),
        decreases c0.len() - i,
    {
        let x = chain[i];
        let p = insert_position(&out, x.s);
        let ghost before = out@;
        out.insert(p, x);
        proof {
            assert(c0.take(i + 1) == c0.take(i as int).push(x));
            assert(c0.take(i + 1).drop_last() == c0.take(i as int));
            vstd::seq_lib::to_multiset_insert(before, p as int, x);
            vstd::seq_lib::to_multiset_build(c0.take(i as int), x);
            assert forall|a: int, b: int| 0 <= a < b < out@.len() implies out@[a].s <= out@[b].s by {
                if a < p && b > p {
                    assert(before[a].s <= before[b - 1].s);
                } else if b < p {
                } else if a > p {
                    assert(before[a - 1].s <= before[b - 1].s);
                } else if a == p {
                    assert(out@[b] == before[b - 1]);
                } else {
                    assert(out@[a] == before[a]);
                }
            }
        }
        i = i + 1;
    }
    assert(c0.take(c0.len() as int) == c0);
    proof {
        if positions_ok(c0) {
            assert forall|k: int| 0 <= k < out@.len() implies #[trigger] out@[k].s < S_ONE by {
                vstd::seq_lib::to_multiset_contains(out@, out@[k]);
                vstd::seq_lib::to_multiset_contains(c0, out@[k]);
                assert(out@.contains(out@[k]));
            }
        }
    }
    *chain = out;
}

/// Every slot moved `delta` further along the path.
pub open spec fn advanced(c: Seq<ChainMarble>, delta: int) -> Seq<ChainMarble> {
    Seq::new(c.len(), |k: int| ChainMarble { s: (c[k].s + delta) as u64, ..c[k] })
}

/// The slots that have not yet reached the path's end, in order.
pub open spec fn before_end(c: Seq<ChainMarble>) -> Seq<ChainMarble>
    decreases c.len(),
{
    if c.len() == 0 {
        c
    } else {
        let rest = before_end(c.drop_last());
        if c.last().s < S_ONE {
            rest.push(c.last())
        } else {
            rest
        }
    }
}

proof fn lemma_before_end_positions(c: Seq<ChainMarble>)
    ensures
        forall|k: int| 0 <= k < before_end(c).len() ==> #[trigger] before_end(c)[k].s < S_ONE,
        before_end(c).len() <= c.len(),
    decreases c.len(),
{
    if c.len() > 0 {
        lemma_before_end_positions(c.drop_last());
    }
}

/// Moves every slot, gaps included, `delta` along the path, then drops the
/// slots that reached the path's end.
pub fn advance_chain(chain: &mut Vec<ChainMarble>, delta: u64)
    requires
        positions_ok(old(chain)@),
        delta <= u64::MAX - S_ONE,
    ensures
        final(chain)@ == before_end(advanced(old(chain)@, delta as int)),
        forall|k: int| 0 <= k < final(chain)@.len() ==> #[trigger] final(chain)@[k].s < S_ONE,
{
    let ghost c0 = chain@;
    let ghost moved = advanced(c0, delta as int);
    let mut out: Vec<ChainMarble> = Vec::new();
    let mut i: usize = 0;
    while i < chain.len()
        invariant
            chain@ == c0,
            i <= c0.len(),
            moved == advanced(c0, delta as int),
            delta <= u64::MAX - S_ONE,
            positions_ok(c0),
            out@ == before_end(moved.take(i as int)),
        decreases c0.len() - i,
    {
        let x = chain[i];
        let y = ChainMarble { id: x.id, s: x.s + delta, color: x.color };
        proof {
            assert(moved.take(i + 1).drop_last() == moved.take(i as int));
            assert(moved.take(i + 1).last() == y);
        }
        if y.s < S_ONE {
            out.push(y);
        }
        i = i + 1;
    }
    assert(moved.take(c0.len() as int) == moved);
    proof {
        lemma_before_end_positions(moved);
    }
    *chain = out;
}

} // verus!
