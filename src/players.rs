//! Players, their reconnect tokens, and where newcomers stand.
use vstd::prelude::*;
use crate::chain::Color;

verus! {

/// Unit of an aim direction: `(AIM_SCALE, 0)` points along `x`.
pub const AIM_SCALE: i64 = 1000;

/// Distance of the first two players from the centre, in micrometres.
pub const PLAYER_OFFSET: i64 = 2_000_000;

/// Bound of a player's coordinates, in micrometres.
pub const PLAYER_LIMIT: i64 = 10_000_000;

/// Number of directions in which players after the second are placed.
pub const SPAWN_DIRECTIONS: u64 = 8;

/// A player as clients see it. Coordinates in micrometres, yaw in
/// milliradians.
#[derive(Clone, Copy, Debug, PartialEq, Eq, Structural)]
pub struct Player {
    pub id: u64,
    pub x: i64,
    pub y: i64,
    pub z: i64,
    pub yaw: i64,
    pub loaded_color: Color,
    pub next_color: Color,
}

/// A player's record, kept under its reconnect token across disconnects.
/// `(aim_x, aim_z)` is the aim direction in units of `AIM_SCALE`; `addr` is
/// the endpoint the player is connected through.
#[derive(Debug)]
pub struct PersistentPlayer {
    pub token: String,
    pub id: u64,
    pub x: i64,
    pub y: i64,
    pub z: i64,
    pub yaw: i64,
    pub aim_x: i64,
    pub aim_z: i64,
    pub loaded_color: Color,
    pub next_color: Color,
    pub connected: bool,
    pub addr: Option<u64>,
}

pub open spec fn player_of(r: PersistentPlayer) -> Player {
    Player {
        id: r.id,
        x: r.x,
        y: r.y,
        z: r.z,
        yaw: r.yaw,
        loaded_color: r.loaded_color,
        next_color: r.next_color,
    }
}

pub open spec fn record_ok(r: PersistentPlayer) -> bool {
    &&& -PLAYER_LIMIT <= r.x <= PLAYER_LIMIT
    &&& -PLAYER_LIMIT <= r.y <= PLAYER_LIMIT
    &&& -PLAYER_LIMIT <= r.z <= PLAYER_LIMIT
    &&& -AIM_SCALE <= r.aim_x <= AIM_SCALE
    &&& -AIM_SCALE <= r.aim_z <= AIM_SCALE
    &&& r.connected <==> r.addr is Some
}

/// Every record is in bounds, no two share a token, and no two are bound to
/// one endpoint.
pub open spec fn roster_ok(ps: Seq<PersistentPlayer>) -> bool {
    &&& forall|i: int| 0 <= i < ps.len() ==> record_ok(#[trigger] ps[i])
    &&& forall|i: int, j: int| 0 <= i < j < ps.len() ==> ps[i].token@ != ps[j].token@
    &&& forall|i: int, j: int|
        0 <= i < j < ps.len() && ps[i].addr is Some ==> ps[i].addr != ps[j].addr
}

/// Index of the first record at or after `i` with token `t`.
pub open spec fn find_token(ps: Seq<PersistentPlayer>, t: Seq<char>, i: int) -> Option<int>
    decreases ps.len() - i,
{
    if i < 0 || i >= ps.len() {
        None
    } else if ps[i].token@ == t {
        Some(i)
    } else {
        find_token(ps, t, i + 1)
    }
}

/// Index of the first record at or after `i` bound to endpoint `ep`.
pub open spec fn find_addr(ps: Seq<PersistentPlayer>, ep: u64, i: int) -> Option<int>
    decreases ps.len() - i,
{
    if i < 0 || i >= ps.len() {
        None
    } else if ps[i].addr == Some(ep) {
        Some(i)
    } else {
        find_addr(ps, ep, i + 1)
    }
}

/// Number of connected records among the first `n`.
pub open spec fn count_connected(ps: Seq<PersistentPlayer>, n: int) -> nat
    decreases n,
{
    if n <= 0 || n > ps.len() {
        0
    } else {
        count_connected(ps, n - 1) + if ps[n - 1].connected {
            1nat
        } else {
            0nat
        }
    }
}

/// The record with its endpoint binding released.
pub open spec fn unlinked(r: PersistentPlayer) -> PersistentPlayer {
    PersistentPlayer { connected: false, addr: None, ..r }
}

/// The record bound to endpoint `ep`.
pub open spec fn linked(r: PersistentPlayer, ep: u64) -> PersistentPlayer {
    PersistentPlayer { connected: true, addr: Some(ep), ..r }
}

/// The roster after endpoint `ep` went away: every record bound to it is
/// marked disconnected; identities stay under their tokens.
pub open spec fn disconnected(ps: Seq<PersistentPlayer>, ep: u64) -> Seq<PersistentPlayer> {
    Seq::new(ps.len(), |i: int| if ps[i].addr == Some(ep) { unlinked(ps[i]) } else { ps[i] })
}

/// Direction `i` of the eight in which later players are placed, in units
/// of `AIM_SCALE`.
pub open spec fn spawn_direction(i: int) -> (int, int) {
    if i == 0 {
        (0, 1000)
    } else if i == 1 {
        (707, 707)
    } else if i == 2 {
        (1000, 0)
    } else if i == 3 {
        (707, -707)
    } else if i == 4 {
        (0, -1000)
    } else if i == 5 {
        (-707, -707)
    } else if i == 6 {
        (-1000, 0)
    } else {
        (-707, 707)
    }
}

/// `r * d / AIM_SCALE`, rounded toward zero.
pub open spec fn scaled(r: int, d: int) -> int {
    if d >= 0 {
        r * d / 1000
    } else {
        -(r * (-d) / 1000)
    }
}

/// Where a new player stands when `count` players are connected: the first
/// on the left, the second on the right, each later one on a ring beyond
/// them, at a radius given by the draw `draw` and a direction given by its
/// id.
pub open spec fn spawn_position(count: int, id: u64, draw: u64) -> (int, int) {
    if count == 0 {
        (-PLAYER_OFFSET as int, 0)
    } else if count == 1 {
        (PLAYER_OFFSET as int, 0)
    } else {
        let r = PLAYER_OFFSET + 1 + (draw % (PLAYER_OFFSET as u64)) as int;
        let d = spawn_direction((id % SPAWN_DIRECTIONS) as int);
        (scaled(r, d.0), scaled(r, d.1))
    }
}

/// The first player to join stands at `(-PLAYER_OFFSET, 0)`, the second at
/// `(PLAYER_OFFSET, 0)`, and every later one somewhere else than both.
pub proof fn lemma_spawn_positions(id: u64, draw: u64, count: int)
    ensures
        spawn_position(0, id, draw) == (-PLAYER_OFFSET as int, 0int),
        spawn_position(1, id, draw) == (PLAYER_OFFSET as int, 0int),
        count >= 2 ==> spawn_position(count, id, draw) != (-PLAYER_OFFSET as int, 0int),
        count >= 2 ==> spawn_position(count, id, draw) != (PLAYER_OFFSET as int, 0int),
{
    if count >= 2 {
        let r = PLAYER_OFFSET + 1 + (draw % (PLAYER_OFFSET as u64)) as int;
        assert(r > PLAYER_OFFSET);
        assert(r * 707 / 1000 > 0) by (nonlinear_arith)
            requires
                r > 2_000_000,
        ;
        assert(r * 1000 / 1000 == r) by (nonlinear_arith);
    }
}

fn scale_coord(r: i64, d: i64) -> (v: i64)
    requires
        0 <= r <= 4 * PLAYER_OFFSET,
        -1000 <= d <= 1000,
    ensures
        v == scaled(r as int, d as int),
        -4 * PLAYER_OFFSET <= v <= 4 * PLAYER_OFFSET,
{
    if d >= 0 {
        assert(0 <= r * d <= 4 * PLAYER_OFFSET * 1000) by (nonlinear_arith)
            requires
                0 <= r <= 4 * PLAYER_OFFSET,
                0 <= d <= 1000,
        ;
        r * d / 1000
    } else {
        assert(0 <= r * (-d) <= 4 * PLAYER_OFFSET * 1000) by (nonlinear_arith)
            requires
                0 <= r <= 4 * PLAYER_OFFSET,
                -1000 <= d < 0,
        ;
        -(r * (-d) / 1000)
    }
}

/// Computes `spawn_position`.
pub fn spawn_position_for(count: usize, id: u64, draw: u64) -> (r: (i64, i64))
    ensures
        (r.0 as int, r.1 as int) == spawn_position(count as int, id, draw),
        -PLAYER_LIMIT <= r.0 <= PLAYER_LIMIT,
        -PLAYER_LIMIT <= r.1 <= PLAYER_LIMIT,
{
    if count == 0 {
        (-PLAYER_OFFSET, 0)
    } else if count == 1 {
        (PLAYER_OFFSET, 0)
    } else {
        let r = PLAYER_OFFSET + 1 + (draw % (PLAYER_OFFSET as u64)) as i64;
        let i = id % SPAWN_DIRECTIONS;
        let (dx, dz): (i64, i64) = if i == 0 {
            (0, 1000)
        } else if i == 1 {
            (707, 707)
        } else if i == 2 {
            (1000, 0)
        } else if i == 3 {
            (707, -707)
        } else if i == 4 {
            (0, -1000)
        } else if i == 5 {
            (-707, -707)
        } else if i == 6 {
            (-1000, 0)
        } else {
            (-707, 707)
        };
        (scale_coord(r, dx), scale_coord(r, dz))
    }
}

/// A copy of `r` with the given aim, colours and binding.
pub fn restated(
    r: &PersistentPlayer,
    yaw: i64,
    aim_x: i64,
    aim_z: i64,
    loaded_color: Color,
    next_color: Color,
    connected: bool,
    addr: Option<u64>,
) -> (o: PersistentPlayer)
    ensures
        o == (PersistentPlayer {
            yaw,
            aim_x,
            aim_z,
            loaded_color,
            next_color,
            connected,
            addr,
            ..*r
        }),
{
    PersistentPlayer {
        token: r.token.clone(),
        id: r.id,
        x: r.x,
        y: r.y,
        z: r.z,
        yaw,
        aim_x,
        aim_z,
        loaded_color,
        next_color,
        connected,
        addr,
    }
}

/// Finds the record with token `t`.
pub fn find_by_token(ps: &Vec<PersistentPlayer>, t: &String) -> (r: Option<usize>)
    ensures
        r is None <==> find_token(ps@, t@, 0) is None,
        r matches Some(i) ==> find_token(ps@, t@, 0) == Some(i as int),
{
    let mut i: usize = 0;
    while i < ps.len()
        invariant
            i <= ps@.len(),
            find_token(ps@, t@, 0) == find_token(ps@, t@, i as int),
        decreases ps@.len() - i,
    {
        if ps[i].token == *t {
            return Some(i);
        }
        i = i + 1;
    }
    None
}

/// Finds the record bound to endpoint `ep`.
pub fn find_by_addr(ps: &Vec<PersistentPlayer>, ep: u64) -> (r: Option<usize>)
    ensures
        r is None <==> find_addr(ps@, ep, 0) is None,
        r matches Some(i) ==> find_addr(ps@, ep, 0) == Some(i as int),
{
    let mut i: usize = 0;
    while i < ps.len()
        invariant
            i <= ps@.len(),
            find_addr(ps@, ep, 0) == find_addr(ps@, ep, i as int),
        decreases ps@.len() - i,
    {
        if ps[i].addr == Some(ep) {
            return Some(i);
        }
        i = i + 1;
    }
    None
}

pub(crate) proof fn lemma_find_addr_found(ps: Seq<PersistentPlayer>, ep: u64, i: int)
    requires
        0 <= i,
    ensures
        find_addr(ps, ep, i) matches Some(j) ==> i <= j < ps.len() && ps[j].addr == Some(ep),
        find_addr(ps, ep, i) is None ==> forall|j: int| i <= j < ps.len() ==> ps[j].addr != Some(ep),
    decreases ps.len() - i,
{
    if i < ps.len() && ps[i].addr != Some(ep) {
        lemma_find_addr_found(ps, ep, i + 1);
    }
}

pub(crate) proof fn lemma_find_token_found(ps: Seq<PersistentPlayer>, t: Seq<char>, i: int)
    requires
        0 <= i,
    ensures
        find_token(ps, t, i) matches Some(j) ==> i <= j < ps.len() && ps[j].token@ == t,
        find_token(ps, t, i) is None ==> forall|j: int| i <= j < ps.len() ==> ps[j].token@ != t,
    decreases ps.len() - i,
{
    if i < ps.len() && ps[i].token@ != t {
        lemma_find_token_found(ps, t, i + 1);
    }
}

/// Counts the connected records.
pub fn connected_count(ps: &Vec<PersistentPlayer>) -> (r: usize)
    ensures
        r == count_connected(ps@, ps@.len() as int),
{
    let mut i: usize = 0;
    let mut n: usize = 0;
    while i < ps.len()
        invariant
            i <= ps@.len(),
            n == count_connected(ps@, i as int),
            n <= i,
        decreases ps@.len() - i,
    {
        if ps[i].connected {
            n = n + 1;
        }
        i = i + 1;
    }
    n
}

/// Releases every record bound to endpoint `ep`.
pub fn disconnect_endpoint(ps: &mut Vec<PersistentPlayer>, ep: u64)
    ensures
        final(ps)@ == disconnected(old(ps)@, ep),
{
    let ghost prior = ps@;
    let mut i: usize = 0;
    while i < ps.len()
        invariant
            i <= ps@.len(),
            ps@.len() == prior.len(),
            forall|j: int|
                0 <= j < prior.len() ==> #[trigger] ps@[j] == if j < i {
                    disconnected(prior, ep)[j]
                } else {
                    prior[j]
                },
        decreases ps@.len() - i,
    {
        if ps[i].addr == Some(ep) {
            let r = restated(
                &ps[i],
                ps[i].yaw,
                ps[i].aim_x,
                ps[i].aim_z,
                ps[i].loaded_color,
                ps[i].next_color,
                false,
                None,
            );
            ps.set(i, r);
        }
        i = i + 1;
    }
    assert(ps@ =~= disconnected(prior, ep));
}

/// Releasing an endpoint keeps the roster well formed.
pub proof fn lemma_disconnected_ok(ps: Seq<PersistentPlayer>, ep: u64)
    requires
        roster_ok(ps),
    ensures
        roster_ok(disconnected(ps, ep)),
        find_addr(disconnected(ps, ep), ep, 0) is None,
        forall|i: int|
            0 <= i < ps.len() ==> #[trigger] player_of(disconnected(ps, ep)[i]) == player_of(ps[i])
                && disconnected(ps, ep)[i].token@ == ps[i].token@,
{
    let d = disconnected(ps, ep);
    assert forall|i: int| 0 <= i < d.len() implies record_ok(#[trigger] d[i]) by {
        assert(record_ok(ps[i]));
    }
    lemma_find_addr_found(d, ep, 0);
}

/// Reconnecting restores the player: after the endpoint that a record was
/// bound to goes away, and after the endpoint of the reconnect is released
/// from any other record, the record found under its token has the same id,
/// position, aim and colours as before.
pub proof fn lemma_reconnect_restores(ps: Seq<PersistentPlayer>, t: Seq<char>, old_ep: u64, new_ep: u64)
    requires
        roster_ok(ps),
        find_token(ps, t, 0) is Some,
    ensures
        ({
            let later = disconnected(disconnected(ps, old_ep), new_ep);
            let i = find_token(ps, t, 0)->Some_0;
            &&& find_token(later, t, 0) == Some(i)
            &&& player_of(later[i]) == player_of(ps[i])
        }),
{
    let later = disconnected(disconnected(ps, old_ep), new_ep);
    lemma_find_token_found(ps, t, 0);
    lemma_token_search_same(ps, later, t, 0);
}

proof fn lemma_token_search_same(a: Seq<PersistentPlayer>, b: Seq<PersistentPlayer>, t: Seq<char>, i: int)
    requires
        a.len() == b.len(),
        forall|j: int| 0 <= j < a.len() ==> #[trigger] a[j].token@ == b[j].token@,
    ensures
        find_token(a, t, i) == find_token(b, t, i),
    decreases a.len() - i,
{
    if 0 <= i < a.len() && a[i].token@ != t {
        lemma_token_search_same(a, b, t, i + 1);
    }
}

/// Makes `tok` unused in the roster: it is kept when no record has it;
/// otherwise dashes are appended until it is longer than every token there.
pub fn fresh_token(ps: &Vec<PersistentPlayer>, tok: String) -> (r: String)
    ensures
        find_token(ps@, r@, 0) is None,
        find_token(ps@, tok@, 0) is None ==> r@ == tok@,
        r@.len() >= tok@.len(),
        r@.subrange(0, tok@.len() as int) == tok@,
{
    if find_by_token(ps, &tok).is_none() {
        assert(tok@.subrange(0, tok@.len() as int) =~= tok@);
        return tok;
    }
    let mut longest: usize = 0;
    let mut i: usize = 0;
    while i < ps.len()
        invariant
            i <= ps@.len(),
            forall|j: int| 0 <= j < i ==> ps@[j].token@.len() <= longest,
        decreases ps@.len() - i,
    {
        let n = ps[i].token.as_str().unicode_len();
        if n > longest {
            longest = n;
        }
        i = i + 1;
    }
    let ghost tok0 = tok@;
    let mut r = tok;
    let mut n: u128 = r.as_str().unicode_len() as u128;
    let limit: u128 = longest as u128;
    proof {
        reveal_strlit("-");
    }
    assert(r@.subrange(0, tok0.len() as int) =~= tok0);
    while n <= limit
        invariant
            n == r@.len(),
            r@.len() >= tok0.len(),
            r@.subrange(0, tok0.len() as int) == tok0,
            limit == longest,
            longest <= usize::MAX,
            forall|j: int| 0 <= j < ps@.len() ==> ps@[j].token@.len() <= longest,
            "-"@.len() == 1,
        decreases limit + 1 - n,
    {
        let ghost before = r@;
        r.append("-");
        assert(r@.subrange(0, tok0.len() as int) =~= before.subrange(0, tok0.len() as int));
        n = n + 1;
    }
    proof {
        lemma_find_token_found(ps@, r@, 0);
        if find_token(ps@, r@, 0) is Some {
            let j = find_token(ps@, r@, 0)->Some_0;
            assert(ps@[j].token@.len() <= longest);
        }
    }
    r
}

} // verus!
