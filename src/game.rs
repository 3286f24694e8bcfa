//! The simulation instance of one room and its fixed-step tick.
use vstd::prelude::*;
use crate::chain::{
    advance_chain, advanced, before_end, positions_ok, sorted_spec, sort_by_s, sorted_by_s, ChainMarble, Color, PALETTE_SIZE, S_ONE,
};
use crate::engine::{after_insert, collision_choice, find_collision_index, insert_into_chain, spawn_color_from, Marble, WORLD_LIMIT};
use crate::engine::SPAWN_HISTORY;
use crate::path::{bezier_point, Path, CURVE_STEPS};
use crate::players::{
    connected_count, count_connected, disconnect_endpoint, disconnected, find_addr, find_by_addr,
    find_by_token, find_token, lemma_disconnected_ok, linked, player_of, restated, roster_ok,
    fresh_token, spawn_position, spawn_position_for, PersistentPlayer, Player, AIM_SCALE,
};
use crate::random::{random_below, random_bits};
use crate::text::{hex32, hex_fixed};
use crate::spacing::{equalize_chain_spacing, equalized};

verus! {

/// Diameter of a marble, in micrometres.
pub const MARBLE_DIAMETER: u64 = 600_000;

/// Arc length between neighbouring marbles of a run: the diameter and 2%.
pub const SPACING_LENGTH: u64 = 612_000;

/// Time between two spawned chain marbles, in milliseconds.
pub const SPAWN_INTERVAL_MS: u64 = 600;

/// Chain speed, in path-parameter units per millisecond (3% of the path per
/// second).
pub const CHAIN_SPEED: u64 = 30;

/// Longest time step a tick accepts, in milliseconds.
pub const MAX_TICK_MS: u64 = 60_000;

/// Largest speed component of a projectile, in micrometres per millisecond.
pub const MAX_SPEED: i64 = 8_000;

/// Longest spawn interval, in milliseconds.
pub const MAX_SPAWN_INTERVAL_MS: u64 = 3_600_000;

/// Lowest height a projectile may reach before it is dropped.
pub const FLOOR_LIMIT: i64 = -50_000_000;

/// Number of marbles on the chain when a room starts.
pub const INITIAL_CHAIN_LEN: u64 = 30;

/// A projectile within the bounds that keep its arithmetic exact.
pub open spec fn marble_ok(m: Marble) -> bool {
    &&& -WORLD_LIMIT <= m.x <= WORLD_LIMIT
    &&& FLOOR_LIMIT <= m.y <= WORLD_LIMIT
    &&& -WORLD_LIMIT <= m.z <= WORLD_LIMIT
    &&& -MAX_SPEED <= m.vx <= MAX_SPEED
    &&& -MAX_SPEED <= m.vy <= MAX_SPEED
    &&& -MAX_SPEED <= m.vz <= MAX_SPEED
    &&& m.life > -(MAX_TICK_MS as int)
}

pub open spec fn marbles_ok(ms: Seq<Marble>) -> bool {
    forall|k: int| 0 <= k < ms.len() ==> marble_ok(#[trigger] ms[k])
}

/// A projectile after `dt` milliseconds of flight.
pub open spec fn flown(m: Marble, dt: int) -> Marble {
    Marble {
        x: (m.x + m.vx * dt) as i64,
        y: (m.y + m.vy * dt) as i64,
        z: (m.z + m.vz * dt) as i64,
        life: (m.life - dt) as i64,
        ..m
    }
}

/// A projectile stays in play while it has life left and is inside the
/// bounding box.
pub open spec fn in_play(m: Marble) -> bool {
    &&& m.life > 0
    &&& -WORLD_LIMIT < m.x < WORLD_LIMIT
    &&& FLOOR_LIMIT < m.y < WORLD_LIMIT
    &&& -WORLD_LIMIT < m.z < WORLD_LIMIT
}

/// The projectiles after `dt` milliseconds of flight that are still in
/// play, in order.
pub open spec fn survivors(ms: Seq<Marble>, dt: int) -> Seq<Marble>
    decreases ms.len(),
{
    if ms.len() == 0 {
        ms
    } else {
        let rest = survivors(ms.drop_last(), dt);
        if in_play(flown(ms.last(), dt)) {
            rest.push(flown(ms.last(), dt))
        } else {
            rest
        }
    }
}

proof fn lemma_survivors_in_play(ms: Seq<Marble>, dt: int)
    requires
        marbles_ok(ms),
    ensures
        forall|k: int|
            0 <= k < survivors(ms, dt).len() ==> in_play(#[trigger] survivors(ms, dt)[k]),
        marbles_ok(survivors(ms, dt)),
    decreases ms.len(),
{
    if ms.len() > 0 {
        lemma_survivors_in_play(ms.drop_last(), dt);
        let rest = survivors(ms.drop_last(), dt);
        assert forall|k: int|
            0 <= k < survivors(ms, dt).len() implies in_play(#[trigger] survivors(ms, dt)[k]) by {
            if k < rest.len() {
                assert(survivors(ms, dt)[k] == rest[k]);
            }
        }
        assert(marble_ok(ms.last()));
        assert forall|k: int|
            0 <= k < survivors(ms, dt).len() implies marble_ok(#[trigger] survivors(ms, dt)[k]) by {
            if k < rest.len() {
                assert(survivors(ms, dt)[k] == rest[k]);
            }
        }
    }
}

/// Moves every projectile by its velocity over `dt` milliseconds, ages it,
/// and drops those whose life ran out or that left the bounding box.
pub fn fly_marbles(marbles: &mut Vec<Marble>, dt: u64)
    requires
        marbles_ok(old(marbles)@),
        dt <= MAX_TICK_MS,
    ensures
        final(marbles)@ == survivors(old(marbles)@, dt as int),
        forall|k: int| 0 <= k < final(marbles)@.len() ==> in_play(#[trigger] final(marbles)@[k]),
        marbles_ok(final(marbles)@),
{
    let ghost m0 = marbles@;
    let d = dt as i64;
    let mut out: Vec<Marble> = Vec::new();
    let mut i: usize = 0;
    while i < marbles.len()
        invariant
            marbles@ == m0,
            i <= m0.len(),
            marbles_ok(m0),
            d == dt,
            dt <= MAX_TICK_MS,
            out@ == survivors(m0.take(i as int), dt as int),
        decreases m0.len() - i,
    {
        let m = marbles[i];
        assert(marble_ok(m0[i as int]));
        assert(-MAX_SPEED * MAX_TICK_MS <= m.vx * d <= MAX_SPEED * MAX_TICK_MS) by (nonlinear_arith)
            requires
                -MAX_SPEED <= m.vx <= MAX_SPEED,
                0 <= d <= MAX_TICK_MS,
        ;
        assert(-MAX_SPEED * MAX_TICK_MS <= m.vy * d <= MAX_SPEED * MAX_TICK_MS) by (nonlinear_arith)
            requires
                -MAX_SPEED <= m.vy <= MAX_SPEED,
                0 <= d <= MAX_TICK_MS,
        ;
        assert(-MAX_SPEED * MAX_TICK_MS <= m.vz * d <= MAX_SPEED * MAX_TICK_MS) by (nonlinear_arith)
            requires
                -MAX_SPEED <= m.vz <= MAX_SPEED,
                0 <= d <= MAX_TICK_MS,
        ;
        let f = Marble {
            id: m.id,
            x: m.x + m.vx * d,
            y: m.y + m.vy * d,
            z: m.z + m.vz * d,
            vx: m.vx,
            vy: m.vy,
            vz: m.vz,
            life: m.life - d,
            color: m.color,
            owner: m.owner,
        };
        proof {
            assert(m0.take(i + 1).drop_last() == m0.take(i as int));
            assert(m0.take(i + 1).last() == m);
            assert(f == flown(m, dt as int));
        }
        if f.life > 0 && -WORLD_LIMIT < f.x && f.x < WORLD_LIMIT && FLOOR_LIMIT < f.y && f.y
            < WORLD_LIMIT && -WORLD_LIMIT < f.z && f.z < WORLD_LIMIT {
            out.push(f);
        }
        i = i + 1;
    }
    assert(m0.take(m0.len() as int) == m0);
    proof {
        lemma_survivors_in_play(m0, dt as int);
    }
    *marbles = out;
}

/// Control points of the horseshoe-shaped default path, in micrometres:
/// from `(-8, 6)` through `(-8, -4)` and `(8, -4)` to `(8, 6)` metres.
pub open spec fn horseshoe() -> [(i64, i64); 4] {
    [
        (-8_000_000i64, 6_000_000i64),
        (-8_000_000i64, -4_000_000i64),
        (8_000_000i64, -4_000_000i64),
        (8_000_000i64, 6_000_000i64),
    ]
}

/// The state of one room: its path, the chain on it, the projectiles in
/// flight and the players.
pub struct GameState {
    pub path: Path,
    pub chain: Vec<ChainMarble>,
    pub marbles: Vec<Marble>,
    pub players: Vec<PersistentPlayer>,
    pub spawn_accum: u64,
    pub spawn_interval: u64,
    pub spacing_length: u64,
    pub next_player_id: u64,
    pub next_marble_id: u64,
}

/// `a + j`, wrapping around at 2^64.
pub open spec fn wrap_add(a: u64, j: int) -> u64 {
    ((a + j) % 0x1_0000_0000_0000_0000) as u64
}

proof fn lemma_wrap_step(a: u64, j: int)
    requires
        j >= 0,
    ensures
        wrap_add(a, j).wrapping_add(1) == wrap_add(a, j + 1),
{
    let m = 0x1_0000_0000_0000_0000int;
    let x = (a + j) % m;
    vstd::arithmetic::div_mod::lemma_mod_bound(a + j, m);
    vstd::arithmetic::div_mod::lemma_add_mod_noop(a + j, 1, m);
    vstd::arithmetic::div_mod::lemma_small_mod(1, m as nat);
    if x + 1 < m {
        vstd::arithmetic::div_mod::lemma_small_mod((x + 1) as nat, m as nat);
    } else {
        vstd::arithmetic::div_mod::lemma_mod_self_0(m);
    }
}

/// The marbles a spawn step appends: `count` marbles at the path's start,
/// each with a colour, numbered on from `first_id`.
pub open spec fn spawn_batch(spawned: Seq<ChainMarble>, first_id: u64, count: int) -> bool {
    &&& spawned.len() == count
    &&& forall|j: int|
        0 <= j < count ==> (#[trigger] spawned[j]).s == 0 && spawned[j].id == Some(
            wrap_add(first_id, j),
        ) && spawned[j].color is Some
}

/// The chain after the steps of a tick that precede collisions: the
/// `spawned` marbles are appended, every slot advances by `delta` and those
/// that reach the path's end are dropped, the chain is ordered, re-spaced
/// and ordered again.
pub open spec fn prepared_chain(
    before: Seq<ChainMarble>,
    spawned: Seq<ChainMarble>,
    delta: int,
    total: int,
    spacing: int,
) -> Seq<ChainMarble> {
    sorted_spec(equalized(total, sorted_spec(before_end(advanced(before + spawned, delta))), spacing))
}

/// A projectile at `(m.x, m.z)` misses the chain `c` although a marble is
/// within reach when the slot right ahead of the chosen marble is a gap.
pub open spec fn gap_ahead(c: Seq<ChainMarble>, j: int) -> bool {
    j + 1 < c.len() && c[j + 1].color is None
}

/// The projectiles the collision step keeps are within bounds when those in
/// flight were.
proof fn lemma_collide_keeps(path: &Path, spacing: int, c: Seq<ChainMarble>, ms: Seq<Marble>, i: int)
    requires
        0 <= i,
        marbles_ok(ms),
    ensures
        marbles_ok(collide_from(path, spacing, c, ms, i).1),
    decreases ms.len() - i,
{
    if i < ms.len() {
        let m = ms[i];
        let choice = collision_choice(path, c, m.x, m.z);
        if choice is Some && !gap_ahead(c, choice->Some_0) {
            lemma_collide_keeps(
                path,
                spacing,
                after_insert(path.total as int, spacing, c, m.id, m.color, choice->Some_0),
                ms,
                i + 1,
            );
        } else {
            lemma_collide_keeps(path, spacing, c, ms, i + 1);
            let rest = collide_from(path, spacing, c, ms, i + 1);
            let all = collide_from(path, spacing, c, ms, i).1;
            assert(all == seq![m] + rest.1);
            assert forall|k: int| 0 <= k < all.len() implies marble_ok(#[trigger] all[k]) by {
                if k == 0 {
                    assert(marble_ok(ms[i]));
                } else {
                    assert(all[k] == rest.1[k - 1]);
                }
            }
        }
    }
}

/// The collision step over the projectiles from index `i` on, taken in
/// order: each one that a chain marble captures (without a gap right ahead
/// of that marble) is spliced into the chain and leaves flight; the others
/// stay in flight, in order. Gives the final chain and the projectiles that
/// stay.
pub open spec fn collide_from(
    path: &Path,
    spacing: int,
    c: Seq<ChainMarble>,
    ms: Seq<Marble>,
    i: int,
) -> (Seq<ChainMarble>, Seq<Marble>)
    decreases ms.len() - i,
{
    if i < 0 || i >= ms.len() {
        (c, Seq::empty())
    } else {
        let m = ms[i];
        let choice = collision_choice(path, c, m.x, m.z);
        if choice is Some && !gap_ahead(c, choice->Some_0) {
            collide_from(
                path,
                spacing,
                after_insert(path.total as int, spacing, c, m.id, m.color, choice->Some_0),
                ms,
                i + 1,
            )
        } else {
            let rest = collide_from(path, spacing, c, ms, i + 1);
            (rest.0, seq![m] + rest.1)
        }
    }
}

impl GameState {
    pub open spec fn wf(&self) -> bool {
        &&& self.path.wf()
        &&& positions_ok(self.chain@)
        &&& sorted_by_s(self.chain@)
        &&& marbles_ok(self.marbles@)
        &&& roster_ok(self.players@)
        &&& 0 < self.spawn_interval <= MAX_SPAWN_INTERVAL_MS
        &&& self.spawn_accum < self.spawn_interval
    }

    /// Adds `dt` to the spawn timer and appends one marble at the path's
    /// start for each full spawn interval in it.
    fn spawn_marbles(&mut self, dt: u64)
        requires
            0 < old(self).spawn_interval <= MAX_SPAWN_INTERVAL_MS,
            old(self).spawn_accum < old(self).spawn_interval,
            dt <= MAX_TICK_MS,
        ensures
            spawn_batch(
                final(self).chain@.skip(old(self).chain@.len() as int),
                old(self).next_marble_id,
                (old(self).spawn_accum + dt) / old(self).spawn_interval as int,
            ),
            final(self).chain@.len() >= old(self).chain@.len(),
            final(self).chain@.take(old(self).chain@.len() as int) == old(self).chain@,
            final(self).next_marble_id == wrap_add(
                old(self).next_marble_id,
                (old(self).spawn_accum + dt) / old(self).spawn_interval as int,
            ),
            final(self).spawn_accum == (old(self).spawn_accum + dt) % old(self).spawn_interval as int,
            final(self).spawn_interval == old(self).spawn_interval,
            final(self).path == old(self).path,
            final(self).marbles == old(self).marbles,
            final(self).players == old(self).players,
            final(self).spacing_length == old(self).spacing_length,
            final(self).next_player_id == old(self).next_player_id,
    {
        let ghost c0 = self.chain@;
        let ghost total = self.spawn_accum + dt;
        let ghost first = self.next_marble_id;
        let interval = self.spawn_interval;
        self.spawn_accum = self.spawn_accum + dt;
        let mut count: u64 = 0;
        proof {
            vstd::arithmetic::div_mod::lemma_small_mod(first as nat, 0x1_0000_0000_0000_0000nat);
            assert(self.chain@.skip(c0.len() as int) =~= Seq::<ChainMarble>::empty());
        }
        while self.spawn_accum >= interval
            invariant
                interval == self.spawn_interval,
                interval > 0,
                total == count * interval + self.spawn_accum,
                self.chain@.len() == c0.len() + count,
                self.chain@.take(c0.len() as int) == c0,
                spawn_batch(self.chain@.skip(c0.len() as int), first, count as int),
                self.next_marble_id == wrap_add(first, count as int),
                self.path == old(self).path,
                self.marbles == old(self).marbles,
                self.players == old(self).players,
                self.spacing_length == old(self).spacing_length,
                self.next_player_id == old(self).next_player_id,
                self.spawn_accum <= total,
                count <= total,
                total <= MAX_SPAWN_INTERVAL_MS + MAX_TICK_MS,
            decreases self.spawn_accum,
        {
            self.spawn_accum = self.spawn_accum - interval;
            let roll = random_below(100);
            let pick = random_below(SPAWN_HISTORY as u64);
            let uniform = random_below(PALETTE_SIZE);
            let color = spawn_color_from(&self.chain, roll, pick, uniform);
            let id = self.next_marble_id;
            proof {
                lemma_wrap_step(first, count as int);
            }
            self.next_marble_id = self.next_marble_id.wrapping_add(1);
            let ghost before = self.chain@;
            self.chain.push(ChainMarble { id: Some(id), s: 0, color: Some(color) });
            proof {
                assert(self.chain@.take(c0.len() as int) =~= before.take(c0.len() as int));
                let sk = self.chain@.skip(c0.len() as int);
                let bk = before.skip(c0.len() as int);
                assert(sk =~= bk.push(ChainMarble { id: Some(id), s: 0, color: Some(color) }));
                assert forall|j: int| 0 <= j < count + 1 implies (#[trigger] sk[j]).s == 0 && sk[j].id
                    == Some(wrap_add(first, j)) && sk[j].color is Some by {
                    if j < count {
                        assert(sk[j] == bk[j]);
                    }
                }
                assert((count + 1) * interval == count * interval + interval) by (nonlinear_arith);
                assert(count + 1 <= (count + 1) * interval) by (nonlinear_arith)
                    requires
                        interval >= 1,
                        count >= 0,
                ;
            }
            count = count + 1;
        }
        proof {
            vstd::arithmetic::div_mod::lemma_fundamental_div_mod_converse(
                total as int,
                interval as int,
                count as int,
                self.spawn_accum as int,
            );
        }
    }

    /// Runs the collision step (see `collide_from`) over the projectiles in
    /// flight.
    fn resolve_collisions(&mut self)
        requires
            old(self).path.wf(),
            sorted_by_s(old(self).chain@),
            positions_ok(old(self).chain@),
            forall|k: int| 0 <= k < old(self).marbles@.len() ==> in_play(#[trigger] old(self).marbles@[k]),
        ensures
            (final(self).chain@, final(self).marbles@) == collide_from(
                &old(self).path,
                old(self).spacing_length as int,
                old(self).chain@,
                old(self).marbles@,
                0,
            ),
            sorted_by_s(final(self).chain@),
            positions_ok(final(self).chain@),
            final(self).path == old(self).path,
            final(self).players == old(self).players,
            final(self).spawn_accum == old(self).spawn_accum,
            final(self).spawn_interval == old(self).spawn_interval,
            final(self).spacing_length == old(self).spacing_length,
            final(self).next_player_id == old(self).next_player_id,
            final(self).next_marble_id == old(self).next_marble_id,
    {
        let ghost m0 = self.marbles@;
        let ghost sp = self.spacing_length as int;
        let ghost whole = collide_from(&self.path, sp, self.chain@, m0, 0);
        let mut kept: Vec<Marble> = Vec::new();
        let mut i: usize = 0;
        assert(whole == (whole.0, kept@ + whole.1));
        while i < self.marbles.len()
            invariant
                self.path.wf(),
                self.path == old(self).path,
                self.marbles@ == m0,
                sp == self.spacing_length,
                i <= m0.len(),
                sorted_by_s(self.chain@),
                positions_ok(self.chain@),
                forall|k: int| 0 <= k < m0.len() ==> in_play(#[trigger] m0[k]),
                whole == (
                    collide_from(&self.path, sp, self.chain@, m0, i as int).0,
                    kept@ + collide_from(&self.path, sp, self.chain@, m0, i as int).1,
                ),
                self.players == old(self).players,
                self.spawn_accum == old(self).spawn_accum,
                self.spawn_interval == old(self).spawn_interval,
                self.spacing_length == old(self).spacing_length,
                self.next_player_id == old(self).next_player_id,
                self.next_marble_id == old(self).next_marble_id,
            decreases m0.len() - i,
        {
            let m = self.marbles[i];
            assert(in_play(m0[i as int]));
            let ghost c = self.chain@;
            let ghost rest = collide_from(&self.path, sp, c, m0, i + 1);
            let mut captured = false;
            match find_collision_index(&self.chain, &self.path, m.x, m.z) {
                Some(idx) => {
                    let n = self.chain.len();
                    if !(idx < n - 1 && self.chain[idx + 1].color.is_none()) {
                        insert_into_chain(
                            &mut self.chain,
                            &self.path,
                            self.spacing_length,
                            m.id,
                            m.color,
                            idx,
                        );
                        captured = true;
                    }
                },
                None => {},
            }
            if !captured {
                kept.push(m);
                assert(kept@ + collide_from(&self.path, sp, self.chain@, m0, i + 1).1 =~= kept@.drop_last()
                    + (seq![m] + rest.1));
            }
            i = i + 1;
        }
        self.marbles = kept;
        assert(kept@ + Seq::<Marble>::empty() =~= kept@);
    }

    /// Advances the room by `dt` milliseconds: projectiles fly and expire,
    /// marbles spawn at the path's start, the chain advances and drops the
    /// slots that reached the end, the chain is ordered, re-spaced and
    /// ordered again, and then each projectile in flight, in order, is
    /// captured into the chain or flies on (see `collide_from`). Players are
    /// not touched.
    pub fn update(&mut self, dt: u64)
        requires
            old(self).wf(),
            dt <= MAX_TICK_MS,
        ensures
            final(self).wf(),
            ({
                let count = (old(self).spawn_accum + dt) / old(self).spawn_interval as int;
                exists|spawned: Seq<ChainMarble>|
                    #[trigger] spawn_batch(spawned, old(self).next_marble_id, count) && (
                    final(self).chain@,
                    final(self).marbles@,
                    ) == collide_from(
                        &old(self).path,
                        old(self).spacing_length as int,
                        prepared_chain(
                            old(self).chain@,
                            spawned,
                            CHAIN_SPEED * dt,
                            old(self).path.total as int,
                            old(self).spacing_length as int,
                        ),
                        survivors(old(self).marbles@, dt as int),
                        0,
                    )
            }),
            final(self).next_marble_id == wrap_add(
                old(self).next_marble_id,
                (old(self).spawn_accum + dt) / old(self).spawn_interval as int,
            ),
            final(self).spawn_accum == (old(self).spawn_accum + dt) % old(self).spawn_interval as int,
            final(self).spawn_interval == old(self).spawn_interval,
            final(self).spacing_length == old(self).spacing_length,
            final(self).next_player_id == old(self).next_player_id,
            final(self).players@ == old(self).players@,
            final(self).path == old(self).path,
    {
        fly_marbles(&mut self.marbles, dt);
        let ghost flown_ms = self.marbles@;
        let ghost c0 = self.chain@;
        self.spawn_marbles(dt);
        let ghost spawned = self.chain@.skip(c0.len() as int);
        assert(self.chain@ =~= c0 + spawned);
        proof {
            assert forall|k: int| 0 <= k < self.chain@.len() implies #[trigger] self.chain@[k].s < S_ONE by {
                if k < c0.len() {
                    assert(self.chain@.take(c0.len() as int)[k] == self.chain@[k]);
                } else {
                    assert(spawned[k - c0.len()] == self.chain@[k]);
                }
            }
        }
        advance_chain(&mut self.chain, CHAIN_SPEED * dt);
        sort_by_s(&mut self.chain);
        equalize_chain_spacing(&mut self.chain, &self.path, self.spacing_length);
        sort_by_s(&mut self.chain);
        self.resolve_collisions();
        proof {
            lemma_collide_keeps(
                &self.path,
                self.spacing_length as int,
                prepared_chain(
                    c0,
                    spawned,
                    CHAIN_SPEED * dt,
                    self.path.total as int,
                    self.spacing_length as int,
                ),
                flown_ms,
                0,
            );
        }
    }

    /// A room on `path` whose chain starts with `INITIAL_CHAIN_LEN` marbles
    /// of random colours at evenly spaced path positions.
    pub fn with_path(path: Path) -> (r: GameState)
        requires
            path.wf(),
        ensures
            r.wf(),
            r.path == path,
            r.chain@.len() == INITIAL_CHAIN_LEN,
            forall|k: int|
                0 <= k < INITIAL_CHAIN_LEN ==> (#[trigger] r.chain@[k]).s == k * S_ONE
                    / INITIAL_CHAIN_LEN as int && r.chain@[k].id == Some(k as u64)
                    && r.chain@[k].color is Some,
            r.marbles@.len() == 0,
            r.players@.len() == 0,
            r.spawn_accum == 0,
            r.spawn_interval == SPAWN_INTERVAL_MS,
            r.spacing_length == SPACING_LENGTH,
            r.next_player_id == 0,
            r.next_marble_id == INITIAL_CHAIN_LEN,
    {
        let mut chain: Vec<ChainMarble> = Vec::new();
        let mut k: u64 = 0;
        while k < INITIAL_CHAIN_LEN
            invariant
                k <= INITIAL_CHAIN_LEN,
                chain@.len() == k,
                sorted_by_s(chain@),
                forall|j: int|
                    0 <= j < k ==> (#[trigger] chain@[j]).s == j * S_ONE / INITIAL_CHAIN_LEN as int
                        && chain@[j].id == Some(j as u64) && chain@[j].color is Some,
            decreases INITIAL_CHAIN_LEN - k,
        {
            let s = k * S_ONE / INITIAL_CHAIN_LEN;
            let color = Color::from_index(random_below(PALETTE_SIZE));
            proof {
                assert forall|j: int| 0 <= j < k implies (#[trigger] chain@[j]).s <= s by {
                    vstd::arithmetic::div_mod::lemma_div_is_ordered(
                        j * S_ONE,
                        k * S_ONE,
                        INITIAL_CHAIN_LEN as int,
                    );
                    assert(j * S_ONE <= k * S_ONE) by (nonlinear_arith)
                        requires
                            j <= k,
                    ;
                }
            }
            chain.push(ChainMarble { id: Some(k), s, color: Some(color) });
            k = k + 1;
        }
        assert forall|j: int| 0 <= j < chain@.len() implies #[trigger] chain@[j].s <= S_ONE by {
            assert(j * S_ONE / 30 <= S_ONE) by (nonlinear_arith)
                requires
                    0 <= j < 30,
            ;
        }
        GameState {
            path,
            chain,
            marbles: Vec::new(),
            players: Vec::new(),
            spawn_accum: 0,
            spawn_interval: SPAWN_INTERVAL_MS,
            spacing_length: SPACING_LENGTH,
            next_player_id: 0,
            next_marble_id: INITIAL_CHAIN_LEN,
        }
    }

    /// A room on the horseshoe-shaped cubic curve from `(-8, 6)` through
    /// control points `(-8, -4)` and `(8, -4)` to `(8, 6)` (metres).
    pub fn new() -> (r: GameState)
        ensures
            r.wf(),
            r.path.wf(),
            r.path.points@.len() == CURVE_STEPS + 1,
            forall|k: int|
                0 <= k <= CURVE_STEPS ==> #[trigger] r.path.points@[k] == bezier_point(horseshoe(), k),
            r.chain@.len() == INITIAL_CHAIN_LEN,
            forall|k: int|
                0 <= k < INITIAL_CHAIN_LEN ==> (#[trigger] r.chain@[k]).s == k * S_ONE
                    / INITIAL_CHAIN_LEN as int && r.chain@[k].id == Some(k as u64)
                    && r.chain@[k].color is Some,
            r.marbles@.len() == 0,
            r.players@.len() == 0,
            r.spawn_accum == 0,
            r.spawn_interval == SPAWN_INTERVAL_MS,
            r.spacing_length == SPACING_LENGTH,
            r.next_player_id == 0,
            r.next_marble_id == INITIAL_CHAIN_LEN,
    {
        let path = Path::from_curve(
            [(-8_000_000, 6_000_000), (-8_000_000, -4_000_000), (8_000_000, -4_000_000), (8_000_000, 6_000_000)],
        );
        GameState::with_path(path)
    }

    /// Marks the player connected through `addr` as disconnected; the
    /// record stays under its token for a later reconnect.
    pub fn disconnect_by_addr(&mut self, addr: u64)
        requires
            old(self).wf(),
        ensures
            final(self).wf(),
            final(self).players@ == disconnected(old(self).players@, addr),
            final(self).path == old(self).path,
            final(self).spawn_accum == old(self).spawn_accum,
            final(self).spawn_interval == old(self).spawn_interval,
            final(self).spacing_length == old(self).spacing_length,
            final(self).chain@ == old(self).chain@,
            final(self).marbles@ == old(self).marbles@,
            final(self).next_player_id == old(self).next_player_id,
            final(self).next_marble_id == old(self).next_marble_id,
    {
        proof {
            lemma_disconnected_ok(self.players@, addr);
        }
        disconnect_endpoint(&mut self.players, addr);
    }

    /// Sets the aim of the player connected through `addr`: its yaw in
    /// milliradians and its direction `(aim_x, aim_z)` in units of
    /// `AIM_SCALE`, each component clamped to `[-AIM_SCALE, AIM_SCALE]`.
    /// Does nothing when no player is connected through `addr`.
    pub fn handle_aim(&mut self, addr: u64, yaw: i64, aim_x: i64, aim_z: i64)
        requires
            old(self).wf(),
        ensures
            final(self).wf(),
            final(self).chain@ == old(self).chain@,
            final(self).marbles@ == old(self).marbles@,
            final(self).path == old(self).path,
            final(self).spawn_accum == old(self).spawn_accum,
            final(self).spawn_interval == old(self).spawn_interval,
            final(self).spacing_length == old(self).spacing_length,
            final(self).next_player_id == old(self).next_player_id,
            final(self).next_marble_id == old(self).next_marble_id,
            final(self).players@.len() == old(self).players@.len(),
            match find_addr(old(self).players@, addr, 0) {
                None => final(self).players@ == old(self).players@,
                Some(i) => final(self).players@ == old(self).players@.update(
                    i,
                    PersistentPlayer {
                        yaw,
                        aim_x: clamp_aim(aim_x as int) as i64,
                        aim_z: clamp_aim(aim_z as int) as i64,
                        ..old(self).players@[i]
                    },
                ),
            },
    {
        match find_by_addr(&self.players, addr) {
            None => {},
            Some(i) => {
                proof {
                    crate::players::lemma_find_addr_found(self.players@, addr, 0);
                }
                let ax = clamp_aim_exec(aim_x);
                let az = clamp_aim_exec(aim_z);
                let r = restated(
                    &self.players[i],
                    yaw,
                    ax,
                    az,
                    self.players[i].loaded_color,
                    self.players[i].next_color,
                    self.players[i].connected,
                    self.players[i].addr,
                );
                let ghost prior = self.players@;
                self.players.set(i, r);
                proof {
                    assert(crate::players::record_ok(prior[i as int]));
                    assert forall|j: int| 0 <= j < self.players@.len() implies crate::players::record_ok(
                        #[trigger] self.players@[j],
                    ) by {
                        assert(crate::players::record_ok(prior[j]));
                    }
                    assert forall|a: int, b: int| 0 <= a < b < self.players@.len() implies self.players@[a].token@
                        != self.players@[b].token@ by {
                        assert(prior[a].token@ != prior[b].token@);
                    }
                    assert forall|a: int, b: int|
                        0 <= a < b < self.players@.len() && self.players@[a].addr is Some implies self.players@[a].addr
                        != self.players@[b].addr by {
                        assert(prior[a].addr != prior[b].addr);
                    }
                }
            },
        }
    }
}

/// Speed of a fired projectile per unit of aim: a full-length aim gives
/// 8 m/s (8000 micrometres per millisecond).
pub const SHOT_SPEED: i64 = 8;

/// Height above the player at which a projectile is fired, in micrometres.
pub const SHOT_LIFT: i64 = 100_000;

/// Lifetime of a fired projectile, in milliseconds.
pub const SHOT_LIFE_MS: i64 = 8_000;

/// The projectile with id `id` that player `p` fires.
pub open spec fn shot_from(p: PersistentPlayer, id: u64) -> Marble {
    Marble {
        id,
        x: p.x,
        y: (p.y + SHOT_LIFT) as i64,
        z: p.z,
        vx: (p.aim_x * SHOT_SPEED) as i64,
        vy: 0,
        vz: (p.aim_z * SHOT_SPEED) as i64,
        life: SHOT_LIFE_MS,
        color: p.loaded_color,
        owner: None,
    }
}

/// An aim component clamped to `[-AIM_SCALE, AIM_SCALE]`.
pub open spec fn clamp_aim(v: int) -> int {
    if v < -AIM_SCALE {
        -AIM_SCALE as int
    } else if v > AIM_SCALE {
        AIM_SCALE as int
    } else {
        v
    }
}

fn clamp_aim_exec(v: i64) -> (r: i64)
    ensures
        r == clamp_aim(v as int),
{
    if v < -AIM_SCALE {
        -AIM_SCALE
    } else if v > AIM_SCALE {
        AIM_SCALE
    } else {
        v
    }
}

impl GameState {
    /// Joins a player through endpoint `addr`, first releasing any record
    /// bound to that endpoint. A known `token` restores its player as it
    /// was; otherwise a new player is created under a fresh token, placed by
    /// `spawn_position` from the number of connected players, with random
    /// loaded and next colours.
    pub fn join_with_token(&mut self, token: Option<String>, addr: u64) -> (r: (String, Player))
        requires
            old(self).wf(),
        ensures
            final(self).wf(),
            final(self).chain@ == old(self).chain@,
            final(self).marbles@ == old(self).marbles@,
            final(self).next_marble_id == old(self).next_marble_id,
            final(self).path == old(self).path,
            final(self).spawn_accum == old(self).spawn_accum,
            final(self).spawn_interval == old(self).spawn_interval,
            final(self).spacing_length == old(self).spacing_length,
            ({
                let ps1 = disconnected(old(self).players@, addr);
                let found = match token {
                    Some(t) => find_token(ps1, t@, 0),
                    None => None::<int>,
                };
                match found {
                    Some(i) => {
                        &&& final(self).players@ == ps1.update(i, linked(ps1[i], addr))
                        &&& r.0@ == token->Some_0@
                        &&& r.1 == player_of(old(self).players@[i])
                        &&& final(self).next_player_id == old(self).next_player_id
                    },
                    None => {
                        &&& r.1.id == old(self).next_player_id
                        &&& final(self).next_player_id == old(self).next_player_id.wrapping_add(1)
                        &&& r.1.y == 0
                        &&& r.1.yaw == 0
                        &&& exists|d: u64|
                            (r.1.x as int, r.1.z as int) == spawn_position(
                                count_connected(ps1, ps1.len() as int) as int,
                                r.1.id,
                                d,
                            )
                        &&& find_token(ps1, r.0@, 0) is None
                        &&& r.0@.len() >= 32
                        &&& exists|b: u128| r.0@.subrange(0, 32) == hex_fixed(b as nat, 32)
                        &&& final(self).players@.len() == ps1.len() + 1
                        &&& final(self).players@.drop_last() == ps1
                        &&& final(self).players@.last().token@ == r.0@
                        &&& player_of(final(self).players@.last()) == r.1
                        &&& final(self).players@.last().aim_x == 0
                        &&& final(self).players@.last().aim_z == AIM_SCALE
                        &&& final(self).players@.last().connected
                        &&& final(self).players@.last().addr == Some(addr)
                    },
                }
            }),
    {
        proof {
            lemma_disconnected_ok(self.players@, addr);
        }
        disconnect_endpoint(&mut self.players, addr);
        let ghost ps1 = self.players@;
        proof {
            crate::players::lemma_find_addr_found(ps1, addr, 0);
        }
        let ghost token_in = token;
        if let Some(t) = token {
            match find_by_token(&self.players, &t) {
                Some(i) => {
                    proof {
                        crate::players::lemma_find_token_found(ps1, t@, 0);
                        assert(crate::players::record_ok(ps1[i as int]));
                    }
                    let r = restated(
                        &self.players[i],
                        self.players[i].yaw,
                        self.players[i].aim_x,
                        self.players[i].aim_z,
                        self.players[i].loaded_color,
                        self.players[i].next_color,
                        true,
                        Some(addr),
                    );
                    let p = Player {
                        id: r.id,
                        x: r.x,
                        y: r.y,
                        z: r.z,
                        yaw: r.yaw,
                        loaded_color: r.loaded_color,
                        next_color: r.next_color,
                    };
                    self.players.set(i, r);
                    proof {
                        lemma_roster_set(ps1, i as int, self.players@[i as int], addr);
                    }
                    return (t, p);
                },
                None => {},
            }
        }
        let id = self.next_player_id;
        self.next_player_id = id.wrapping_add(1);
        let count = connected_count(&self.players);
        let draw = random_below(2_000_000);
        let (px, pz) = spawn_position_for(count, id, draw);
        let loaded = Color::from_index(random_below(PALETTE_SIZE));
        let next = Color::from_index(random_below(PALETTE_SIZE));
        let drawn = random_bits();
        let tok = fresh_token(&self.players, hex32(drawn));
        let rec = PersistentPlayer {
            token: tok.clone(),
            id,
            x: px,
            y: 0,
            z: pz,
            yaw: 0,
            aim_x: 0,
            aim_z: AIM_SCALE,
            loaded_color: loaded,
            next_color: next,
            connected: true,
            addr: Some(addr),
        };
        let p = Player { id, x: px, y: 0, z: pz, yaw: 0, loaded_color: loaded, next_color: next };
        proof {
            crate::players::lemma_find_token_found(ps1, tok@, 0);
        }
        self.players.push(rec);
        proof {
            lemma_roster_push(ps1, self.players@.last(), addr);
            assert(self.players@.drop_last() == ps1);
            assert((px as int, pz as int) == spawn_position(count as int, id, draw));
            assert(count == count_connected(ps1, ps1.len() as int));
            assert((p.x as int, p.z as int) == spawn_position(
                count_connected(ps1, ps1.len() as int) as int,
                p.id,
                draw,
            ));
            assert(exists|d: u64|
                (p.x as int, p.z as int) == spawn_position(
                    count_connected(ps1, ps1.len() as int) as int,
                    p.id,
                    d,
                ));
            let found = match token_in {
                Some(t) => find_token(ps1, t@, 0),
                None => None::<int>,
            };
            assert(found is None);
            assert(tok@.subrange(0, 32) == hex_fixed(drawn as nat, 32));
            assert(player_of(self.players@.last()) == p);
        }
        (tok, p)
    }
}

/// Replacing record `i` of a roster in which no record is bound to `addr`
/// by one with the same token, bound to `addr`, keeps the roster well
/// formed.
proof fn lemma_roster_set(ps: Seq<PersistentPlayer>, i: int, r: PersistentPlayer, addr: u64)
    requires
        roster_ok(ps),
        0 <= i < ps.len(),
        r.token@ == ps[i].token@,
        r.addr == Some(addr),
        crate::players::record_ok(r),
        forall|j: int| 0 <= j < ps.len() ==> ps[j].addr != Some(addr),
    ensures
        roster_ok(ps.update(i, r)),
{
    let q = ps.update(i, r);
    assert forall|j: int| 0 <= j < q.len() implies crate::players::record_ok(#[trigger] q[j]) by {
        if j != i {
            assert(crate::players::record_ok(ps[j]));
        }
    }
    assert forall|a: int, b: int| 0 <= a < b < q.len() implies q[a].token@ != q[b].token@ by {
        assert(ps[a].token@ != ps[b].token@);
    }
    assert forall|a: int, b: int| 0 <= a < b < q.len() && q[a].addr is Some implies q[a].addr
        != q[b].addr by {
        if a != i && b != i {
            assert(ps[a].addr != ps[b].addr);
        }
    }
}

/// Appending a record with a new token, bound to `addr`, to a roster in
/// which no record is bound to `addr` keeps the roster well formed.
proof fn lemma_roster_push(ps: Seq<PersistentPlayer>, r: PersistentPlayer, addr: u64)
    requires
        roster_ok(ps),
        r.addr == Some(addr),
        crate::players::record_ok(r),
        forall|j: int| 0 <= j < ps.len() ==> ps[j].addr != Some(addr),
        forall|j: int| 0 <= j < ps.len() ==> ps[j].token@ != r.token@,
    ensures
        roster_ok(ps.push(r)),
{
    let q = ps.push(r);
    assert forall|j: int| 0 <= j < q.len() implies crate::players::record_ok(#[trigger] q[j]) by {
        if j < ps.len() {
            assert(crate::players::record_ok(ps[j]));
        }
    }
    assert forall|a: int, b: int| 0 <= a < b < q.len() implies q[a].token@ != q[b].token@ by {
        if b < ps.len() {
            assert(ps[a].token@ != ps[b].token@);
        }
    }
    assert forall|a: int, b: int| 0 <= a < b < q.len() && q[a].addr is Some implies q[a].addr
        != q[b].addr by {
        if b < ps.len() {
            assert(ps[a].addr != ps[b].addr);
        }
    }
}

impl GameState {
    /// Fires a projectile from the player connected through `addr`, in its
    /// loaded colour and along its aim; its next colour becomes the loaded
    /// one and a random colour the next. Returns the projectile, or `None`
    /// (changing nothing) when no player is connected through `addr`.
    pub fn handle_shoot(&mut self, addr: u64) -> (r: Option<Marble>)
        requires
            old(self).wf(),
        ensures
            final(self).wf(),
            final(self).chain@ == old(self).chain@,
            final(self).next_player_id == old(self).next_player_id,
            final(self).path == old(self).path,
            final(self).spawn_accum == old(self).spawn_accum,
            final(self).spawn_interval == old(self).spawn_interval,
            final(self).spacing_length == old(self).spacing_length,
            match find_addr(old(self).players@, addr, 0) {
                None => {
                    &&& r is None
                    &&& final(self).players@ == old(self).players@
                    &&& final(self).marbles@ == old(self).marbles@
                    &&& final(self).next_marble_id == old(self).next_marble_id
                },
                Some(i) => {
                    let p = old(self).players@[i];
                    &&& r == Some(shot_from(p, old(self).next_marble_id))
                    &&& final(self).marbles@ == old(self).marbles@.push(shot_from(p, old(self).next_marble_id))
                    &&& final(self).next_marble_id == old(self).next_marble_id.wrapping_add(1)
                    &&& final(self).players@ == old(self).players@.update(
                        i,
                        PersistentPlayer {
                            loaded_color: p.next_color,
                            next_color: final(self).players@[i].next_color,
                            ..p
                        },
                    )
                },
            },
    {
        let i = match find_by_addr(&self.players, addr) {
            None => {
                return None;
            },
            Some(i) => i,
        };
        proof {
            crate::players::lemma_find_addr_found(self.players@, addr, 0);
            assert(crate::players::record_ok(self.players@[i as int]));
        }
        let id = self.next_marble_id;
        self.next_marble_id = id.wrapping_add(1);
        let p = &self.players[i];
        let m = Marble {
            id,
            x: p.x,
            y: p.y + SHOT_LIFT,
            z: p.z,
            vx: p.aim_x * SHOT_SPEED,
            vy: 0,
            vz: p.aim_z * SHOT_SPEED,
            life: SHOT_LIFE_MS,
            color: p.loaded_color,
            owner: None,
        };
        let next = Color::from_index(random_below(PALETTE_SIZE));
        let r = restated(p, p.yaw, p.aim_x, p.aim_z, p.next_color, next, p.connected, p.addr);
        let ghost prior = self.players@;
        self.players.set(i, r);
        proof {
            assert forall|j: int| 0 <= j < self.players@.len() implies crate::players::record_ok(
                #[trigger] self.players@[j],
            ) by {
                assert(crate::players::record_ok(prior[j]));
            }
            assert forall|a: int, b: int| 0 <= a < b < self.players@.len() implies self.players@[a].token@
                != self.players@[b].token@ by {
                assert(prior[a].token@ != prior[b].token@);
            }
            assert forall|a: int, b: int|
                0 <= a < b < self.players@.len() && self.players@[a].addr is Some implies self.players@[a].addr
                != self.players@[b].addr by {
                assert(prior[a].addr != prior[b].addr);
            }
        }
        self.marbles.push(m);
        Some(m)
    }
}

impl Default for GameState {
    fn default() -> (r: GameState)
        ensures
            r.wf(),
            r.path.wf(),
            r.path.points@.len() == CURVE_STEPS + 1,
            forall|k: int|
                0 <= k <= CURVE_STEPS ==> #[trigger] r.path.points@[k] == bezier_point(horseshoe(), k),
            r.chain@.len() == INITIAL_CHAIN_LEN,
            forall|k: int|
                0 <= k < INITIAL_CHAIN_LEN ==> (#[trigger] r.chain@[k]).s == k * S_ONE
                    / INITIAL_CHAIN_LEN as int && r.chain@[k].id == Some(k as u64)
                    && r.chain@[k].color is Some,
            r.marbles@.len() == 0,
            r.players@.len() == 0,
            r.spawn_accum == 0,
            r.spawn_interval == SPAWN_INTERVAL_MS,
            r.spacing_length == SPACING_LENGTH,
            r.next_player_id == 0,
            r.next_marble_id == INITIAL_CHAIN_LEN,
    {
        GameState::new()
    }
}

/// Height at which chain marbles are shown, in micrometres.
pub const CHAIN_HEIGHT: i64 = 500_000;

/// Remaining life shown for chain marbles, in milliseconds.
pub const CHAIN_LIFE_MS: i64 = 9_999_000;

/// A read-only view of a room: its connected players, and its visible
/// marbles (projectiles in flight, then chain marbles in chain order; gaps
/// are not shown).
pub struct Snapshot {
    pub players: Vec<Player>,
    pub marbles: Vec<Marble>,
}

/// The connected players among the first `n` records, in order.
pub open spec fn connected_players(ps: Seq<PersistentPlayer>, n: int) -> Seq<Player>
    decreases n,
{
    if n <= 0 || n > ps.len() {
        Seq::empty()
    } else {
        let rest = connected_players(ps, n - 1);
        if ps[n - 1].connected {
            rest.push(player_of(ps[n - 1]))
        } else {
            rest
        }
    }
}

/// How a chain marble at slot `k` is shown.
pub open spec fn shown_chain_marble(path: &Path, c: ChainMarble) -> Marble {
    let p = path.pos_at(c.s as int);
    Marble {
        id: match c.id {
            Some(v) => v,
            None => 0,
        },
        x: p.0 as i64,
        y: CHAIN_HEIGHT,
        z: p.1 as i64,
        vx: 0,
        vy: 0,
        vz: 0,
        life: CHAIN_LIFE_MS,
        color: c.color->Some_0,
        owner: None,
    }
}

/// The chain marbles among the first `n` slots as they are shown, in order.
pub open spec fn shown_chain(path: &Path, c: Seq<ChainMarble>, n: int) -> Seq<Marble>
    decreases n,
{
    if n <= 0 || n > c.len() {
        Seq::empty()
    } else {
        let rest = shown_chain(path, c, n - 1);
        if c[n - 1].color is Some {
            rest.push(shown_chain_marble(path, c[n - 1]))
        } else {
            rest
        }
    }
}

impl GameState {
    /// Produces the view of the room that is sent to clients.
    pub fn snapshot(&self) -> (r: Snapshot)
        requires
            self.wf(),
        ensures
            r.players@ == connected_players(self.players@, self.players@.len() as int),
            r.marbles@ == self.marbles@ + shown_chain(&self.path, self.chain@, self.chain@.len() as int),
    {
        let mut players: Vec<Player> = Vec::new();
        let mut i: usize = 0;
        while i < self.players.len()
            invariant
                i <= self.players@.len(),
                players@ == connected_players(self.players@, i as int),
            decreases self.players@.len() - i,
        {
            let p = &self.players[i];
            if p.connected {
                players.push(
                    Player {
                        id: p.id,
                        x: p.x,
                        y: p.y,
                        z: p.z,
                        yaw: p.yaw,
                        loaded_color: p.loaded_color,
                        next_color: p.next_color,
                    },
                );
            }
            i = i + 1;
        }
        let mut marbles: Vec<Marble> = Vec::new();
        let mut k: usize = 0;
        while k < self.marbles.len()
            invariant
                k <= self.marbles@.len(),
                marbles@ == self.marbles@.take(k as int),
            decreases self.marbles@.len() - k,
        {
            marbles.push(self.marbles[k]);
            assert(self.marbles@.take(k + 1) == self.marbles@.take(k as int).push(self.marbles@[k as int]));
            k = k + 1;
        }
        assert(self.marbles@.take(self.marbles@.len() as int) == self.marbles@);
        let mut j: usize = 0;
        while j < self.chain.len()
            invariant
                self.path.wf(),
                j <= self.chain@.len(),
                marbles@ == self.marbles@ + shown_chain(&self.path, self.chain@, j as int),
            decreases self.chain@.len() - j,
        {
            let cm = self.chain[j];
            if let Some(color) = cm.color {
                let pos = self.path.world_pos(cm.s);
                let id = match cm.id {
                    Some(v) => v,
                    None => 0,
                };
                marbles.push(
                    Marble {
                        id,
                        x: pos.0,
                        y: CHAIN_HEIGHT,
                        z: pos.1,
                        vx: 0,
                        vy: 0,
                        vz: 0,
                        life: CHAIN_LIFE_MS,
                        color,
                        owner: None,
                    },
                );
            }
            j = j + 1;
        }
        Snapshot { players, marbles }
    }
}

} // verus!
