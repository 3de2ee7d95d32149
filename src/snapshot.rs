//! Building the immutable, versioned snapshot of a world that observers read.

use vstd::prelude::*;
use crate::map::{
    TileMap, MapView, Pos, Dir, Tile, TILE_BOT, TILE_BOT_CHEVRON, map_get, map_set, map_wf,
    in_bounds, step_pos, dir_code, lemma_get_set,
};

use ahash::AHashMap;
use crate::bot_index::{id_index_entries, empty_index, id_index_new, id_index_insert, id_index_get};

verus! {

/// How a world's clock runs.
#[derive(Clone, Copy, Debug, PartialEq, Eq, Structural)]
pub enum Clock {
    /// Ticks only on command; a snapshot is published after each tick.
    Manual,
    Normal,
    Fast,
    Unlimited,
}

/// An alive bot as the snapshot shows it.
#[derive(Debug)]
pub struct SnapshotAliveBot {
    /// Ticks since the bot was spawned.
    pub age: u32,
    pub dir: Dir,
    pub events: Vec<String>,
    pub id: u64,
    pub pos: Pos,
    pub score: u32,
    pub serial: Vec<u32>,
}

/// An object lying in the world; `pos` is `None` while a bot carries it.
#[derive(Clone, Copy, Debug)]
pub struct SnapshotObject {
    pub id: u64,
    pub pos: Option<Pos>,
    /// The tile that the object shows on the map.
    pub obj: Tile,
}

pub open spec fn bot_tile(idx: int) -> Tile {
    Tile { kind: TILE_BOT, meta: [idx as u8, 0u8, 0u8] }
}

pub open spec fn chevron_tile(idx: int, dir: Dir) -> Tile {
    Tile { kind: TILE_BOT_CHEVRON, meta: [idx as u8, dir_code(dir), 0u8] }
}

/// The map after the first `k` alive bots were drawn, in order: each as a bot
/// tile at its position and a chevron in front of it, unless a bot is there.
pub open spec fn with_bots(m: MapView, bots: Seq<SnapshotAliveBot>, k: nat) -> MapView
    decreases k,
{
    if k == 0 || k > bots.len() {
        m
    } else {
        let prev = with_bots(m, bots, (k - 1) as nat);
        let b = bots[k - 1];
        let m1 = map_set(prev, b.pos, bot_tile(k - 1));
        let c = step_pos(b.pos, b.dir);
        if map_get(m1, c).kind == TILE_BOT {
            m1
        } else {
            map_set(m1, c, chevron_tile(k - 1, b.dir))
        }
    }
}

/// The map after the first `k` objects that lie on it were drawn.
pub open spec fn with_objects(m: MapView, objs: Seq<SnapshotObject>, k: nat) -> MapView
    decreases k,
{
    if k == 0 || k > objs.len() {
        m
    } else {
        let prev = with_objects(m, objs, (k - 1) as nat);
        match objs[k - 1].pos {
            Some(p) => map_set(prev, p, objs[k - 1].obj),
            None => prev,
        }
    }
}

/// The map that a snapshot shows: the world's map, then the alive bots, then
/// the objects.
pub open spec fn rendered_map(m: MapView, bots: Seq<SnapshotAliveBot>, objs: Seq<SnapshotObject>) -> MapView {
    with_objects(with_bots(m, bots, bots.len()), objs, objs.len())
}

/// Whether a bot's position and the cell in front of it can be computed
/// without overflow (bots stand on the map, whose sides fit in `i32`).
pub open spec fn pos_ok(p: Pos) -> bool {
    i32::MIN < p.x < i32::MAX && i32::MIN < p.y < i32::MAX
}

proof fn lemma_with_bots_congruent(m: MapView, a: Seq<SnapshotAliveBot>, b: Seq<SnapshotAliveBot>, k: nat)
    requires
        a.len() == b.len(),
        k <= a.len(),
        forall|i: int| 0 <= i < a.len() ==> a[i].pos == b[i].pos && a[i].dir == b[i].dir,
    ensures
        with_bots(m, a, k) == with_bots(m, b, k),
    decreases k,
{
    if k > 0 {
        lemma_with_bots_congruent(m, a, b, (k - 1) as nat);
    }
}

proof fn lemma_with_objects_congruent(m: MapView, a: Seq<SnapshotObject>, b: Seq<SnapshotObject>, k: nat)
    requires
        a.len() == b.len(),
        k <= a.len(),
        forall|i: int| 0 <= i < a.len() ==> a[i].pos == b[i].pos && a[i].obj == b[i].obj,
    ensures
        with_objects(m, a, k) == with_objects(m, b, k),
    decreases k,
{
    if k > 0 {
        lemma_with_objects_congruent(m, a, b, (k - 1) as nat);
    }
}

proof fn lemma_ids_to_indices_congruent(a: Seq<SnapshotAliveBot>, b: Seq<SnapshotAliveBot>, k: nat)
    requires
        a.len() == b.len(),
        k <= a.len(),
        forall|i: int| 0 <= i < a.len() ==> a[i].id == b[i].id,
    ensures
        ids_to_indices(a, k) == ids_to_indices(b, k),
    decreases k,
{
    if k > 0 {
        lemma_ids_to_indices_congruent(a, b, (k - 1) as nat);
    }
}

/// Two rankings of the same entries agree when no two entries share an id.
proof fn lemma_ranking_unique(a: Seq<SnapshotAliveBot>, b: Seq<SnapshotAliveBot>, x: Seq<u8>, y: Seq<u8>)
    requires
        a.len() == b.len(),
        forall|i: int|
            0 <= i < a.len() ==> a[i].id == b[i].id && a[i].score == b[i].score && a[i].age
                == b[i].age,
        forall|i: int, j: int| 0 <= i < j < a.len() ==> a[i].id != a[j].id,
        is_permutation(x, a.len()),
        is_permutation(y, a.len()),
        is_ranked(a, x),
        is_ranked(b, y),
    ensures
        x == y,
{
    if x != y {
        assert(exists|k: int| 0 <= k < x.len() && x[k] != y[k]) by {
            if forall|k: int| 0 <= k < x.len() ==> x[k] == y[k] {
                assert(x =~= y);
            }
        }
        let k0 = choose|k: int| 0 <= k < x.len() && x[k] != y[k];
        let k = lemma_first_difference(x, y, k0);
        let p = x[k] as int;
        let q = y[k] as int;
        assert(0 <= k < x.len());
        assert((y[k] as nat) < a.len() && (x[k] as nat) < a.len());
        assert(has_index(x, q));
        assert(has_index(y, p));
        let l = choose|l: int| 0 <= l < x.len() && x[l] == q;
        let l2 = choose|l: int| 0 <= l < y.len() && y[l] == p;
        if l < k {
            assert(y[l] == x[l]);
        }
        if l2 < k {
            assert(x[l2] == y[l2]);
        }
        assert(l > k);
        assert(l2 > k);
        assert(!ranks_before(a[q], a[p]));
        assert(!ranks_before(b[p], b[q]));
        if p < q {
            assert(a[p].id != a[q].id);
        } else {
            assert(a[q].id != a[p].id);
        }
    }
}

proof fn lemma_first_difference(x: Seq<u8>, y: Seq<u8>, k0: int) -> (k: int)
    requires
        x.len() == y.len(),
        0 <= k0 < x.len(),
        x[k0] != y[k0],
    ensures
        0 <= k <= k0,
        x[k] != y[k],
        forall|j: int| 0 <= j < k ==> x[j] == y[j],
    decreases k0,
{
    if exists|j: int| 0 <= j < k0 && x[j] != y[j] {
        let j = choose|j: int| 0 <= j < k0 && x[j] != y[j];
        lemma_first_difference(x, y, j)
    } else {
        k0
    }
}

/// Draws the alive bots and the objects over a copy of `map`.
pub fn prepare_map(bots: &Vec<SnapshotAliveBot>, map: &TileMap, objects: &Vec<SnapshotObject>) -> (r: TileMap)
    requires
        map.wf(),
        forall|i: int| 0 <= i < bots@.len() ==> pos_ok(#[trigger] bots@[i].pos),
    ensures
        r.wf(),
        r@ == rendered_map(map@, bots@, objects@),
{
    let ghost m0 = map@;
    let mut out = map.copy();
    let mut idx: usize = 0;
    while idx < bots.len()
        invariant
            idx <= bots@.len(),
            out.wf(),
            forall|i: int| 0 <= i < bots@.len() ==> pos_ok(#[trigger] bots@[i].pos),
            out@ == with_bots(m0, bots@, idx as nat),
        decreases bots@.len() - idx,
    {
        let bot = &bots[idx];
        let tile = Tile { kind: TILE_BOT, meta: [idx as u8, 0, 0] };
        let chevron_pos = bot.pos.step(bot.dir);
        let chevron_tile = Tile { kind: TILE_BOT_CHEVRON, meta: [idx as u8, bot.dir.code(), 0] };
        out.set(bot.pos, tile);
        if !out.get(chevron_pos).is_bot() {
            out.set(chevron_pos, chevron_tile);
        }
        idx = idx + 1;
    }
    let ghost m1 = out@;
    let mut k: usize = 0;
    while k < objects.len()
        invariant
            k <= objects@.len(),
            out.wf(),
            out@ == with_objects(m1, objects@, k as nat),
        decreases objects@.len() - k,
    {
        match objects[k].pos {
            Some(p) => {
                out.set(p, objects[k].obj);
            },
            None => {},
        }
        k = k + 1;
    }
    out
}


proof fn lemma_with_bots(m: MapView, bots: Seq<SnapshotAliveBot>, k: nat)
    requires
        map_wf(m),
        k <= bots.len(),
        forall|i: int| 0 <= i < bots.len() ==> in_bounds(m, #[trigger] bots[i].pos),
        forall|i: int| 0 <= i < bots.len() ==> pos_ok(#[trigger] bots[i].pos),
        forall|p: Pos| in_bounds(m, p) ==> (#[trigger] map_get(m, p)).kind != TILE_BOT,
    ensures
        map_wf(with_bots(m, bots, k)),
        with_bots(m, bots, k).width == m.width,
        with_bots(m, bots, k).height == m.height,
        forall|i: int|
            0 <= i < k ==> (#[trigger] map_get(with_bots(m, bots, k), bots[i].pos)).kind == TILE_BOT,
        forall|i: int|
            0 <= i < k && in_bounds(m, step_pos(bots[i].pos, bots[i].dir)) && (forall|j: int|
                0 <= j < k ==> bots[j].pos != step_pos(bots[i].pos, bots[i].dir)) ==> (#[trigger] map_get(
                with_bots(m, bots, k),
                step_pos(bots[i].pos, bots[i].dir),
            )).kind == TILE_BOT_CHEVRON,
        forall|p: Pos|
            in_bounds(m, p) && (#[trigger] map_get(with_bots(m, bots, k), p)).kind == TILE_BOT
                ==> exists|j: int| 0 <= j < k && bots[j].pos == p,
    decreases k,
{
    if k > 0 {
        let k1 = (k - 1) as nat;
        lemma_with_bots(m, bots, k1);
        let prev = with_bots(m, bots, k1);
        let b = bots[k1 as int];
        let m1 = map_set(prev, b.pos, bot_tile(k1 as int));
        let c = step_pos(b.pos, b.dir);
        let cur = with_bots(m, bots, k);
        assert forall|q: Pos| true implies map_get(m1, q) == if in_bounds(prev, b.pos) && b.pos == q {
            bot_tile(k1 as int)
        } else {
            map_get(prev, q)
        } by {
            lemma_get_set(prev, b.pos, bot_tile(k1 as int), q);
        }
        lemma_get_set(prev, b.pos, bot_tile(k1 as int), c);
        assert forall|q: Pos| true implies map_get(cur, q) == if map_get(m1, c).kind != TILE_BOT
            && in_bounds(m1, c) && c == q {
            chevron_tile(k1 as int, b.dir)
        } else {
            map_get(m1, q)
        } by {
            lemma_get_set(m1, c, chevron_tile(k1 as int, b.dir), q);
        }
        lemma_get_set(m1, c, chevron_tile(k1 as int, b.dir), c);
        assert(pos_ok(b.pos));
        assert(c != b.pos);
        assert forall|i: int| 0 <= i < k implies (#[trigger] map_get(cur, bots[i].pos)).kind
            == TILE_BOT by {
            if i < k1 {
                assert(map_get(prev, bots[i].pos).kind == TILE_BOT);
            }
        }
        assert forall|p: Pos|
            in_bounds(m, p) && (#[trigger] map_get(cur, p)).kind == TILE_BOT implies exists|j: int|
                0 <= j < k && bots[j].pos == p by {
            if p != b.pos {
                assert(map_get(prev, p).kind == TILE_BOT);
                let j = choose|j: int| 0 <= j < k1 && bots[j].pos == p;
                assert(0 <= j < k && bots[j].pos == p);
            } else {
                assert(bots[k1 as int].pos == p);
            }
        }
        assert forall|i: int|
            0 <= i < k && in_bounds(m, step_pos(bots[i].pos, bots[i].dir)) && (forall|j: int|
                0 <= j < k ==> bots[j].pos != step_pos(bots[i].pos, bots[i].dir)) implies (#[trigger] map_get(
            cur,
            step_pos(bots[i].pos, bots[i].dir),
        )).kind == TILE_BOT_CHEVRON by {
            let ci = step_pos(bots[i].pos, bots[i].dir);
            assert(bots[k1 as int].pos != ci);
            if i == k1 {
                if map_get(m1, c).kind == TILE_BOT {
                    assert(map_get(prev, c).kind == TILE_BOT);
                    let j = choose|j: int| 0 <= j < k1 && bots[j].pos == c;
                    assert(bots[j].pos != ci);
                }
            } else {
                assert(forall|j: int| 0 <= j < k1 ==> bots[j].pos != ci);
                assert(map_get(prev, ci).kind == TILE_BOT_CHEVRON);
            }
        }
    }
}

proof fn lemma_with_objects(m: MapView, objs: Seq<SnapshotObject>, k: nat, p: Pos)
    requires
        map_wf(m),
        k <= objs.len(),
        forall|j: int| 0 <= j < k ==> objs[j].pos != Some(p),
    ensures
        map_wf(with_objects(m, objs, k)),
        with_objects(m, objs, k).width == m.width,
        with_objects(m, objs, k).height == m.height,
        map_get(with_objects(m, objs, k), p) == map_get(m, p),
    decreases k,
{
    if k > 0 {
        let k1 = (k - 1) as nat;
        lemma_with_objects(m, objs, k1, p);
        match objs[k1 as int].pos {
            Some(q) => {
                lemma_get_set(with_objects(m, objs, k1), q, objs[k1 as int].obj, p);
            },
            None => {},
        }
    }
}

proof fn lemma_with_bots_exact(m: MapView, bots: Seq<SnapshotAliveBot>, k: nat)
    requires
        map_wf(m),
        k <= bots.len(),
        forall|i: int| 0 <= i < bots.len() ==> in_bounds(m, #[trigger] bots[i].pos),
        forall|i: int| 0 <= i < bots.len() ==> pos_ok(#[trigger] bots[i].pos),
        forall|p: Pos| in_bounds(m, p) ==> (#[trigger] map_get(m, p)).kind != TILE_BOT,
        forall|i: int, j: int| 0 <= i < j < bots.len() ==> bots[i].pos != bots[j].pos,
    ensures
        forall|i: int| 0 <= i < k ==> #[trigger] map_get(with_bots(m, bots, k), bots[i].pos) == bot_tile(i),
        forall|p: Pos|
            in_bounds(m, p) && (exists|i: int| 0 <= i < k && step_pos(bots[i].pos, bots[i].dir) == p)
                && (forall|j: int| 0 <= j < k ==> bots[j].pos != p) ==> exists|j: int|
                0 <= j < k && step_pos(bots[j].pos, bots[j].dir) == p && #[trigger] map_get(
                    with_bots(m, bots, k),
                    p,
                ) == chevron_tile(j, bots[j].dir),
    decreases k,
{
    if k > 0 {
        let k1 = (k - 1) as nat;
        lemma_with_bots_exact(m, bots, k1);
        lemma_with_bots(m, bots, k1);
        let prev = with_bots(m, bots, k1);
        let b = bots[k1 as int];
        let m1 = map_set(prev, b.pos, bot_tile(k1 as int));
        let c = step_pos(b.pos, b.dir);
        let cur = with_bots(m, bots, k);
        assert forall|q: Pos| true implies map_get(m1, q) == if in_bounds(prev, b.pos) && b.pos == q {
            bot_tile(k1 as int)
        } else {
            map_get(prev, q)
        } by {
            lemma_get_set(prev, b.pos, bot_tile(k1 as int), q);
        }
        lemma_get_set(prev, b.pos, bot_tile(k1 as int), c);
        assert forall|q: Pos| true implies map_get(cur, q) == if map_get(m1, c).kind != TILE_BOT
            && in_bounds(m1, c) && c == q {
            chevron_tile(k1 as int, b.dir)
        } else {
            map_get(m1, q)
        } by {
            lemma_get_set(m1, c, chevron_tile(k1 as int, b.dir), q);
        }
        assert(pos_ok(b.pos));
        assert(c != b.pos);
        assert forall|i: int| 0 <= i < k implies #[trigger] map_get(cur, bots[i].pos) == bot_tile(i) by {
            if i < k1 {
                assert(bots[i].pos != b.pos);
                assert(map_get(prev, bots[i].pos) == bot_tile(i));
            }
        }
        assert forall|p: Pos|
            in_bounds(m, p) && (exists|i: int| 0 <= i < k && step_pos(bots[i].pos, bots[i].dir) == p)
                && (forall|j: int| 0 <= j < k ==> bots[j].pos != p) implies exists|j: int|
            0 <= j < k && step_pos(bots[j].pos, bots[j].dir) == p && #[trigger] map_get(cur, p)
                == chevron_tile(j, bots[j].dir) by {
            assert(bots[k1 as int].pos != p);
            if c == p {
                if map_get(prev, p).kind == TILE_BOT {
                    let j = choose|j: int| 0 <= j < k1 && bots[j].pos == p;
                }
                assert(map_get(cur, p) == chevron_tile(k1 as int, b.dir));
            } else {
                let i = choose|i: int| 0 <= i < k && step_pos(bots[i].pos, bots[i].dir) == p;
                assert(i != k1);
                assert(forall|j: int| 0 <= j < k1 ==> bots[j].pos != p);
                let j = choose|j: int|
                    0 <= j < k1 && step_pos(bots[j].pos, bots[j].dir) == p && #[trigger] map_get(
                        prev,
                        p,
                    ) == chevron_tile(j, bots[j].dir);
                assert(map_get(cur, p) == map_get(prev, p));
            }
        }
    }
}

/// With bots on distinct cells, a snapshot's map shows bot `i` exactly as
/// its bot tile (its index, then zeros), and a cell in front of some bot
/// where no bot stands as the chevron of one of the bots facing it (that
/// bot's index and direction), wherever no object lies.
pub proof fn lemma_rendered_map_exact(
    m: MapView,
    bots: Seq<SnapshotAliveBot>,
    objs: Seq<SnapshotObject>,
)
    requires
        map_wf(m),
        forall|i: int| 0 <= i < bots.len() ==> in_bounds(m, #[trigger] bots[i].pos),
        forall|i: int| 0 <= i < bots.len() ==> pos_ok(#[trigger] bots[i].pos),
        forall|p: Pos| in_bounds(m, p) ==> (#[trigger] map_get(m, p)).kind != TILE_BOT,
        forall|i: int, j: int| 0 <= i < j < bots.len() ==> bots[i].pos != bots[j].pos,
    ensures
        forall|i: int|
            0 <= i < bots.len() && (forall|o: int| 0 <= o < objs.len() ==> objs[o].pos != Some(
                bots[i].pos,
            )) ==> #[trigger] map_get(rendered_map(m, bots, objs), bots[i].pos) == bot_tile(i),
        forall|p: Pos|
            in_bounds(m, p) && (exists|i: int|
                0 <= i < bots.len() && step_pos(bots[i].pos, bots[i].dir) == p) && (forall|j: int|
                0 <= j < bots.len() ==> bots[j].pos != p) && (forall|o: int|
                0 <= o < objs.len() ==> objs[o].pos != Some(p)) ==> exists|j: int|
                0 <= j < bots.len() && step_pos(bots[j].pos, bots[j].dir) == p && #[trigger] map_get(
                    rendered_map(m, bots, objs),
                    p,
                ) == chevron_tile(j, bots[j].dir),
{
    lemma_with_bots(m, bots, bots.len());
    lemma_with_bots_exact(m, bots, bots.len());
    let mb = with_bots(m, bots, bots.len());
    assert forall|i: int|
        0 <= i < bots.len() && (forall|o: int| 0 <= o < objs.len() ==> objs[o].pos != Some(
            bots[i].pos,
        )) implies #[trigger] map_get(rendered_map(m, bots, objs), bots[i].pos) == bot_tile(i) by {
        lemma_with_objects(mb, objs, objs.len(), bots[i].pos);
    }
    assert forall|p: Pos|
        in_bounds(m, p) && (exists|i: int|
            0 <= i < bots.len() && step_pos(bots[i].pos, bots[i].dir) == p) && (forall|j: int|
            0 <= j < bots.len() ==> bots[j].pos != p) && (forall|o: int|
            0 <= o < objs.len() ==> objs[o].pos != Some(p)) implies exists|j: int|
        0 <= j < bots.len() && step_pos(bots[j].pos, bots[j].dir) == p && #[trigger] map_get(
            rendered_map(m, bots, objs),
            p,
        ) == chevron_tile(j, bots[j].dir) by {
        lemma_with_objects(mb, objs, objs.len(), p);
        let j = choose|j: int|
            0 <= j < bots.len() && step_pos(bots[j].pos, bots[j].dir) == p && #[trigger] map_get(
                mb,
                p,
            ) == chevron_tile(j, bots[j].dir);
        assert(map_get(rendered_map(m, bots, objs), p) == map_get(mb, p));
    }
}

/// In a snapshot's map every alive bot stands on a bot tile, and the cell in
/// front of each alive bot holds a chevron unless a bot stands there. This
/// holds where the bots stand on the map, the world's own map holds no bot
/// tile, and no object lies under a bot or in front of one.
pub proof fn lemma_rendered_map_shows_bots(
    m: MapView,
    bots: Seq<SnapshotAliveBot>,
    objs: Seq<SnapshotObject>,
)
    requires
        map_wf(m),
        forall|i: int| 0 <= i < bots.len() ==> in_bounds(m, #[trigger] bots[i].pos),
        forall|i: int| 0 <= i < bots.len() ==> pos_ok(#[trigger] bots[i].pos),
        forall|p: Pos| in_bounds(m, p) ==> (#[trigger] map_get(m, p)).kind != TILE_BOT,
        forall|i: int, j: int|
            0 <= i < bots.len() && 0 <= j < objs.len() ==> objs[j].pos != Some(bots[i].pos)
                && objs[j].pos != Some(step_pos(bots[i].pos, bots[i].dir)),
    ensures
        forall|i: int|
            0 <= i < bots.len() ==> (#[trigger] map_get(rendered_map(m, bots, objs), bots[i].pos)).kind
                == TILE_BOT,
        forall|i: int|
            0 <= i < bots.len() && in_bounds(m, step_pos(bots[i].pos, bots[i].dir)) && (forall|j: int|
                0 <= j < bots.len() ==> bots[j].pos != step_pos(bots[i].pos, bots[i].dir)) ==> (#[trigger] map_get(
                rendered_map(m, bots, objs),
                step_pos(bots[i].pos, bots[i].dir),
            )).kind == TILE_BOT_CHEVRON,
{
    lemma_with_bots(m, bots, bots.len());
    let mb = with_bots(m, bots, bots.len());
    assert forall|i: int| 0 <= i < bots.len() implies (#[trigger] map_get(
        rendered_map(m, bots, objs),
        bots[i].pos,
    )).kind == TILE_BOT by {
        lemma_with_objects(mb, objs, objs.len(), bots[i].pos);
    }
    assert forall|i: int|
        0 <= i < bots.len() && in_bounds(m, step_pos(bots[i].pos, bots[i].dir)) && (forall|j: int|
            0 <= j < bots.len() ==> bots[j].pos != step_pos(bots[i].pos, bots[i].dir)) implies (#[trigger] map_get(
        rendered_map(m, bots, objs),
        step_pos(bots[i].pos, bots[i].dir),
    )).kind == TILE_BOT_CHEVRON by {
        lemma_with_objects(mb, objs, objs.len(), step_pos(bots[i].pos, bots[i].dir));
    }
}


// ---------------------------------------------------------------------------
// World-side inputs

/// An alive bot as the world holds it.
#[derive(Debug)]
pub struct AliveBot {
    pub id: u64,
    pub pos: Pos,
    pub dir: Dir,
    /// Ticks since the bot was spawned.
    pub age: u32,
    pub events: Vec<String>,
    pub serial: Vec<u32>,
}

/// A dead bot, kept for a while so that its log can be read.
#[derive(Debug)]
pub struct DeadBot {
    pub id: u64,
    pub events: Vec<String>,
    pub serial: Vec<u32>,
}

/// A bot waiting for a free spawn slot; `place` counts from zero.
#[derive(Debug)]
pub struct QueuedBot {
    pub id: u64,
    pub place: u32,
    pub requeued: bool,
    pub events: Vec<String>,
    pub serial: Vec<u32>,
}

/// Scores of the bots: pairs of id and score.
#[derive(Debug)]
pub struct Scores {
    pub entries: Vec<(u64, u32)>,
}

/// The score recorded for `id`: the first pair with that id, else zero.
pub open spec fn score_of(entries: Seq<(u64, u32)>, id: u64) -> u32
    decreases entries.len(),
{
    if entries.len() == 0 {
        0
    } else if entries[0].0 == id {
        entries[0].1
    } else {
        score_of(entries.drop_first(), id)
    }
}

impl Scores {
    /// The score of `id`; zero for a bot without one.
    pub fn get(&self, id: u64) -> (r: u32)
        ensures
            r == score_of(self.entries@, id),
    {
        let mut i: usize = 0;
        assert(self.entries@.skip(0) =~= self.entries@);
        while i < self.entries.len()
            invariant
                i <= self.entries@.len(),
                score_of(self.entries@, id) == score_of(self.entries@.skip(i as int), id),
            decreases self.entries@.len() - i,
        {
            assert(self.entries@.skip(i as int).drop_first() =~= self.entries@.skip(i + 1));
            if self.entries[i].0 == id {
                return self.entries[i].1;
            }
            i = i + 1;
        }
        0
    }
}

fn copy_strings(v: &Vec<String>) -> (r: Vec<String>)
    ensures
        r@ == v@,
{
    let mut r: Vec<String> = Vec::new();
    let mut i: usize = 0;
    while i < v.len()
        invariant
            i <= v@.len(),
            r@ == v@.take(i as int),
        decreases v@.len() - i,
    {
        r.push(v[i].clone());
        i = i + 1;
        assert(r@ =~= v@.take(i as int));
    }
    assert(r@ =~= v@);
    r
}

fn copy_words(v: &Vec<u32>) -> (r: Vec<u32>)
    ensures
        r@ == v@,
{
    let mut r: Vec<u32> = Vec::new();
    let mut i: usize = 0;
    while i < v.len()
        invariant
            i <= v@.len(),
            r@ == v@.take(i as int),
        decreases v@.len() - i,
    {
        r.push(v[i]);
        i = i + 1;
        assert(r@ =~= v@.take(i as int));
    }
    assert(r@ =~= v@);
    r
}

// ---------------------------------------------------------------------------
// Alive bots and their ranking

/// The alive bots of a snapshot: the entries in the world's order, a table
/// from id to entry, and the entries' indices from best to worst.
#[derive(Debug)]
pub struct SnapshotAliveBots {
    pub entries: Vec<SnapshotAliveBot>,
    pub id_to_idx: AHashMap<u64, u8>,
    pub idx_by_scores: Vec<u8>,
}

/// Whether `a` ranks before `b`: higher score first, then greater age, then
/// smaller id.
pub open spec fn ranks_before(a: SnapshotAliveBot, b: SnapshotAliveBot) -> bool {
    ||| a.score > b.score
    ||| a.score == b.score && a.age > b.age
    ||| a.score == b.score && a.age == b.age && a.id < b.id
}

/// `idx` lists each index below `n` exactly once.
pub open spec fn is_permutation(idx: Seq<u8>, n: nat) -> bool {
    &&& idx.len() == n
    &&& forall|k: int| 0 <= k < idx.len() ==> (idx[k] as nat) < n
    &&& forall|k: int, l: int| 0 <= k < l < idx.len() ==> idx[k] != idx[l]
    &&& forall|i: int| 0 <= i < n ==> #[trigger] has_index(idx, i)
}

/// Whether `i` occurs in `idx`.
pub open spec fn has_index(idx: Seq<u8>, i: int) -> bool {
    exists|k: int| 0 <= k < idx.len() && idx[k] == i
}

/// `idx` orders `entries` by rank: no entry ranks before one listed earlier.
pub open spec fn is_ranked(entries: Seq<SnapshotAliveBot>, idx: Seq<u8>) -> bool {
    forall|k: int, l: int|
        0 <= k < l < idx.len() ==> !ranks_before(entries[idx[l] as int], entries[idx[k] as int])
}

/// The id table after the first `k` entries were added in order.
pub open spec fn ids_to_indices(entries: Seq<SnapshotAliveBot>, k: nat) -> Map<u64, u8>
    decreases k,
{
    if k == 0 || k > entries.len() {
        empty_index()
    } else {
        ids_to_indices(entries, (k - 1) as nat).insert(entries[k - 1].id, (k - 1) as u8)
    }
}

/// The snapshot entry of an alive bot.
pub open spec fn alive_view(b: AliveBot, scores: Seq<(u64, u32)>) -> SnapshotAliveBot {
    SnapshotAliveBot {
        age: b.age,
        dir: b.dir,
        events: b.events,
        id: b.id,
        pos: b.pos,
        score: score_of(scores, b.id),
        serial: b.serial,
    }
}

/// Two views of an alive bot that show the same thing.
pub open spec fn same_alive(a: SnapshotAliveBot, b: SnapshotAliveBot) -> bool {
    &&& a.age == b.age
    &&& a.dir == b.dir
    &&& a.events@ == b.events@
    &&& a.id == b.id
    &&& a.pos == b.pos
    &&& a.score == b.score
    &&& a.serial@ == b.serial@
}

fn rank_before(a: &SnapshotAliveBot, b: &SnapshotAliveBot) -> (r: bool)
    ensures
        r == ranks_before(*a, *b),
{
    a.score > b.score || (a.score == b.score && a.age > b.age) || (a.score == b.score && a.age
        == b.age && a.id < b.id)
}

/// The indices of `entries` from best to worst, by insertion sort.
fn rank(entries: &Vec<SnapshotAliveBot>) -> (r: Vec<u8>)
    requires
        entries@.len() < 256,
    ensures
        is_permutation(r@, entries@.len()),
        is_ranked(entries@, r@),
{
    let n = entries.len();
    let mut idx: Vec<u8> = Vec::new();
    let mut i: usize = 0;
    while i < n
        invariant
            n == entries@.len(),
            n < 256,
            i <= n,
            idx@.len() == i,
            forall|k: int| 0 <= k < i ==> idx@[k] == k as u8,
        decreases n - i,
    {
        idx.push(i as u8);
        i = i + 1;
    }
    assert forall|v: int| 0 <= v < n implies #[trigger] has_index(idx@, v) by {
        assert(idx@[v] == v as u8);
    }
    assert(is_permutation(idx@, n as nat));
    let mut i: usize = 1;
    while i < n
        invariant
            n == entries@.len(),
            n < 256,
            1 <= i || n == 0,
            i <= n || n == 0,
            is_permutation(idx@, n as nat),
            forall|k: int, l: int|
                0 <= k < l < i && l < n ==> !ranks_before(
                    entries@[idx@[l] as int],
                    entries@[idx@[k] as int],
                ),
        decreases n - i,
    {
        let mut j: usize = i;
        while j > 0 && rank_before(&entries[idx[j] as usize], &entries[idx[j - 1] as usize])
            invariant
                n == entries@.len(),
                n < 256,
                1 <= i < n,
                j <= i,
                is_permutation(idx@, n as nat),
                forall|k: int, l: int|
                    0 <= k < l <= i && l != j && k != j ==> !ranks_before(
                        entries@[idx@[l] as int],
                        entries@[idx@[k] as int],
                    ),
                forall|l: int|
                    j < l <= i ==> !ranks_before(
                        entries@[idx@[l] as int],
                        entries@[idx@[j as int] as int],
                    ),
            decreases j,
        {
            let a = idx[j - 1];
            let b = idx[j];
            let ghost before = idx@;
            idx.set(j - 1, b);
            idx.set(j, a);
            proof {
                assert forall|v: int| 0 <= v < n implies #[trigger] has_index(idx@, v) by {
                    assert(has_index(before, v));
                    let k0 = choose|k: int| 0 <= k < before.len() && before[k] == v;
                    if k0 == j - 1 {
                        assert(idx@[j as int] == v);
                    } else if k0 == j {
                        assert(idx@[j - 1] == v);
                    } else {
                        assert(idx@[k0] == v);
                    }
                }
            }
            j = j - 1;
        }
        assert forall|k: int, l: int| 0 <= k < l <= i implies !ranks_before(
            entries@[idx@[l] as int],
            entries@[idx@[k] as int],
        ) by {
            if l == j && k < j - 1 {
                assert(!ranks_before(entries@[idx@[j - 1] as int], entries@[idx@[k] as int]));
            }
        }
        i = i + 1;
    }
    idx
}

/// `r` shows `bots` in order, with each bot's score, a table from each id to
/// its entry, and the entries ranked.
pub open spec fn alive_prepared(r: SnapshotAliveBots, bots: Seq<AliveBot>, scores: Seq<(u64, u32)>) -> bool {
    &&& r.entries@.len() == bots.len()
    &&& forall|i: int|
        0 <= i < bots.len() ==> same_alive(#[trigger] r.entries@[i], alive_view(bots[i], scores))
    &&& id_index_entries(r.id_to_idx) == ids_to_indices(r.entries@, r.entries@.len())
    &&& is_permutation(r.idx_by_scores@, r.entries@.len())
    &&& is_ranked(r.entries@, r.idx_by_scores@)
}

/// The alive bots as a snapshot shows them, with their id table and ranking.
pub fn prepare_alive_bots(bots: &Vec<AliveBot>, scores: &Scores) -> (r: SnapshotAliveBots)
    requires
        bots@.len() < 256,
    ensures
        alive_prepared(r, bots@, scores.entries@),
{
    let mut entries: Vec<SnapshotAliveBot> = Vec::new();
    let mut i: usize = 0;
    while i < bots.len()
        invariant
            i <= bots@.len(),
            entries@.len() == i,
            forall|k: int|
                0 <= k < i ==> same_alive(
                    #[trigger] entries@[k],
                    alive_view(bots@[k], scores.entries@),
                ),
        decreases bots@.len() - i,
    {
        let bot = &bots[i];
        entries.push(
            SnapshotAliveBot {
                age: bot.age,
                dir: bot.dir,
                events: copy_strings(&bot.events),
                id: bot.id,
                pos: bot.pos,
                score: scores.get(bot.id),
                serial: copy_words(&bot.serial),
            },
        );
        i = i + 1;
    }
    let mut id_to_idx = id_index_new();
    let mut k: usize = 0;
    while k < entries.len()
        invariant
            k <= entries@.len(),
            entries@.len() < 256,
            id_index_entries(id_to_idx) == ids_to_indices(entries@, k as nat),
        decreases entries@.len() - k,
    {
        id_index_insert(&mut id_to_idx, entries[k].id, k as u8);
        k = k + 1;
    }
    let idx_by_scores = rank(&entries);
    SnapshotAliveBots { entries, id_to_idx, idx_by_scores }
}

impl SnapshotAliveBots {
    /// The entry of the bot with id `id`, if it is alive.
    pub fn by_id(&self, id: u64) -> (r: Option<&SnapshotAliveBot>)
        ensures
            match r {
                Some(b) => id_index_entries(self.id_to_idx).contains_key(id) && (id_index_entries(
                    self.id_to_idx,
                )[id] as int) < self.entries@.len() && *b == self.entries@[id_index_entries(
                    self.id_to_idx,
                )[id] as int],
                None => !id_index_entries(self.id_to_idx).contains_key(id) || (id_index_entries(
                    self.id_to_idx,
                )[id] as int) >= self.entries@.len(),
            },
    {
        match id_index_get(&self.id_to_idx, id) {
            Some(idx) => {
                if (idx as usize) < self.entries.len() {
                    Some(&self.entries[idx as usize])
                } else {
                    None
                }
            },
            None => None,
        }
    }
}


// ---------------------------------------------------------------------------
// Dead and queued bots, objects

/// A dead bot as the snapshot shows it.
#[derive(Debug)]
pub struct SnapshotDeadBot {
    pub events: Vec<String>,
    pub serial: Vec<u32>,
}

/// The dead bots of a snapshot, by id, in the world's order.
#[derive(Debug)]
pub struct SnapshotDeadBots {
    pub entries: Vec<(u64, SnapshotDeadBot)>,
}

/// A queued bot as the snapshot shows it; `place` counts from one.
#[derive(Debug)]
pub struct SnapshotQueuedBot {
    pub events: Vec<String>,
    pub place: u32,
    pub requeued: bool,
    pub serial: Vec<u32>,
}

/// The queued bots of a snapshot, by id, in the world's order.
#[derive(Debug)]
pub struct SnapshotQueuedBots {
    pub entries: Vec<(u64, SnapshotQueuedBot)>,
}

/// An object as the world holds it.
#[derive(Clone, Copy, Debug)]
pub struct WorldObject {
    pub id: u64,
    pub pos: Option<Pos>,
    pub obj: Tile,
}

/// The objects of a snapshot.
#[derive(Debug)]
pub struct SnapshotObjects {
    pub objects: Vec<SnapshotObject>,
}

pub open spec fn dead_prepared(r: SnapshotDeadBots, bots: Seq<DeadBot>) -> bool {
    &&& r.entries@.len() == bots.len()
    &&& forall|i: int|
        0 <= i < bots.len() ==> {
            &&& (#[trigger] r.entries@[i]).0 == bots[i].id
            &&& r.entries@[i].1.events@ == bots[i].events@
            &&& r.entries@[i].1.serial@ == bots[i].serial@
        }
}

pub open spec fn queued_prepared(r: SnapshotQueuedBots, bots: Seq<QueuedBot>) -> bool {
    &&& r.entries@.len() == bots.len()
    &&& forall|i: int|
        0 <= i < bots.len() ==> {
            &&& (#[trigger] r.entries@[i]).0 == bots[i].id
            &&& r.entries@[i].1.events@ == bots[i].events@
            &&& r.entries@[i].1.place == bots[i].place + 1
            &&& r.entries@[i].1.requeued == bots[i].requeued
            &&& r.entries@[i].1.serial@ == bots[i].serial@
        }
}

pub open spec fn objects_prepared(r: SnapshotObjects, objects: Seq<WorldObject>) -> bool {
    &&& r.objects@.len() == objects.len()
    &&& forall|i: int|
        0 <= i < objects.len() ==> {
            &&& (#[trigger] r.objects@[i]).id == objects[i].id
            &&& r.objects@[i].pos == objects[i].pos
            &&& r.objects@[i].obj == objects[i].obj
        }
}

/// The dead bots as a snapshot shows them.
pub fn prepare_dead_bots(bots: &Vec<DeadBot>) -> (r: SnapshotDeadBots)
    ensures
        dead_prepared(r, bots@),
{
    let mut entries: Vec<(u64, SnapshotDeadBot)> = Vec::new();
    let mut i: usize = 0;
    while i < bots.len()
        invariant
            i <= bots@.len(),
            dead_prepared(SnapshotDeadBots { entries }, bots@.take(i as int)),
        decreases bots@.len() - i,
    {
        let bot = &bots[i];
        let view = SnapshotDeadBot { events: copy_strings(&bot.events), serial: copy_words(&bot.serial) };
        entries.push((bot.id, view));
        i = i + 1;
        assert(bots@.take(i as int).drop_last() =~= bots@.take(i - 1));
    }
    assert(bots@.take(i as int) =~= bots@);
    SnapshotDeadBots { entries }
}

/// The queued bots as a snapshot shows them, with places counted from one.
pub fn prepare_queued_bots(bots: &Vec<QueuedBot>) -> (r: SnapshotQueuedBots)
    requires
        forall|i: int| 0 <= i < bots@.len() ==> (#[trigger] bots@[i]).place < u32::MAX,
    ensures
        queued_prepared(r, bots@),
{
    let mut entries: Vec<(u64, SnapshotQueuedBot)> = Vec::new();
    let mut i: usize = 0;
    while i < bots.len()
        invariant
            i <= bots@.len(),
            forall|i: int| 0 <= i < bots@.len() ==> (#[trigger] bots@[i]).place < u32::MAX,
            queued_prepared(SnapshotQueuedBots { entries }, bots@.take(i as int)),
        decreases bots@.len() - i,
    {
        let bot = &bots[i];
        let view = SnapshotQueuedBot {
            events: copy_strings(&bot.events),
            place: bot.place + 1,
            requeued: bot.requeued,
            serial: copy_words(&bot.serial),
        };
        entries.push((bot.id, view));
        i = i + 1;
        assert(bots@.take(i as int).drop_last() =~= bots@.take(i - 1));
    }
    assert(bots@.take(i as int) =~= bots@);
    SnapshotQueuedBots { entries }
}

/// The objects as a snapshot shows them.
pub fn prepare_objects(objects: &Vec<WorldObject>) -> (r: SnapshotObjects)
    ensures
        objects_prepared(r, objects@),
{
    let mut out: Vec<SnapshotObject> = Vec::new();
    let mut i: usize = 0;
    while i < objects.len()
        invariant
            i <= objects@.len(),
            objects_prepared(SnapshotObjects { objects: out }, objects@.take(i as int)),
        decreases objects@.len() - i,
    {
        let obj = objects[i];
        out.push(SnapshotObject { id: obj.id, pos: obj.pos, obj: obj.obj });
        i = i + 1;
        assert(objects@.take(i as int).drop_last() =~= objects@.take(i - 1));
    }
    assert(objects@.take(i as int) =~= objects@);
    SnapshotObjects { objects: out }
}


// ---------------------------------------------------------------------------
// Publishing

/// Milliseconds between two snapshots while the clock is not manual.
pub const PUBLISH_INTERVAL_MS: u64 = 33;

/// Every bot of a world, by state.
#[derive(Debug)]
pub struct Bots {
    pub alive: Vec<AliveBot>,
    pub dead: Vec<DeadBot>,
    pub queued: Vec<QueuedBot>,
}

/// The bots of a snapshot.
#[derive(Debug)]
pub struct SnapshotBots {
    pub alive: SnapshotAliveBots,
    pub dead: SnapshotDeadBots,
    pub queued: SnapshotQueuedBots,
}

/// An immutable view of a world at one version.
#[derive(Debug)]
pub struct Snapshot {
    /// The world's map without bots and objects.
    pub raw_map: TileMap,
    /// The map with the alive bots and the objects drawn over it.
    pub map: TileMap,
    pub bots: SnapshotBots,
    pub objects: SnapshotObjects,
    pub clock: Clock,
    pub version: u64,
}

/// The snapshotter's own state: when it may publish next, in milliseconds of
/// the host's monotonic clock, and the version of the last snapshot.
#[derive(Debug)]
pub struct State {
    pub next_run_at: u64,
    pub version: u64,
}

impl Default for State {
    /// Ready to publish at once; no snapshot published yet.
    fn default() -> (r: State)
        ensures
            r.next_run_at == 0,
            r.version == 0,
    {
        State { next_run_at: 0, version: 0 }
    }
}

/// What the world hands to the snapshotter can be drawn: the map is
/// well-formed, at most 255 bots are alive and stand where the cell in front
/// of them can be computed, and every queue place can be shown counted from
/// one.
pub open spec fn world_drawable(map: TileMap, bots: Bots) -> bool {
    &&& map.wf()
    &&& bots.alive@.len() < 256
    &&& forall|i: int| 0 <= i < bots.alive@.len() ==> pos_ok(#[trigger] bots.alive@[i].pos)
    &&& forall|i: int| 0 <= i < bots.queued@.len() ==> (#[trigger] bots.queued@[i]).place < u32::MAX
}

/// `s` shows the world given by `map`, `objects`, `scores` and `bots`.
pub open spec fn shows_world(
    s: Snapshot,
    clock: Clock,
    map: MapView,
    objects: Seq<WorldObject>,
    scores: Seq<(u64, u32)>,
    bots: Bots,
) -> bool {
    &&& s.clock == clock
    &&& s.raw_map@ == map
    &&& s.map@ == rendered_map(map, s.bots.alive.entries@, s.objects.objects@)
    &&& alive_prepared(s.bots.alive, bots.alive@, scores)
    &&& dead_prepared(s.bots.dead, bots.dead@)
    &&& queued_prepared(s.bots.queued, bots.queued@)
    &&& objects_prepared(s.objects, objects)
}

/// The next moment at which the snapshotter may publish, after publishing at
/// `now`.
pub open spec fn next_run(clock: Clock, now: u64) -> u64 {
    if clock == Clock::Manual {
        now
    } else {
        (now + PUBLISH_INTERVAL_MS) as u64
    }
}

/// Builds the next snapshot if it is time to: at or after `next_run_at`. The
/// version goes up by one with each snapshot.
pub fn send(
    state: &mut State,
    now: u64,
    clock: Clock,
    map: &TileMap,
    objects: &Vec<WorldObject>,
    scores: &Scores,
    bots: &Bots,
) -> (r: Option<Snapshot>)
    requires
        world_drawable(*map, *bots),
        old(state).version < u64::MAX,
        now <= u64::MAX - PUBLISH_INTERVAL_MS,
    ensures
        now < old(state).next_run_at ==> r is None && *final(state) == *old(state),
        now >= old(state).next_run_at ==> {
            &&& final(state).version == old(state).version + 1
            &&& final(state).next_run_at == next_run(clock, now)
            &&& r matches Some(s) && s.version == final(state).version && shows_world(
                s,
                clock,
                map@,
                objects@,
                scores.entries@,
                *bots,
            )
        },
{
    if now < state.next_run_at {
        return None;
    }
    state.version = state.version + 1;
    let alive = prepare_alive_bots(&bots.alive, scores);
    let dead = prepare_dead_bots(&bots.dead);
    let queued = prepare_queued_bots(&bots.queued);
    let objs = prepare_objects(objects);
    assert forall|i: int| 0 <= i < alive.entries@.len() implies pos_ok(
        #[trigger] alive.entries@[i].pos,
    ) by {
        assert(same_alive(alive.entries@[i], alive_view(bots.alive@[i], scores.entries@)));
    }
    let drawn = prepare_map(&alive.entries, map, &objs.objects);
    let snapshot = Snapshot {
        raw_map: map.copy(),
        map: drawn,
        bots: SnapshotBots { alive, dead, queued },
        objects: objs,
        clock,
        version: state.version,
    };
    state.next_run_at = match clock {
        Clock::Manual => now,
        _ => now + PUBLISH_INTERVAL_MS,
    };
    Some(snapshot)
}

/// A snapshot is determined by the world it shows: two snapshots of the same
/// world (clock, map, objects, scores and bots) at the same version have the
/// same maps, the same entries, the same id table and the same ranking, as
/// long as no two alive bots share an id.
pub proof fn lemma_snapshot_determinism(
    s1: Snapshot,
    s2: Snapshot,
    clock: Clock,
    map: MapView,
    objects: Seq<WorldObject>,
    scores: Seq<(u64, u32)>,
    bots: Bots,
)
    requires
        shows_world(s1, clock, map, objects, scores, bots),
        shows_world(s2, clock, map, objects, scores, bots),
        s1.version == s2.version,
        forall|i: int, j: int|
            0 <= i < j < bots.alive@.len() ==> bots.alive@[i].id != bots.alive@[j].id,
    ensures
        s1.clock == s2.clock,
        s1.raw_map@ == s2.raw_map@,
        s1.map@ == s2.map@,
        s1.bots.alive.entries@.len() == s2.bots.alive.entries@.len(),
        forall|i: int|
            0 <= i < s1.bots.alive.entries@.len() ==> same_alive(
                #[trigger] s1.bots.alive.entries@[i],
                s2.bots.alive.entries@[i],
            ),
        id_index_entries(s1.bots.alive.id_to_idx) == id_index_entries(s2.bots.alive.id_to_idx),
        s1.bots.alive.idx_by_scores@ == s2.bots.alive.idx_by_scores@,
{
    let a = s1.bots.alive.entries@;
    let b = s2.bots.alive.entries@;
    assert forall|i: int| 0 <= i < a.len() implies a[i].pos == b[i].pos && a[i].dir == b[i].dir
        && a[i].id == b[i].id && a[i].score == b[i].score && a[i].age == b[i].age by {
        assert(same_alive(a[i], alive_view(bots.alive@[i], scores)));
        assert(same_alive(b[i], alive_view(bots.alive@[i], scores)));
    }
    assert forall|i: int, j: int| 0 <= i < j < a.len() implies a[i].id != a[j].id by {
        assert(same_alive(a[i], alive_view(bots.alive@[i], scores)));
        assert(same_alive(a[j], alive_view(bots.alive@[j], scores)));
    }
    assert forall|i: int| 0 <= i < a.len() implies same_alive(#[trigger] a[i], b[i]) by {
        assert(same_alive(a[i], alive_view(bots.alive@[i], scores)));
        assert(same_alive(b[i], alive_view(bots.alive@[i], scores)));
    }
    let o1 = s1.objects.objects@;
    let o2 = s2.objects.objects@;
    assert forall|i: int| 0 <= i < o1.len() implies o1[i].pos == o2[i].pos && o1[i].obj == o2[i].obj by {
        assert(o1[i].pos == objects[i].pos && o2[i].pos == objects[i].pos);
    }
    lemma_with_bots_congruent(map, a, b, a.len());
    lemma_with_objects_congruent(with_bots(map, a, a.len()), o1, o2, o1.len());
    lemma_ids_to_indices_congruent(a, b, a.len());
    lemma_ranking_unique(a, b, s1.bots.alive.idx_by_scores@, s2.bots.alive.idx_by_scores@);
}

} // verus!
