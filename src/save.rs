//! The saved form of a world's state: a magic header, a format word, then
//! the snapshot version, the clock, the map, the scores and the objects, all
//! integers little-endian.

use vstd::prelude::*;
use crate::map::{TileMap, MapView, Tile, map_wf};
use crate::snapshot::{Clock, Scores, WorldObject};
use crate::map::Pos;

verus! {

/// First four bytes of a saved world.
pub const MAGIC: u32 = 0x7472_616b;

/// Layout of the bytes that follow the header.
pub const FORMAT: u32 = 1;

/// The first part of a saved world: everything but its objects.
#[derive(Debug)]
struct Head {
    pub version: u64,
    pub clock: Clock,
    pub map: TileMap,
    pub scores: Scores,
}

/// Why saved bytes could not be read back.
#[derive(Clone, Copy, Debug, PartialEq, Eq, Structural)]
pub enum LoadError {
    /// The bytes do not start with the header.
    NotAWorld,
    /// The bytes are of a format that this library does not read.
    UnsupportedFormat(u32),
    /// The bytes end early, run on past the end, or hold a value out of range.
    Corrupted,
}

pub open spec fn byte_of(v: u64, k: int) -> u8 {
    ((v >> ((8 * k) as u64)) & 0xff) as u8
}

/// `v`'s low `n` bytes, least significant first.
pub open spec fn le_bytes(v: u64, n: nat) -> Seq<u8> {
    Seq::new(n, |k: int| byte_of(v, k))
}

/// The value of the `n` bytes at `pos`, least significant first.
pub open spec fn le_read(b: Seq<u8>, pos: int, n: nat) -> u64
    decreases n,
{
    if n == 0 {
        0
    } else {
        le_read(b, pos, (n - 1) as nat) | ((b[pos + n - 1] as u64) << ((8 * (n - 1)) as u64))
    }
}

pub open spec fn clock_code(c: Clock) -> u8 {
    match c {
        Clock::Manual => 0,
        Clock::Normal => 1,
        Clock::Fast => 2,
        Clock::Unlimited => 3,
    }
}

pub open spec fn tile_bytes(t: Tile) -> Seq<u8> {
    seq![t.kind, t.meta[0], t.meta[1], t.meta[2]]
}

pub open spec fn tiles_bytes(ts: Seq<Tile>) -> Seq<u8>
    decreases ts.len(),
{
    if ts.len() == 0 {
        Seq::empty()
    } else {
        tiles_bytes(ts.drop_last()) + tile_bytes(ts.last())
    }
}

pub open spec fn score_bytes(e: (u64, u32)) -> Seq<u8> {
    le_bytes(e.0, 8) + le_bytes(e.1 as u64, 4)
}

pub open spec fn scores_bytes(es: Seq<(u64, u32)>) -> Seq<u8>
    decreases es.len(),
{
    if es.len() == 0 {
        Seq::empty()
    } else {
        scores_bytes(es.drop_last()) + score_bytes(es.last())
    }
}

/// The bytes of a saved world.
pub open spec fn head_encoding(version: u64, clock: Clock, map: MapView, scores: Seq<(u64, u32)>) -> Seq<u8> {
    le_bytes(MAGIC as u64, 4) + le_bytes(FORMAT as u64, 4) + le_bytes(version, 8) + seq![
        clock_code(clock),
    ] + le_bytes(map.width as u64, 4) + le_bytes(map.height as u64, 4) + tiles_bytes(map.tiles) + le_bytes(
        scores.len() as u64,
        4,
    ) + scores_bytes(scores)
}

// ---------------------------------------------------------------------------
// Integers

proof fn lemma_le_round_trip_8(v: u64)
    ensures
        ({
            let b = le_bytes(v, 8);
            le_read(b, 0, 8) == v
        }),
{
    let b = le_bytes(v, 8);
    reveal_with_fuel(le_read, 9);
    let b0 = b[0];
    let b1 = b[1];
    let b2 = b[2];
    let b3 = b[3];
    let b4 = b[4];
    let b5 = b[5];
    let b6 = b[6];
    let b7 = b[7];
    assert(b0 == ((v >> 0u64) & 0xff) as u8);
    assert(b7 == ((v >> 56u64) & 0xff) as u8);
    assert(b1 == ((v >> 8u64) & 0xff) as u8);
    assert(b2 == ((v >> 16u64) & 0xff) as u8);
    assert(b3 == ((v >> 24u64) & 0xff) as u8);
    assert(b4 == ((v >> 32u64) & 0xff) as u8);
    assert(b5 == ((v >> 40u64) & 0xff) as u8);
    assert(b6 == ((v >> 48u64) & 0xff) as u8);
    assert(0u64 | ((b0 as u64) << 0u64) | ((b1 as u64) << 8u64) | ((b2 as u64) << 16u64) | ((
    b3 as u64) << 24u64) | ((b4 as u64) << 32u64) | ((b5 as u64) << 40u64) | ((b6 as u64)
        << 48u64) | ((b7 as u64) << 56u64) == v) by (bit_vector)
        requires
            b0 == ((v >> 0u64) & 0xff) as u8,
            b1 == ((v >> 8u64) & 0xff) as u8,
            b2 == ((v >> 16u64) & 0xff) as u8,
            b3 == ((v >> 24u64) & 0xff) as u8,
            b4 == ((v >> 32u64) & 0xff) as u8,
            b5 == ((v >> 40u64) & 0xff) as u8,
            b6 == ((v >> 48u64) & 0xff) as u8,
            b7 == ((v >> 56u64) & 0xff) as u8,
    ;
}

proof fn lemma_le_round_trip_4(v: u64)
    requires
        v <= u32::MAX,
    ensures
        ({
            let b = le_bytes(v, 4);
            le_read(b, 0, 4) == v
        }),
{
    let b = le_bytes(v, 4);
    reveal_with_fuel(le_read, 5);
    let b0 = b[0];
    let b1 = b[1];
    let b2 = b[2];
    let b3 = b[3];
    assert(b0 == ((v >> 0u64) & 0xff) as u8);
    assert(b1 == ((v >> 8u64) & 0xff) as u8);
    assert(b2 == ((v >> 16u64) & 0xff) as u8);
    assert(b3 == ((v >> 24u64) & 0xff) as u8);
    assert(0u64 | ((b0 as u64) << 0u64) | ((b1 as u64) << 8u64) | ((b2 as u64) << 16u64) | ((
    b3 as u64) << 24u64) == v) by (bit_vector)
        requires
            v <= 0xffff_ffffu64,
            b0 == ((v >> 0u64) & 0xff) as u8,
            b1 == ((v >> 8u64) & 0xff) as u8,
            b2 == ((v >> 16u64) & 0xff) as u8,
            b3 == ((v >> 24u64) & 0xff) as u8,
    ;
}

/// Reading bytes depends only on the bytes read.
proof fn lemma_le_read_shift(b: Seq<u8>, pos: int, c: Seq<u8>, n: nat)
    requires
        0 <= pos,
        pos + n <= b.len(),
        n <= c.len(),
        forall|k: int| 0 <= k < n ==> b[pos + k] == c[k],
    ensures
        le_read(b, pos, n) == le_read(c, 0, n),
    decreases n,
{
    if n > 0 {
        lemma_le_read_shift(b, pos, c, (n - 1) as nat);
        assert(b[pos + n - 1] == c[n - 1]);
    }
}

fn put_le(out: &mut Vec<u8>, v: u64, n: usize)
    requires
        n <= 8,
    ensures
        final(out)@ == old(out)@ + le_bytes(v, n as nat),
{
    let ghost start = out@;
    let mut k: usize = 0;
    while k < n
        invariant
            k <= n <= 8,
            out@ == start + le_bytes(v, k as nat),
        decreases n - k,
    {
        out.push(((v >> ((8 * k) as u64)) & 0xff) as u8);
        k = k + 1;
        assert(le_bytes(v, k as nat) =~= le_bytes(v, (k - 1) as nat).push(byte_of(v, k - 1)));
        assert(out@ =~= start + le_bytes(v, k as nat));
    }
}

fn get_le(b: &Vec<u8>, pos: usize, n: usize) -> (r: Option<u64>)
    requires
        n <= 8,
    ensures
        pos + n <= b@.len() ==> r == Some(le_read(b@, pos as int, n as nat)),
        pos + n > b@.len() ==> r is None,
{
    if pos > b.len() || b.len() - pos < n {
        return None;
    }
    let len = b.len();
    let mut val: u64 = 0;
    let mut k: usize = 0;
    while k < n
        invariant
            k <= n <= 8,
            len == b@.len(),
            pos + n <= b@.len(),
            val == le_read(b@, pos as int, k as nat),
        decreases n - k,
    {
        val = val | ((b[pos + k] as u64) << ((8 * k) as u64));
        k = k + 1;
    }
    Some(val)
}

// ---------------------------------------------------------------------------
// Layout

proof fn lemma_tiles_bytes(ts: Seq<Tile>)
    ensures
        tiles_bytes(ts).len() == 4 * ts.len(),
        forall|i: int, k: int|
            0 <= i < ts.len() && 0 <= k < 4 ==> tiles_bytes(ts)[4 * i + k] == #[trigger] tile_bytes(
                ts[i],
            )[k],
    decreases ts.len(),
{
    if ts.len() > 0 {
        let init = ts.drop_last();
        lemma_tiles_bytes(init);
        assert forall|i: int, k: int| 0 <= i < ts.len() && 0 <= k < 4 implies tiles_bytes(ts)[4 * i
            + k] == #[trigger] tile_bytes(ts[i])[k] by {
            if i < ts.len() - 1 {
                assert(init[i] == ts[i]);
                assert(tile_bytes(init[i])[k] == tiles_bytes(init)[4 * i + k]);
            }
        }
    }
}

proof fn lemma_scores_bytes(es: Seq<(u64, u32)>)
    ensures
        scores_bytes(es).len() == 12 * es.len(),
        forall|j: int, k: int|
            0 <= j < es.len() && 0 <= k < 12 ==> scores_bytes(es)[12 * j + k] == #[trigger] score_bytes(
                es[j],
            )[k],
    decreases es.len(),
{
    if es.len() > 0 {
        let init = es.drop_last();
        lemma_scores_bytes(init);
        assert forall|j: int, k: int| 0 <= j < es.len() && 0 <= k < 12 implies scores_bytes(es)[12
            * j + k] == #[trigger] score_bytes(es[j])[k] by {
            if j < es.len() - 1 {
                assert(init[j] == es[j]);
                assert(score_bytes(init[j])[k] == scores_bytes(init)[12 * j + k]);
            }
        }
    }
}

/// A state that can be saved: a well-formed map whose sides, and a score
/// table whose length, fit in 32 bits.
pub open spec fn saveable(map: MapView, scores: Seq<(u64, u32)>) -> bool {
    &&& map_wf(map)
    &&& map.width <= u32::MAX
    &&& map.height <= u32::MAX
    &&& scores.len() <= u32::MAX
}

/// Offset of the first tile.
pub open spec fn tiles_at() -> int {
    25
}

proof fn lemma_layout(v: u64, c: Clock, m: MapView, s: Seq<(u64, u32)>)
    ensures
        ({
            let e = head_encoding(v, c, m, s);
            let n = m.tiles.len() as int;
            &&& e.len() == 29 + 4 * n + 12 * s.len()
            &&& forall|k: int| 0 <= k < 4 ==> e[k] == #[trigger] le_bytes(MAGIC as u64, 4)[k]
            &&& forall|k: int| 0 <= k < 4 ==> e[4 + k] == #[trigger] le_bytes(FORMAT as u64, 4)[k]
            &&& forall|k: int| 0 <= k < 8 ==> e[8 + k] == #[trigger] le_bytes(v, 8)[k]
            &&& e[16] == clock_code(c)
            &&& forall|k: int| 0 <= k < 4 ==> e[17 + k] == #[trigger] le_bytes(m.width as u64, 4)[k]
            &&& forall|k: int| 0 <= k < 4 ==> e[21 + k] == #[trigger] le_bytes(m.height as u64, 4)[k]
            &&& forall|i: int, k: int|
                0 <= i < n && 0 <= k < 4 ==> e[25 + 4 * i + k] == #[trigger] tile_bytes(m.tiles[i])[k]
            &&& forall|k: int|
                0 <= k < 4 ==> e[25 + 4 * n + k] == #[trigger] le_bytes(s.len() as u64, 4)[k]
            &&& forall|j: int, k: int|
                0 <= j < s.len() && 0 <= k < 12 ==> e[29 + 4 * n + 12 * j + k]
                    == #[trigger] score_bytes(s[j])[k]
        }),
{
    lemma_tiles_bytes(m.tiles);
    lemma_scores_bytes(s);
    let n = m.tiles.len() as int;
    let e = head_encoding(v, c, m, s);
    let tb = tiles_bytes(m.tiles);
    let sb = scores_bytes(s);
    let head = le_bytes(MAGIC as u64, 4) + le_bytes(FORMAT as u64, 4) + le_bytes(v, 8) + seq![
        clock_code(c),
    ] + le_bytes(m.width as u64, 4) + le_bytes(m.height as u64, 4);
    assert(head.len() == 25);
    assert(e == head + tb + le_bytes(s.len() as u64, 4) + sb);
    assert forall|i: int, k: int| 0 <= i < n && 0 <= k < 4 implies e[25 + 4 * i + k]
        == #[trigger] tile_bytes(m.tiles[i])[k] by {
        assert(e[25 + 4 * i + k] == tb[4 * i + k]);
    }
    assert forall|j: int, k: int| 0 <= j < s.len() && 0 <= k < 12 implies e[29 + 4 * n + 12 * j
        + k] == #[trigger] score_bytes(s[j])[k] by {
        assert(e[29 + 4 * n + 12 * j + k] == sb[12 * j + k]);
    }
}

// ---------------------------------------------------------------------------
// Saving

fn clock_byte(c: Clock) -> (r: u8)
    ensures
        r == clock_code(c),
{
    match c {
        Clock::Manual => 0,
        Clock::Normal => 1,
        Clock::Fast => 2,
        Clock::Unlimited => 3,
    }
}

// ---------------------------------------------------------------------------
// Loading

/// What the first part of saved bytes stands for.
pub struct HeadView {
    pub version: u64,
    pub clock: Clock,
    pub map: MapView,
    pub scores: Seq<(u64, u32)>,
}

/// Whether `b` are the first part of the bytes of a saveable state.
pub open spec fn head_encodes(b: Seq<u8>, t: HeadView) -> bool {
    saveable(t.map, t.scores) && head_encoding(t.version, t.clock, t.map, t.scores) == b
}

proof fn lemma_read_field(b: Seq<u8>, pos: int, x: u64, n: nat)
    requires
        n == 4 || n == 8,
        n == 4 ==> x <= u32::MAX,
        0 <= pos,
        pos + n <= b.len(),
        forall|k: int| 0 <= k < n ==> b[pos + k] == #[trigger] le_bytes(x, n)[k],
    ensures
        le_read(b, pos, n) == x,
{
    lemma_le_read_shift(b, pos, le_bytes(x, n), n);
    if n == 4 {
        lemma_le_round_trip_4(x);
    } else {
        lemma_le_round_trip_8(x);
    }
}

proof fn lemma_fields(b: Seq<u8>, t: HeadView)
    requires
        head_encodes(b, t),
    ensures
        ({
            let n = t.map.tiles.len() as int;
            &&& b.len() == 29 + 4 * n + 12 * t.scores.len()
            &&& n == t.map.width * t.map.height
            &&& le_read(b, 0, 4) == MAGIC
            &&& le_read(b, 4, 4) == FORMAT
            &&& le_read(b, 8, 8) == t.version
            &&& b[16] == clock_code(t.clock)
            &&& le_read(b, 17, 4) == t.map.width
            &&& le_read(b, 21, 4) == t.map.height
            &&& forall|i: int, k: int|
                0 <= i < n && 0 <= k < 4 ==> b[25 + 4 * i + k] == #[trigger] tile_bytes(
                    t.map.tiles[i],
                )[k]
            &&& le_read(b, 25 + 4 * n, 4) == t.scores.len()
            &&& forall|j: int|
                0 <= j < t.scores.len() ==> le_read(b, 29 + 4 * n + 12 * j, 8) == (#[trigger] t.scores[j]).0
                    && le_read(b, 29 + 4 * n + 12 * j + 8, 4) == t.scores[j].1
        }),
{
    let n = t.map.tiles.len() as int;
    let s = t.scores;
    lemma_layout(t.version, t.clock, t.map, s);
    lemma_read_field(b, 0, MAGIC as u64, 4);
    lemma_read_field(b, 4, FORMAT as u64, 4);
    lemma_read_field(b, 8, t.version, 8);
    lemma_read_field(b, 17, t.map.width as u64, 4);
    lemma_read_field(b, 21, t.map.height as u64, 4);
    assert forall|k: int| 0 <= k < 4 implies b[25 + 4 * n + k] == #[trigger] le_bytes(
        s.len() as u64,
        4,
    )[k] by {}
    lemma_read_field(b, 25 + 4 * n, s.len() as u64, 4);
    assert forall|j: int|
        0 <= j < s.len() implies le_read(b, 29 + 4 * n + 12 * j, 8) == (#[trigger] s[j]).0
            && le_read(b, 29 + 4 * n + 12 * j + 8, 4) == s[j].1 by {
        let p = 29 + 4 * n + 12 * j;
        assert(0 <= 12 * j + 12 <= 12 * s.len()) by (nonlinear_arith)
            requires
                0 <= j < s.len(),
        ;
        assert forall|k: int| 0 <= k < 8 implies b[p + k] == #[trigger] le_bytes(s[j].0, 8)[k] by {
            assert(b[p + k] == score_bytes(s[j])[k]);
        }
        lemma_read_field(b, p, s[j].0, 8);
        assert forall|k: int| 0 <= k < 4 implies b[p + 8 + k] == #[trigger] le_bytes(
            s[j].1 as u64,
            4,
        )[k] by {
            assert(b[p + (8 + k)] == score_bytes(s[j])[8 + k]);
        }
        lemma_read_field(b, p + 8, s[j].1 as u64, 4);
    }
}

proof fn lemma_le_read_4_bound(b: Seq<u8>, pos: int)
    ensures
        le_read(b, pos, 4) <= u32::MAX,
{
    reveal_with_fuel(le_read, 5);
    let b0 = b[pos];
    let b1 = b[pos + 1];
    let b2 = b[pos + 2];
    let b3 = b[pos + 3];
    assert(0u64 | ((b0 as u64) << 0u64) | ((b1 as u64) << 8u64) | ((b2 as u64) << 16u64) | ((
    b3 as u64) << 24u64) <= 0xffff_ffffu64) by (bit_vector);
}

proof fn lemma_le_bytes_of_read_8(b: Seq<u8>, pos: int)
    requires
        0 <= pos,
        pos + 8 <= b.len(),
    ensures
        forall|k: int| 0 <= k < 8 ==> b[pos + k] == #[trigger] le_bytes(le_read(b, pos, 8), 8)[k],
{
    reveal_with_fuel(le_read, 9);
    let x = le_read(b, pos, 8);
    let b0 = b[pos];
    let b1 = b[pos + 1];
    let b2 = b[pos + 2];
    let b3 = b[pos + 3];
    let b4 = b[pos + 4];
    let b5 = b[pos + 5];
    let b6 = b[pos + 6];
    let b7 = b[pos + 7];
    assert(x == 0u64 | ((b0 as u64) << 0u64) | ((b1 as u64) << 8u64) | ((b2 as u64) << 16u64) | ((
    b3 as u64) << 24u64) | ((b4 as u64) << 32u64) | ((b5 as u64) << 40u64) | ((b6 as u64)
        << 48u64) | ((b7 as u64) << 56u64));
    assert(b0 == ((x >> 0u64) & 0xff) as u8 && b1 == ((x >> 8u64) & 0xff) as u8 && b2 == ((x
        >> 16u64) & 0xff) as u8 && b3 == ((x >> 24u64) & 0xff) as u8 && b4 == ((x >> 32u64)
        & 0xff) as u8 && b5 == ((x >> 40u64) & 0xff) as u8 && b6 == ((x >> 48u64) & 0xff) as u8
        && b7 == ((x >> 56u64) & 0xff) as u8) by (bit_vector)
        requires
            x == 0u64 | ((b0 as u64) << 0u64) | ((b1 as u64) << 8u64) | ((b2 as u64) << 16u64) | ((
            b3 as u64) << 24u64) | ((b4 as u64) << 32u64) | ((b5 as u64) << 40u64) | ((
            b6 as u64) << 48u64) | ((b7 as u64) << 56u64),
    ;
}

proof fn lemma_le_bytes_of_read_4(b: Seq<u8>, pos: int)
    requires
        0 <= pos,
        pos + 4 <= b.len(),
    ensures
        forall|k: int| 0 <= k < 4 ==> b[pos + k] == #[trigger] le_bytes(le_read(b, pos, 4), 4)[k],
{
    reveal_with_fuel(le_read, 5);
    let x = le_read(b, pos, 4);
    let b0 = b[pos];
    let b1 = b[pos + 1];
    let b2 = b[pos + 2];
    let b3 = b[pos + 3];
    assert(x == 0u64 | ((b0 as u64) << 0u64) | ((b1 as u64) << 8u64) | ((b2 as u64) << 16u64) | ((
    b3 as u64) << 24u64));
    assert(b0 == ((x >> 0u64) & 0xff) as u8 && b1 == ((x >> 8u64) & 0xff) as u8 && b2 == ((x
        >> 16u64) & 0xff) as u8 && b3 == ((x >> 24u64) & 0xff) as u8) by (bit_vector)
        requires
            x == 0u64 | ((b0 as u64) << 0u64) | ((b1 as u64) << 8u64) | ((b2 as u64) << 16u64) | ((
            b3 as u64) << 24u64),
    ;
}

proof fn lemma_sound(b: Seq<u8>, v: u64, c: Clock, m: MapView, s: Seq<(u64, u32)>, n: int)
    requires
        map_wf(m),
        m.width <= u32::MAX,
        m.height <= u32::MAX,
        s.len() <= u32::MAX,
        n == m.tiles.len(),
        b.len() == 29 + 4 * n + 12 * s.len(),
        le_read(b, 0, 4) == MAGIC,
        le_read(b, 4, 4) == FORMAT,
        le_read(b, 8, 8) == v,
        b[16] == clock_code(c),
        le_read(b, 17, 4) == m.width,
        le_read(b, 21, 4) == m.height,
        le_read(b, 25 + 4 * n, 4) == s.len(),
        forall|a: int, k: int|
            0 <= a < n && 0 <= k < 4 ==> b[25 + 4 * a + k] == #[trigger] tile_bytes(m.tiles[a])[k],
        forall|a: int|
            0 <= a < s.len() ==> le_read(b, 29 + 4 * n + 12 * a, 8) == (#[trigger] s[a]).0
                && le_read(b, 29 + 4 * n + 12 * a + 8, 4) == s[a].1,
    ensures
        head_encodes(b, HeadView { version: v, clock: c, map: m, scores: s }),
{
    let e = head_encoding(v, c, m, s);
    lemma_layout(v, c, m, s);
    lemma_le_bytes_of_read_4(b, 0);
    lemma_le_bytes_of_read_4(b, 4);
    lemma_le_bytes_of_read_8(b, 8);
    lemma_le_bytes_of_read_4(b, 17);
    lemma_le_bytes_of_read_4(b, 21);
    lemma_le_bytes_of_read_4(b, 25 + 4 * n);
    assert forall|x: int| 0 <= x < b.len() implies e[x] == b[x] by {
        if x < 4 {
            assert(e[0 + x] == le_bytes(MAGIC as u64, 4)[x]);
        } else if x < 8 {
            assert(e[4 + (x - 4)] == le_bytes(FORMAT as u64, 4)[x - 4]);
            assert(b[4 + (x - 4)] == le_bytes(le_read(b, 4, 4), 4)[x - 4]);
        } else if x < 16 {
            assert(e[8 + (x - 8)] == le_bytes(v, 8)[x - 8]);
            assert(b[8 + (x - 8)] == le_bytes(le_read(b, 8, 8), 8)[x - 8]);
        } else if x == 16 {
        } else if x < 21 {
            assert(e[17 + (x - 17)] == le_bytes(m.width as u64, 4)[x - 17]);
            assert(b[17 + (x - 17)] == le_bytes(le_read(b, 17, 4), 4)[x - 17]);
        } else if x < 25 {
            assert(e[21 + (x - 21)] == le_bytes(m.height as u64, 4)[x - 21]);
            assert(b[21 + (x - 21)] == le_bytes(le_read(b, 21, 4), 4)[x - 21]);
        } else if x < 25 + 4 * n {
            let a = (x - 25) / 4;
            let k = (x - 25) % 4;
            assert(x == 25 + 4 * a + k);
            assert(0 <= a < n);
            assert(e[25 + 4 * a + k] == tile_bytes(m.tiles[a])[k]);
        } else if x < 29 + 4 * n {
            let k = x - (25 + 4 * n);
            assert(e[25 + 4 * n + k] == le_bytes(s.len() as u64, 4)[k]);
            assert(b[25 + 4 * n + k] == le_bytes(le_read(b, 25 + 4 * n, 4), 4)[k]);
        } else {
            let y = x - (29 + 4 * n);
            let a = y / 12;
            let k = y % 12;
            assert(y == 12 * a + k);
            assert(0 <= a < s.len()) by (nonlinear_arith)
                requires
                    0 <= y < 12 * s.len(),
                    a == y / 12,
            ;
            let p = 29 + 4 * n + 12 * a;
            assert(e[p + k] == score_bytes(s[a])[k]);
            lemma_le_bytes_of_read_8(b, p);
            lemma_le_bytes_of_read_4(b, p + 8);
            if k < 8 {
                assert(b[p + k] == le_bytes(le_read(b, p, 8), 8)[k]);
            } else {
                assert(b[p + 8 + (k - 8)] == le_bytes(le_read(b, p + 8, 4), 4)[k - 8]);
            }
        }
    }
    assert(e =~= b);
}

fn clock_of(c: u8) -> (r: Option<Clock>)
    ensures
        r matches Some(k) ==> clock_code(k) == c,
        (exists|k: Clock| clock_code(k) == c) ==> r is Some,
{
    if c == 0 {
        Some(Clock::Manual)
    } else if c == 1 {
        Some(Clock::Normal)
    } else if c == 2 {
        Some(Clock::Fast)
    } else if c == 3 {
        Some(Clock::Unlimited)
    } else {
        None
    }
}

/// Reads saved bytes back. Bytes without the header are not a world; a
/// world of another format is refused with its format word. The bytes of any
/// saveable state read back as exactly that state, and whatever reads back is
/// the state whose bytes were read; all other bytes are corrupted.
fn load_head(b: &Vec<u8>) -> (r: Result<Head, LoadError>)
    ensures
        b@.len() < 4 || le_read(b@, 0, 4) != MAGIC ==> r == Err::<Head, LoadError>(
            LoadError::NotAWorld,
        ),
        b@.len() >= 8 && le_read(b@, 0, 4) == MAGIC && le_read(b@, 4, 4) != FORMAT ==> r == Err::<
            Head,
            LoadError,
        >(LoadError::UnsupportedFormat(le_read(b@, 4, 4) as u32)),
        forall|t: HeadView| #[trigger] head_encodes(b@, t) ==> {
            &&& r matches Ok(w)
            &&& w.version == t.version
            &&& w.clock == t.clock
            &&& w.map@ == t.map
            &&& w.scores.entries@ == t.scores
        },
        r matches Ok(w) ==> w.map.wf() && head_encodes(
            b@,
            HeadView {
                version: w.version,
                clock: w.clock,
                map: w.map@,
                scores: w.scores.entries@,
            },
        ),
{
    let len = b.len();
    match get_le(b, 0, 4) {
        Some(x) => {
            if x != MAGIC as u64 {
                proof {
                    assert forall|t: HeadView| #[trigger] head_encodes(b@, t) implies false by {
                        lemma_fields(b@, t);
                    }
                }
                return Err(LoadError::NotAWorld);
            }
        },
        None => {
            proof {
                assert forall|t: HeadView| #[trigger] head_encodes(b@, t) implies false by {
                    lemma_fields(b@, t);
                }
            }
            return Err(LoadError::NotAWorld);
        },
    }
    let format = match get_le(b, 4, 4) {
        Some(x) => x,
        None => {
            proof {
                assert forall|t: HeadView| #[trigger] head_encodes(b@, t) implies false by {
                    lemma_fields(b@, t);
                }
            }
            return Err(LoadError::Corrupted);
        },
    };
    if format != FORMAT as u64 {
        proof {
            assert forall|t: HeadView| #[trigger] head_encodes(b@, t) implies false by {
                lemma_fields(b@, t);
            }
        }
        return Err(LoadError::UnsupportedFormat(format as u32));
    }
    proof {
        assert forall|t: HeadView| #[trigger] head_encodes(b@, t) implies b@.len() >= 29 by {
            lemma_fields(b@, t);
        }
    }
    if len < 29 {
        return Err(LoadError::Corrupted);
    }
    let version = match get_le(b, 8, 8) {
        Some(x) => x,
        None => {
            return Err(LoadError::Corrupted);
        },
    };
    let clock = match clock_of(b[16]) {
        Some(c) => c,
        None => {
            proof {
                assert forall|t: HeadView| #[trigger] head_encodes(b@, t) implies false by {
                    lemma_fields(b@, t);
                }
            }
            return Err(LoadError::Corrupted);
        },
    };
    let width = match get_le(b, 17, 4) {
        Some(x) => x,
        None => {
            return Err(LoadError::Corrupted);
        },
    };
    let height = match get_le(b, 21, 4) {
        Some(x) => x,
        None => {
            return Err(LoadError::Corrupted);
        },
    };
    proof {
        lemma_le_read_4_bound(b@, 17);
        lemma_le_read_4_bound(b@, 21);
    }
    assert(width * height <= u64::MAX) by (nonlinear_arith)
        requires
            width <= u32::MAX,
            height <= u32::MAX,
    ;
    let n = width * height;
    proof {
        assert forall|t: HeadView| #[trigger] head_encodes(b@, t) implies n == t.map.tiles.len() by {
            lemma_fields(b@, t);
        }
    }
    if n > ((len - 29) / 4) as u64 {
        proof {
            assert forall|t: HeadView| #[trigger] head_encodes(b@, t) implies false by {
                lemma_fields(b@, t);
            }
        }
        return Err(LoadError::Corrupted);
    }
    let n = n as usize;
    let mut tiles: Vec<Tile> = Vec::new();
    let mut i: usize = 0;
    while i < n
        invariant
            len == b@.len() >= 29,
            4 * n + 29 <= len,
            i <= n,
            tiles@.len() == i,
            forall|t: HeadView| #[trigger] head_encodes(b@, t) ==> n == t.map.tiles.len() && tiles@
                == t.map.tiles.take(i as int),
            forall|a: int, k: int|
                0 <= a < i && 0 <= k < 4 ==> b@[25 + 4 * a + k] == #[trigger] tile_bytes(tiles@[a])[k],
        decreases n - i,
    {
        let p = 25 + 4 * i;
        let tile = Tile { kind: b[p], meta: [b[p + 1], b[p + 2], b[p + 3]] };
        proof {
            assert forall|t: HeadView| #[trigger] head_encodes(b@, t) implies tiles@.push(tile)
                == t.map.tiles.take(i + 1) by {
                lemma_fields(b@, t);
                let want = t.map.tiles[i as int];
                assert(b@[25 + 4 * i + 0] == tile_bytes(want)[0]);
                assert(b@[25 + 4 * i + 1] == tile_bytes(want)[1]);
                assert(b@[25 + 4 * i + 2] == tile_bytes(want)[2]);
                assert(b@[25 + 4 * i + 3] == tile_bytes(want)[3]);
                assert(tile.meta =~= want.meta);
                assert(tile == want);
                assert(tiles@.push(tile) =~= t.map.tiles.take(i + 1));
            }
        }
        let ghost before = tiles@;
        tiles.push(tile);
        proof {
            assert forall|a: int, k: int| 0 <= a < i + 1 && 0 <= k < 4 implies b@[25 + 4 * a + k]
                == #[trigger] tile_bytes(tiles@[a])[k] by {
                if a < i {
                    assert(tiles@[a] == before[a]);
                }
            }
        }
        i = i + 1;
    }
    let count = match get_le(b, 25 + 4 * n, 4) {
        Some(x) => x,
        None => {
            return Err(LoadError::Corrupted);
        },
    };
    proof {
        lemma_le_read_4_bound(b@, 25 + 4 * n);
    }
    let rest = len - (29 + 4 * n);
    if count > (rest / 12) as u64 {
        proof {
            assert forall|t: HeadView| #[trigger] head_encodes(b@, t) implies false by {
                lemma_fields(b@, t);
                assert(t.map.tiles.take(n as int) =~= t.map.tiles);
            }
        }
        return Err(LoadError::Corrupted);
    }
    proof {
        assert forall|t: HeadView| #[trigger] head_encodes(b@, t) implies count == t.scores.len() && n
            == t.map.tiles.len() by {
            lemma_fields(b@, t);
        }
    }
    let count = count as usize;
    let mut entries: Vec<(u64, u32)> = Vec::new();
    let mut j: usize = 0;
    while j < count
        invariant
            len == b@.len(),
            4 * n + 29 + 12 * count <= len,
            j <= count,
            entries@.len() == j,
            forall|t: HeadView| #[trigger] head_encodes(b@, t) ==> n == t.map.tiles.len() && count
                == t.scores.len() && entries@ == t.scores.take(j as int),
            forall|a: int|
                0 <= a < j ==> le_read(b@, 29 + 4 * n + 12 * a, 8) == (#[trigger] entries@[a]).0
                    && le_read(b@, 29 + 4 * n + 12 * a + 8, 4) == entries@[a].1,
        decreases count - j,
    {
        let p = 29 + 4 * n + 12 * j;
        let id = match get_le(b, p, 8) {
            Some(x) => x,
            None => {
                return Err(LoadError::Corrupted);
            },
        };
        let score = match get_le(b, p + 8, 4) {
            Some(x) => x,
            None => {
                return Err(LoadError::Corrupted);
            },
        };
        proof {
            lemma_le_read_4_bound(b@, p + 8);
            assert forall|t: HeadView| #[trigger] head_encodes(b@, t) implies entries@.push(
                (id, score as u32),
            ) == t.scores.take(j + 1) by {
                lemma_fields(b@, t);
                assert(t.scores[j as int].0 == id);
                assert(t.scores[j as int].1 == score);
                assert(entries@.push((id, score as u32)) =~= t.scores.take(j + 1));
            }
        }
        let ghost before = entries@;
        entries.push((id, score as u32));
        proof {
            assert forall|a: int| 0 <= a < j + 1 implies le_read(b@, 29 + 4 * n + 12 * a, 8) == (
            #[trigger] entries@[a]).0 && le_read(b@, 29 + 4 * n + 12 * a + 8, 4) == entries@[a].1 by {
                if a < j {
                    assert(entries@[a] == before[a]);
                }
            }
        }
        j = j + 1;
    }
    proof {
        assert forall|t: HeadView| #[trigger] head_encodes(b@, t) implies {
            &&& tiles@ == t.map.tiles
            &&& entries@ == t.scores
            &&& version == t.version
            &&& clock == t.clock
            &&& width == t.map.width
            &&& height == t.map.height
            &&& tiles@.len() == width * height
        } by {
            assert(t.map.tiles.take(n as int) =~= t.map.tiles);
            assert(t.scores.take(count as int) =~= t.scores);
            lemma_fields(b@, t);
            assert(clock_code(clock) == clock_code(t.clock));
        }
    }
    if len != 29 + 4 * n + 12 * count {
        proof {
            assert forall|t: HeadView| #[trigger] head_encodes(b@, t) implies false by {
                lemma_fields(b@, t);
            }
        }
        return Err(LoadError::Corrupted);
    }
    match TileMap::from_tiles(width as u32, height as u32, tiles) {
        Some(map) => {
            proof {
                lemma_sound(b@, version, clock, map@, entries@, n as int);
            }
            Ok(Head { version, clock, map, scores: Scores { entries } })
        },
        None => Err(LoadError::Corrupted),
    }
}

/// The first part of saved bytes determines what it stands for.
proof fn lemma_head_bytes_determine_state(b: Seq<u8>, t1: HeadView, t2: HeadView)
    requires
        head_encodes(b, t1),
        head_encodes(b, t2),
    ensures
        t1 == t2,
{
    lemma_fields(b, t1);
    lemma_fields(b, t2);
    let n = t1.map.tiles.len() as int;
    assert(t1.clock == t2.clock) by {
        assert(clock_code(t1.clock) == clock_code(t2.clock));
    }
    assert(t1.map.width * t1.map.height == t2.map.width * t2.map.height);
    assert(n == t2.map.tiles.len());
    assert forall|i: int| 0 <= i < n implies t1.map.tiles[i] == t2.map.tiles[i] by {
        let x = t1.map.tiles[i];
        let y = t2.map.tiles[i];
        assert(tile_bytes(x)[0] == b[25 + 4 * i + 0]);
        assert(tile_bytes(y)[0] == b[25 + 4 * i + 0]);
        assert(tile_bytes(x)[1] == b[25 + 4 * i + 1]);
        assert(tile_bytes(y)[1] == b[25 + 4 * i + 1]);
        assert(tile_bytes(x)[2] == b[25 + 4 * i + 2]);
        assert(tile_bytes(y)[2] == b[25 + 4 * i + 2]);
        assert(tile_bytes(x)[3] == b[25 + 4 * i + 3]);
        assert(tile_bytes(y)[3] == b[25 + 4 * i + 3]);
        assert(x.meta =~= y.meta);
    }
    assert(t1.map.tiles =~= t2.map.tiles);
    assert(t1.scores.len() == t2.scores.len());
    assert forall|j: int| 0 <= j < t1.scores.len() implies t1.scores[j] == t2.scores[j] by {
        assert(t1.scores[j].0 == t2.scores[j].0);
        assert(t1.scores[j].1 == t2.scores[j].1);
    }
    assert(t1.scores =~= t2.scores);
}

// ---------------------------------------------------------------------------
// Objects: a section of 21-byte records after the head, ended by their count

pub open spec fn pos_tag(p: Option<Pos>) -> u8 {
    match p {
        Some(_) => 1,
        None => 0,
    }
}

pub open spec fn pos_x(p: Option<Pos>) -> i32 {
    match p {
        Some(q) => q.x,
        None => 0,
    }
}

pub open spec fn pos_y(p: Option<Pos>) -> i32 {
    match p {
        Some(q) => q.y,
        None => 0,
    }
}

/// An object's record: id, whether it lies on the map, its position (zero
/// when it does not), its tile.
pub open spec fn object_bytes(o: WorldObject) -> Seq<u8> {
    le_bytes(o.id, 8) + seq![pos_tag(o.pos)] + le_bytes(pos_x(o.pos) as u32 as u64, 4) + le_bytes(
        pos_y(o.pos) as u32 as u64,
        4,
    ) + tile_bytes(o.obj)
}

pub open spec fn objects_bytes(os: Seq<WorldObject>) -> Seq<u8>
    decreases os.len(),
{
    if os.len() == 0 {
        Seq::empty()
    } else {
        objects_bytes(os.drop_last()) + object_bytes(os.last())
    }
}

/// The objects' records followed by their count.
pub open spec fn objects_section(os: Seq<WorldObject>) -> Seq<u8> {
    objects_bytes(os) + le_bytes(os.len() as u64, 4)
}

proof fn lemma_objects_bytes(os: Seq<WorldObject>)
    ensures
        objects_bytes(os).len() == 21 * os.len(),
        forall|q: int, k: int|
            0 <= q < os.len() && 0 <= k < 21 ==> objects_bytes(os)[21 * q + k]
                == #[trigger] object_bytes(os[q])[k],
    decreases os.len(),
{
    if os.len() > 0 {
        let init = os.drop_last();
        lemma_objects_bytes(init);
        assert forall|q: int, k: int| 0 <= q < os.len() && 0 <= k < 21 implies objects_bytes(os)[21
            * q + k] == #[trigger] object_bytes(os[q])[k] by {
            if q < os.len() - 1 {
                assert(init[q] == os[q]);
                assert(object_bytes(init[q])[k] == objects_bytes(init)[21 * q + k]);
            }
        }
    }
}

proof fn lemma_i32_round_trip(x: i32)
    ensures
        (((x as u32) as u64) as u32) as i32 == x,
{
    assert((((x as u32) as u64) as u32) as i32 == x) by (bit_vector);
}

proof fn lemma_u32_round_trip(v: u64)
    requires
        v <= u32::MAX,
    ensures
        ((((v as u32) as i32) as u32) as u64) == v,
{
    assert(((((v as u32) as i32) as u32) as u64) == v) by (bit_vector)
        requires
            v <= 0xffff_ffffu64,
    ;
}

/// What a well-formed objects section tells of record `q`.
proof fn lemma_object_fields(s: Seq<u8>, os: Seq<WorldObject>, q: int)
    requires
        s == objects_section(os),
        0 <= q < os.len(),
    ensures
        ({
            let p = 21 * q;
            let o = os[q];
            &&& p + 21 <= s.len()
            &&& le_read(s, p, 8) == o.id
            &&& s[p + 8] == pos_tag(o.pos)
            &&& le_read(s, p + 9, 4) == pos_x(o.pos) as u32 as u64
            &&& le_read(s, p + 13, 4) == pos_y(o.pos) as u32 as u64
            &&& s[p + 17] == o.obj.kind
            &&& s[p + 18] == o.obj.meta[0]
            &&& s[p + 19] == o.obj.meta[1]
            &&& s[p + 20] == o.obj.meta[2]
        }),
{
    lemma_objects_bytes(os);
    let p = 21 * q;
    let o = os[q];
    let ob = objects_bytes(os);
    assert(0 <= 21 * q + 21 <= 21 * os.len()) by (nonlinear_arith)
        requires
            0 <= q < os.len(),
    ;
    assert forall|k: int| 0 <= k < 21 implies s[p + k] == #[trigger] object_bytes(o)[k] by {
        assert(s[p + k] == ob[p + k]);
    }
    assert forall|k: int| 0 <= k < 8 implies s[p + k] == #[trigger] le_bytes(o.id, 8)[k] by {
        assert(s[p + k] == object_bytes(o)[k]);
    }
    lemma_read_field(s, p, o.id, 8);
    assert(s[p + 8] == object_bytes(o)[8]);
    assert forall|k: int| 0 <= k < 4 implies s[p + 9 + k] == #[trigger] le_bytes(
        pos_x(o.pos) as u32 as u64,
        4,
    )[k] by {
        assert(s[p + (9 + k)] == object_bytes(o)[9 + k]);
    }
    lemma_read_field(s, p + 9, pos_x(o.pos) as u32 as u64, 4);
    assert forall|k: int| 0 <= k < 4 implies s[p + 13 + k] == #[trigger] le_bytes(
        pos_y(o.pos) as u32 as u64,
        4,
    )[k] by {
        assert(s[p + (13 + k)] == object_bytes(o)[13 + k]);
    }
    lemma_read_field(s, p + 13, pos_y(o.pos) as u32 as u64, 4);
    assert(s[p + 17] == object_bytes(o)[17]);
    assert(s[p + 18] == object_bytes(o)[18]);
    assert(s[p + 19] == object_bytes(o)[19]);
    assert(s[p + 20] == object_bytes(o)[20]);
}

proof fn lemma_section_count(s: Seq<u8>, os: Seq<WorldObject>)
    requires
        s == objects_section(os),
        os.len() <= u32::MAX,
    ensures
        s.len() == 21 * os.len() + 4,
        le_read(s, s.len() - 4, 4) == os.len(),
{
    lemma_objects_bytes(os);
    let n = s.len() - 4;
    assert forall|k: int| 0 <= k < 4 implies s[n + k] == #[trigger] le_bytes(os.len() as u64, 4)[k] by {}
    lemma_read_field(s, n, os.len() as u64, 4);
}

fn put_objects(out: &mut Vec<u8>, objects: &Vec<WorldObject>)
    requires
        objects@.len() <= u32::MAX,
    ensures
        final(out)@ == old(out)@ + objects_section(objects@),
{
    let ghost head = out@;
    let mut q: usize = 0;
    while q < objects.len()
        invariant
            q <= objects@.len(),
            out@ == head + objects_bytes(objects@.take(q as int)),
        decreases objects@.len() - q,
    {
        let o = objects[q];
        let ghost before = out@;
        put_le(out, o.id, 8);
        let (tag, x, y): (u8, i32, i32) = match o.pos {
            Some(p) => (1, p.x, p.y),
            None => (0, 0, 0),
        };
        out.push(tag);
        put_le(out, x as u32 as u64, 4);
        put_le(out, y as u32 as u64, 4);
        out.push(o.obj.kind);
        out.push(o.obj.meta[0]);
        out.push(o.obj.meta[1]);
        out.push(o.obj.meta[2]);
        assert(out@ =~= before + object_bytes(o));
        assert(objects@.take(q + 1).drop_last() =~= objects@.take(q as int));
        q = q + 1;
        assert(out@ =~= head + objects_bytes(objects@.take(q as int)));
    }
    assert(objects@.take(q as int) =~= objects@);
    put_le(out, objects.len() as u64, 4);
    assert(out@ =~= head + objects_section(objects@));
}

/// Reads an objects section: `Some` exactly on the section of some objects
/// (at most `u32::MAX` of them), and then those objects.
fn load_objects(s: &Vec<u8>) -> (r: Option<Vec<WorldObject>>)
    ensures
        r matches Some(o) ==> o@.len() <= u32::MAX && s@ == objects_section(o@),
        forall|os: Seq<WorldObject>|
            os.len() <= u32::MAX && #[trigger] objects_section(os) == s@ ==> (r matches Some(o)
                && o@ == os),
{
    let len = s.len();
    if len < 4 {
        proof {
            assert forall|os: Seq<WorldObject>|
                os.len() <= u32::MAX && #[trigger] objects_section(os) == s@ implies false by {
                lemma_section_count(s@, os);
            }
        }
        return None;
    }
    let m = match get_le(s, len - 4, 4) {
        Some(m) => m,
        None => {
            return None;
        },
    };
    proof {
        lemma_le_read_4_bound(s@, len - 4);
        assert forall|os: Seq<WorldObject>|
            os.len() <= u32::MAX && #[trigger] objects_section(os) == s@ implies os.len() == m
            && len == 21 * m + 4 by {
            lemma_section_count(s@, os);
        }
    }
    if m > ((len - 4) / 21) as u64 || (len - 4) as u64 != 21 * m {
        return None;
    }
    let m = m as usize;
    let mut out: Vec<WorldObject> = Vec::new();
    let mut q: usize = 0;
    while q < m
        invariant
            len == s@.len() == 21 * m + 4,
            m <= u32::MAX,
            q <= m,
            out@.len() == q,
            forall|os: Seq<WorldObject>|
                os.len() <= u32::MAX && #[trigger] objects_section(os) == s@ ==> os.len() == m
                    && out@ == os.take(q as int),
            forall|a: int, k: int|
                0 <= a < q && 0 <= k < 21 ==> s@[21 * a + k] == #[trigger] object_bytes(out@[a])[k],
        decreases m - q,
    {
        let p = 21 * q;
        let id = match get_le(s, p, 8) {
            Some(v) => v,
            None => {
                return None;
            },
        };
        let tag = s[p + 8];
        let x = match get_le(s, p + 9, 4) {
            Some(v) => v,
            None => {
                return None;
            },
        };
        let y = match get_le(s, p + 13, 4) {
            Some(v) => v,
            None => {
                return None;
            },
        };
        proof {
            lemma_le_read_4_bound(s@, p + 9);
            lemma_le_read_4_bound(s@, p + 13);
        }
        let pos = if tag == 1 {
            Some(Pos { x: x as u32 as i32, y: y as u32 as i32 })
        } else if tag == 0 && x == 0 && y == 0 {
            None
        } else {
            proof {
                assert forall|os: Seq<WorldObject>|
                    os.len() <= u32::MAX && #[trigger] objects_section(os) == s@ implies false by {
                    lemma_object_fields(s@, os, q as int);
                }
            }
            return None;
        };
        let obj = Tile { kind: s[p + 17], meta: [s[p + 18], s[p + 19], s[p + 20]] };
        let o = WorldObject { id, pos, obj };
        proof {
            lemma_le_bytes_of_read_8(s@, p as int);
            lemma_le_bytes_of_read_4(s@, p + 9);
            lemma_le_bytes_of_read_4(s@, p + 13);
            if tag == 1 {
                lemma_u32_round_trip(x);
                lemma_u32_round_trip(y);
            }
            assert forall|k: int| 0 <= k < 21 implies s@[p + k] == #[trigger] object_bytes(o)[k] by {
                if k < 8 {
                } else if k == 8 {
                } else if k < 13 {
                    assert(s@[p + 9 + (k - 9)] == le_bytes(le_read(s@, p + 9, 4), 4)[k - 9]);
                } else if k < 17 {
                    assert(s@[p + 13 + (k - 13)] == le_bytes(le_read(s@, p + 13, 4), 4)[k - 13]);
                }
            }
            assert forall|os: Seq<WorldObject>|
                os.len() <= u32::MAX && #[trigger] objects_section(os) == s@ implies out@.push(o)
                == os.take(q + 1) by {
                lemma_object_fields(s@, os, q as int);
                let want = os[q as int];
                assert(o.id == want.id);
                if want.pos is Some {
                    lemma_i32_round_trip(pos_x(want.pos));
                    lemma_i32_round_trip(pos_y(want.pos));
                }
                assert(o.pos == want.pos);
                assert(o.obj.meta =~= want.obj.meta);
                assert(o == want);
                assert(out@.push(o) =~= os.take(q + 1));
            }
        }
        let ghost before = out@;
        out.push(o);
        proof {
            assert forall|a: int, k: int| 0 <= a < q + 1 && 0 <= k < 21 implies s@[21 * a + k]
                == #[trigger] object_bytes(out@[a])[k] by {
                if a < q {
                    assert(out@[a] == before[a]);
                }
            }
        }
        q = q + 1;
    }
    proof {
        lemma_objects_bytes(out@);
        lemma_le_bytes_of_read_4(s@, len - 4);
        let e = objects_section(out@);
        assert forall|i: int| 0 <= i < len implies e[i] == s@[i] by {
            if i < 21 * m {
                let a = i / 21;
                let k = i % 21;
                assert(i == 21 * a + k);
                assert(0 <= a < m) by (nonlinear_arith)
                    requires
                        0 <= i < 21 * m,
                        a == i / 21,
                ;
                assert(objects_bytes(out@)[21 * a + k] == object_bytes(out@[a])[k]);
            } else {
                let k = i - 21 * m;
                assert(s@[len - 4 + k] == le_bytes(le_read(s@, len - 4, 4), 4)[k]);
            }
        }
        assert(e =~= s@);
    }
    Some(out)
}

// ---------------------------------------------------------------------------
// A saved world: the head, then the objects section

/// What a saved world holds.
#[derive(Debug)]
pub struct SavedWorld {
    pub version: u64,
    pub clock: Clock,
    pub map: TileMap,
    pub scores: Scores,
    pub objects: Vec<WorldObject>,
}

/// The state that saved bytes stand for.
pub struct SavedView {
    pub version: u64,
    pub clock: Clock,
    pub map: MapView,
    pub scores: Seq<(u64, u32)>,
    pub objects: Seq<WorldObject>,
}

pub open spec fn head_of(t: SavedView) -> HeadView {
    HeadView { version: t.version, clock: t.clock, map: t.map, scores: t.scores }
}

/// The bytes of a saved world.
pub open spec fn encoding(t: SavedView) -> Seq<u8> {
    head_encoding(t.version, t.clock, t.map, t.scores) + objects_section(t.objects)
}

/// Whether `b` are the bytes of the saveable state `t`.
pub open spec fn encodes(b: Seq<u8>, t: SavedView) -> bool {
    &&& saveable(t.map, t.scores)
    &&& t.objects.len() <= u32::MAX
    &&& encoding(t) == b
}

pub open spec fn saved_view(w: SavedWorld) -> SavedView {
    SavedView {
        version: w.version,
        clock: w.clock,
        map: w.map@,
        scores: w.scores.entries@,
        objects: w.objects@,
    }
}

proof fn lemma_le_read_prefix(b: Seq<u8>, h: Seq<u8>, pos: int, n: nat)
    requires
        0 <= pos,
        pos + n <= h.len() <= b.len(),
        forall|x: int| 0 <= x < h.len() ==> b[x] == h[x],
    ensures
        le_read(b, pos, n) == le_read(h, pos, n),
    decreases n,
{
    if n > 0 {
        lemma_le_read_prefix(b, h, pos, (n - 1) as nat);
    }
}

/// Where the head of saved bytes ends, and what its header says.
proof fn lemma_split(b: Seq<u8>, t: SavedView)
    requires
        encodes(b, t),
    ensures
        ({
            let h = head_encoding(t.version, t.clock, t.map, t.scores);
            &&& h.len() >= 29
            &&& b.len() == h.len() + 21 * t.objects.len() + 4
            &&& b.subrange(0, h.len() as int) == h
            &&& b.subrange(h.len() as int, b.len() as int) == objects_section(t.objects)
            &&& head_encodes(h, head_of(t))
            &&& le_read(b, 0, 4) == MAGIC
            &&& le_read(b, 4, 4) == FORMAT
            &&& le_read(b, b.len() - 4, 4) == t.objects.len()
        }),
{
    let h = head_encoding(t.version, t.clock, t.map, t.scores);
    let sec = objects_section(t.objects);
    lemma_fields(h, head_of(t));
    lemma_section_count(sec, t.objects);
    assert(b.subrange(0, h.len() as int) =~= h);
    assert(b.subrange(h.len() as int, b.len() as int) =~= sec);
    lemma_le_read_prefix(b, h, 0, 4);
    lemma_le_read_prefix(b, h, 4, 4);
    let n = sec.len() - 4;
    assert forall|k: int| 0 <= k < 4 implies b[h.len() + n + k] == #[trigger] le_bytes(
        t.objects.len() as u64,
        4,
    )[k] by {
        assert(b[h.len() + (n + k)] == sec[n + k]);
    }
    lemma_read_field(b, h.len() + n, t.objects.len() as u64, 4);
}

/// The bytes of a saved world.
pub fn save(w: &SavedWorld) -> (r: Vec<u8>)
    requires
        w.map.wf(),
        w.scores.entries@.len() <= u32::MAX,
        w.objects@.len() <= u32::MAX,
    ensures
        r@ == encoding(saved_view(*w)),
{
    let mut out: Vec<u8> = Vec::new();
    put_le(&mut out, MAGIC as u64, 4);
    put_le(&mut out, FORMAT as u64, 4);
    put_le(&mut out, w.version, 8);
    out.push(clock_byte(w.clock));
    put_le(&mut out, w.map.width() as u64, 4);
    put_le(&mut out, w.map.height() as u64, 4);
    let tiles = w.map.tiles();
    let ghost head = out@;
    let mut i: usize = 0;
    while i < tiles.len()
        invariant
            i <= tiles@.len(),
            out@ == head + tiles_bytes(tiles@.take(i as int)),
        decreases tiles@.len() - i,
    {
        let t = tiles[i];
        out.push(t.kind);
        out.push(t.meta[0]);
        out.push(t.meta[1]);
        out.push(t.meta[2]);
        assert(tiles@.take(i + 1).drop_last() =~= tiles@.take(i as int));
        i = i + 1;
        assert(out@ =~= head + tiles_bytes(tiles@.take(i as int)));
    }
    assert(tiles@.take(i as int) =~= tiles@);
    let entries = &w.scores.entries;
    put_le(&mut out, entries.len() as u64, 4);
    let ghost head2 = out@;
    let mut j: usize = 0;
    while j < entries.len()
        invariant
            j <= entries@.len(),
            out@ == head2 + scores_bytes(entries@.take(j as int)),
        decreases entries@.len() - j,
    {
        let e = entries[j];
        put_le(&mut out, e.0, 8);
        put_le(&mut out, e.1 as u64, 4);
        assert(entries@.take(j + 1).drop_last() =~= entries@.take(j as int));
        j = j + 1;
        assert(out@ =~= head2 + scores_bytes(entries@.take(j as int)));
    }
    assert(entries@.take(j as int) =~= entries@);
    put_objects(&mut out, &w.objects);
    assert(out@ =~= encoding(saved_view(*w)));
    out
}

fn copy_range(b: &Vec<u8>, from: usize, to: usize) -> (r: Vec<u8>)
    requires
        from <= to <= b@.len(),
    ensures
        r@ == b@.subrange(from as int, to as int),
{
    let mut out: Vec<u8> = Vec::new();
    let mut i: usize = from;
    while i < to
        invariant
            from <= i <= to <= b@.len(),
            out@ == b@.subrange(from as int, i as int),
        decreases to - i,
    {
        out.push(b[i]);
        i = i + 1;
        assert(out@ =~= b@.subrange(from as int, i as int));
    }
    out
}

/// Reads saved bytes back. Bytes without the header are not a world; a
/// world of another format is refused with its format word. The bytes of any
/// saveable state read back as exactly that state, and whatever reads back is
/// the state whose bytes were read; all other bytes are corrupted.
pub fn load(b: &Vec<u8>) -> (r: Result<SavedWorld, LoadError>)
    ensures
        b@.len() < 4 || le_read(b@, 0, 4) != MAGIC ==> r == Err::<SavedWorld, LoadError>(
            LoadError::NotAWorld,
        ),
        b@.len() >= 8 && le_read(b@, 0, 4) == MAGIC && le_read(b@, 4, 4) != FORMAT ==> r == Err::<
            SavedWorld,
            LoadError,
        >(LoadError::UnsupportedFormat(le_read(b@, 4, 4) as u32)),
        forall|t: SavedView| #[trigger] encodes(b@, t) ==> (r matches Ok(w) && saved_view(w) == t),
        r matches Ok(w) ==> w.map.wf() && encodes(b@, saved_view(w)),
{
    let len = b.len();
    match get_le(b, 0, 4) {
        Some(x) => {
            if x != MAGIC as u64 {
                proof {
                    assert forall|t: SavedView| #[trigger] encodes(b@, t) implies false by {
                        lemma_split(b@, t);
                    }
                }
                return Err(LoadError::NotAWorld);
            }
        },
        None => {
            proof {
                assert forall|t: SavedView| #[trigger] encodes(b@, t) implies false by {
                    lemma_split(b@, t);
                }
            }
            return Err(LoadError::NotAWorld);
        },
    }
    let format = match get_le(b, 4, 4) {
        Some(x) => x,
        None => {
            proof {
                assert forall|t: SavedView| #[trigger] encodes(b@, t) implies false by {
                    lemma_split(b@, t);
                }
            }
            return Err(LoadError::Corrupted);
        },
    };
    if format != FORMAT as u64 {
        proof {
            assert forall|t: SavedView| #[trigger] encodes(b@, t) implies false by {
                lemma_split(b@, t);
            }
        }
        return Err(LoadError::UnsupportedFormat(format as u32));
    }
    let m = match get_le(b, len - 4, 4) {
        Some(m) => m,
        None => {
            return Err(LoadError::Corrupted);
        },
    };
    if m > ((len - 4) / 21) as u64 {
        proof {
            assert forall|t: SavedView| #[trigger] encodes(b@, t) implies false by {
                lemma_split(b@, t);
            }
        }
        return Err(LoadError::Corrupted);
    }
    let end = len - 4 - 21 * (m as usize);
    proof {
        assert forall|t: SavedView| #[trigger] encodes(b@, t) implies end == head_encoding(
            t.version,
            t.clock,
            t.map,
            t.scores,
        ).len() by {
            lemma_split(b@, t);
        }
    }
    let prefix = copy_range(b, 0, end);
    let suffix = copy_range(b, end, len);
    let head = match load_head(&prefix) {
        Ok(h) => h,
        Err(_) => {
            proof {
                assert forall|t: SavedView| #[trigger] encodes(b@, t) implies false by {
                    lemma_split(b@, t);
                    assert(head_encodes(prefix@, head_of(t)));
                }
            }
            return Err(LoadError::Corrupted);
        },
    };
    let objects = match load_objects(&suffix) {
        Some(o) => o,
        None => {
            proof {
                assert forall|t: SavedView| #[trigger] encodes(b@, t) implies false by {
                    lemma_split(b@, t);
                    assert(objects_section(t.objects) == suffix@);
                }
            }
            return Err(LoadError::Corrupted);
        },
    };
    let w = SavedWorld {
        version: head.version,
        clock: head.clock,
        map: head.map,
        scores: head.scores,
        objects,
    };
    proof {
        assert(b@ =~= prefix@ + suffix@);
        assert forall|t: SavedView| #[trigger] encodes(b@, t) implies saved_view(w) == t by {
            lemma_split(b@, t);
            assert(head_encodes(prefix@, head_of(t)));
            assert(objects_section(t.objects) == suffix@);
        }
    }
    Ok(w)
}

/// Saved bytes determine the state they stand for: a state whose bytes are
/// loaded is the state that was saved, since no two saveable states have the
/// same bytes.
pub proof fn lemma_saved_bytes_determine_state(b: Seq<u8>, t1: SavedView, t2: SavedView)
    requires
        encodes(b, t1),
        encodes(b, t2),
    ensures
        t1 == t2,
{
    lemma_split(b, t1);
    lemma_split(b, t2);
    let h1 = head_encoding(t1.version, t1.clock, t1.map, t1.scores);
    let h2 = head_encoding(t2.version, t2.clock, t2.map, t2.scores);
    assert(h1 == h2);
    lemma_head_bytes_determine_state(h1, head_of(t1), head_of(t2));
    let s = objects_section(t1.objects);
    assert(objects_section(t2.objects) == s);
    assert(t1.objects.len() == t2.objects.len());
    assert forall|q: int| 0 <= q < t1.objects.len() implies t1.objects[q] == t2.objects[q] by {
        lemma_object_fields(s, t1.objects, q);
        lemma_object_fields(s, t2.objects, q);
        let o1 = t1.objects[q];
        let o2 = t2.objects[q];
        lemma_i32_round_trip(pos_x(o1.pos));
        lemma_i32_round_trip(pos_x(o2.pos));
        lemma_i32_round_trip(pos_y(o1.pos));
        lemma_i32_round_trip(pos_y(o2.pos));
        assert(o1.pos == o2.pos);
        assert(o1.obj.meta =~= o2.obj.meta);
    }
    assert(t1.objects =~= t2.objects);
}

} // verus!
