//! Being neighbors on the map goes both ways.
//!
//! On a map that wraps east-west with flat-topped hexes, the columns alternate in
//! height, so the wrap only lines up when the width is even; likewise north-south with
//! pointy-topped hexes and the height.

use crate::hex::{
    ring_point, ring_side, ring_sides, spec_hex_to_offset, spec_hexes_at_distance, offset_sign,
    HexOrientation, MapParameters,
};
use crate::tile_query::TileQuery;
use vstd::prelude::*;

verus! {

/// The map's wrap lines up with its rows and columns of hexes.
pub open spec fn wrap_aligned(mp: &MapParameters) -> bool {
    &&& (mp.orientation == HexOrientation::Flat && mp.wrap_x ==> mp.width % 2 == 0)
    &&& (mp.orientation == HexOrientation::Pointy && mp.wrap_y ==> mp.height % 2 == 0)
}

/// The six steps to the hexes next to a hex.
pub open spec fn unit_step(s: int) -> (int, int) {
    ring_point(0, 0, 1, s, 0)
}

proof fn lemma_ring_one(cx: int, cy: int)
    ensures
        spec_hexes_at_distance(cx, cy, 1).len() == 6,
        forall|s: int|
            0 <= s < 6 ==> #[trigger] spec_hexes_at_distance(cx, cy, 1)[s] == (cx + unit_step(s).0, cy
                + unit_step(s).1),
{
    reveal_with_fuel(ring_sides, 7);
    let r = spec_hexes_at_distance(cx, cy, 1);
    assert(ring_side(cx, cy, 1, 0).len() == 1);
    assert(ring_side(cx, cy, 1, 1).len() == 1);
    assert(ring_side(cx, cy, 1, 2).len() == 1);
    assert(ring_side(cx, cy, 1, 3).len() == 1);
    assert(ring_side(cx, cy, 1, 4).len() == 1);
    assert(ring_side(cx, cy, 1, 5).len() == 1);
    assert(ring_sides(cx, cy, 1, 1) =~= seq![ring_point(cx, cy, 1, 0, 0)]);
    assert(ring_sides(cx, cy, 1, 2) =~= seq![ring_point(cx, cy, 1, 0, 0), ring_point(cx, cy, 1, 1, 0)]);
    assert(ring_sides(cx, cy, 1, 3) =~= seq![
        ring_point(cx, cy, 1, 0, 0),
        ring_point(cx, cy, 1, 1, 0),
        ring_point(cx, cy, 1, 2, 0),
    ]);
    assert(ring_sides(cx, cy, 1, 4) =~= seq![
        ring_point(cx, cy, 1, 0, 0),
        ring_point(cx, cy, 1, 1, 0),
        ring_point(cx, cy, 1, 2, 0),
        ring_point(cx, cy, 1, 3, 0),
    ]);
    assert(ring_sides(cx, cy, 1, 5) =~= seq![
        ring_point(cx, cy, 1, 0, 0),
        ring_point(cx, cy, 1, 1, 0),
        ring_point(cx, cy, 1, 2, 0),
        ring_point(cx, cy, 1, 3, 0),
        ring_point(cx, cy, 1, 4, 0),
    ]);
    assert(r =~= seq![
        ring_point(cx, cy, 1, 0, 0),
        ring_point(cx, cy, 1, 1, 0),
        ring_point(cx, cy, 1, 2, 0),
        ring_point(cx, cy, 1, 3, 0),
        ring_point(cx, cy, 1, 4, 0),
        ring_point(cx, cy, 1, 5, 0),
    ]);
}

/// A tile index is among the cells of the listed hexes exactly when one of them lies on it.
proof fn lemma_cells_contain(mp: &MapParameters, hs: Seq<(int, int)>, j: int)
    ensures
        mp.spec_cells(hs).contains(j) <==> exists|k: int| 0 <= k < hs.len() && #[trigger] mp.hex_cell(hs[k]) == Some(j),
    decreases hs.len(),
{
    if hs.len() > 0 {
        let prev = hs.drop_last();
        lemma_cells_contain(mp, prev, j);
        let rest = mp.spec_cells(prev);
        if exists|k: int| 0 <= k < hs.len() && #[trigger] mp.hex_cell(hs[k]) == Some(j) {
            let k = choose|k: int| 0 <= k < hs.len() && #[trigger] mp.hex_cell(hs[k]) == Some(j);
            if k < prev.len() {
                assert(prev[k] == hs[k]);
                assert(rest.contains(j));
                let m = choose|m: int| 0 <= m < rest.len() && rest[m] == j;
                match mp.hex_cell(hs.last()) {
                    Some(c) => {
                        assert(rest.push(c)[m] == j);
                    },
                    None => {},
                }
            } else {
                assert(hs.last() == hs[k]);
                let c = mp.spec_cells(hs);
                assert(c == rest.push(j));
                assert(c[c.len() - 1] == j);
            }
        }
        if mp.spec_cells(hs).contains(j) {
            let c = mp.spec_cells(hs);
            let m = choose|m: int| 0 <= m < c.len() && c[m] == j;
            match mp.hex_cell(hs.last()) {
                Some(x) => {
                    if m < rest.len() {
                        assert(c[m] == rest[m]);
                        assert(rest.contains(j));
                        let k = choose|k: int| 0 <= k < prev.len() && #[trigger] mp.hex_cell(prev[k]) == Some(j);
                        assert(hs[k] == prev[k]);
                    } else {
                        assert(mp.hex_cell(hs[hs.len() - 1]) == Some(j));
                    }
                },
                None => {
                    assert(c == rest);
                    let k = choose|k: int| 0 <= k < prev.len() && #[trigger] mp.hex_cell(prev[k]) == Some(j);
                    assert(hs[k] == prev[k]);
                },
            }
        }
    }
}

/// Half of the shoved coordinate: moving the other coordinate by an even amount moves it by half that.
proof fn lemma_half_shift(v: int, d: int, s: int)
    requires
        d % 2 == 0,
        s == 1 || s == -1,
    ensures
        (v + d + s * ((v + d) % 2)) / 2 == (v + s * (v % 2)) / 2 + d / 2,
{
    assert((v + d) % 2 == v % 2);
}

proof fn lemma_mod_shift(a: int, b: int, t: int, m: int)
    requires
        m > 0,
        a % m == b % m,
    ensures
        (a + t) % m == (b + t) % m,
{
    vstd::arithmetic::div_mod::lemma_add_mod_noop(a, t, m);
    vstd::arithmetic::div_mod::lemma_add_mod_noop(b, t, m);
}

proof fn lemma_mod_diff(a: int, b: int, m: int)
    requires
        m > 0,
        a % m == b % m,
    ensures
        (a - b) % m == 0,
{
    vstd::arithmetic::div_mod::lemma_sub_mod_noop(a, b, m);
    assert(0int % m == 0);
}

proof fn lemma_even_mult(d: int, m: int)
    requires
        m > 0,
        m % 2 == 0,
        d % m == 0,
    ensures
        d % 2 == 0,
{
    vstd::arithmetic::div_mod::lemma_fundamental_div_mod(d, m);
    let q = d / m;
    assert(d == m * q);
    let h = m / 2;
    assert(m == 2 * h);
    assert(d == 2 * (h * q)) by (nonlinear_arith)
        requires
            d == m * q,
            m == 2 * h,
    ;
}

/// A cell index pins its normalized coordinate down.
proof fn lemma_cell_index_unique(w: int, x1: int, y1: int, x2: int, y2: int)
    requires
        w > 0,
        0 <= x1 < w,
        0 <= x2 < w,
        x1 + y1 * w == x2 + y2 * w,
    ensures
        x1 == x2,
        y1 == y2,
{
    assert((y1 - y2) * w == x2 - x1) by (nonlinear_arith)
        requires
            x1 + y1 * w == x2 + y2 * w,
    ;
    if y1 > y2 {
        assert((y1 - y2) * w >= w) by (nonlinear_arith)
            requires
                y1 - y2 >= 1,
                w > 0,
        ;
    } else if y1 < y2 {
        assert((y2 - y1) * w >= w) by (nonlinear_arith)
            requires
                y2 - y1 >= 1,
                w > 0,
        ;
        assert((y1 - y2) * w == -((y2 - y1) * w)) by (nonlinear_arith);
    }
}

/// Along one axis: the two coordinates normalize alike, and adding the same amount
/// keeps them so.
pub open spec fn axis_same(wrap: bool, size: int, a: int, b: int) -> bool {
    if wrap {
        a % size == b % size
    } else {
        a == b
    }
}

proof fn lemma_normalize_same(mp: &MapParameters, a: (int, int), b: (int, int))
    requires
        mp.well_formed(),
        axis_same(mp.wrap_x, mp.width as int, a.0, b.0),
        axis_same(mp.wrap_y, mp.height as int, a.1, b.1),
    ensures
        mp.spec_cell(a) == mp.spec_cell(b),
{
}

proof fn lemma_same_cell_axes(mp: &MapParameters, a: (int, int), b: (int, int))
    requires
        mp.well_formed(),
        mp.spec_cell(a) is Some,
        mp.spec_cell(a) == mp.spec_cell(b),
    ensures
        axis_same(mp.wrap_x, mp.width as int, a.0, b.0),
        axis_same(mp.wrap_y, mp.height as int, a.1, b.1),
{
    let na = mp.spec_normalize(a).unwrap();
    let nb = mp.spec_normalize(b).unwrap();
    lemma_cell_index_unique(mp.width as int, na.0, na.1, nb.0, nb.1);
}

/// Two hexes on the same tile stay on the same tile when both take the same step.
proof fn lemma_cell_shift(mp: &MapParameters, a: (int, int), b: (int, int), e: (int, int))
    requires
        mp.well_formed(),
        wrap_aligned(mp),
        mp.hex_cell(a) is Some,
        mp.hex_cell(a) == mp.hex_cell(b),
    ensures
        mp.hex_cell((a.0 + e.0, a.1 + e.1)) == mp.hex_cell((b.0 + e.0, b.1 + e.1)),
{
    let o = mp.orientation;
    let off = mp.offset;
    let s = offset_sign(off);
    let oa = spec_hex_to_offset(a.0, a.1, o, off);
    let ob = spec_hex_to_offset(b.0, b.1, o, off);
    lemma_same_cell_axes(mp, oa, ob);
    let a2 = (a.0 + e.0, a.1 + e.1);
    let b2 = (b.0 + e.0, b.1 + e.1);
    let oa2 = spec_hex_to_offset(a2.0, a2.1, o, off);
    let ob2 = spec_hex_to_offset(b2.0, b2.1, o, off);
    let w = mp.width as int;
    let h = mp.height as int;
    match o {
        HexOrientation::Pointy => {
            // rows are the y coordinates
            let d = b.1 - a.1;
            if mp.wrap_y {
                lemma_mod_diff(b.1, a.1, h);
                lemma_even_mult(d, h);
                lemma_mod_shift(a.1, b.1, e.1, h);
            }
            assert(d % 2 == 0);
            lemma_half_shift(a.1, d, s);
            lemma_half_shift(a.1 + e.1, d, s);
            assert(ob.0 - oa.0 == ob2.0 - oa2.0);
            if mp.wrap_x {
                lemma_mod_shift(oa.0, ob.0, oa2.0 - oa.0, w);
                assert(oa2.0 == oa.0 + (oa2.0 - oa.0));
                assert(ob2.0 == ob.0 + (oa2.0 - oa.0));
            }
        },
        HexOrientation::Flat => {
            // columns are the x coordinates
            let d = b.0 - a.0;
            if mp.wrap_x {
                lemma_mod_diff(b.0, a.0, w);
                lemma_even_mult(d, w);
                lemma_mod_shift(a.0, b.0, e.0, w);
            }
            assert(d % 2 == 0);
            lemma_half_shift(a.0, d, s);
            lemma_half_shift(a.0 + e.0, d, s);
            assert(ob.1 - oa.1 == ob2.1 - oa2.1);
            if mp.wrap_y {
                lemma_mod_shift(oa.1, ob.1, oa2.1 - oa.1, h);
                assert(oa2.1 == oa.1 + (oa2.1 - oa.1));
                assert(ob2.1 == ob.1 + (oa2.1 - oa.1));
            }
        },
    }
    lemma_normalize_same(mp, oa2, ob2);
}

/// On a map whose wrap lines up with its hexes, tile `j` is a neighbor of tile `i`
/// exactly when `i` is a neighbor of `j`.
pub proof fn law_neighbors_symmetric(mp: &MapParameters, q: &TileQuery, i: int, j: int)
    requires
        q.well_formed(mp),
        wrap_aligned(mp),
        0 <= i < q.tiles.len(),
        0 <= j < q.tiles.len(),
        q.spec_neighbors(mp, i).contains(j),
    ensures
        q.spec_neighbors(mp, j).contains(i),
{
    let p = q.tiles@[i].hex_position.pair();
    let pj = q.tiles@[j].hex_position.pair();
    lemma_ring_one(p.0, p.1);
    lemma_ring_one(pj.0, pj.1);
    lemma_cells_contain(mp, spec_hexes_at_distance(p.0, p.1, 1), j);
    let k = choose|k: int|
        0 <= k < spec_hexes_at_distance(p.0, p.1, 1).len() && #[trigger] mp.hex_cell(
            spec_hexes_at_distance(p.0, p.1, 1)[k],
        ) == Some(j);
    let step = unit_step(k);
    let a = (p.0 + step.0, p.1 + step.1);
    assert(spec_hexes_at_distance(p.0, p.1, 1)[k] == a);
    // the opposite step
    let k2 = (k + 3) % 6;
    let back = unit_step(k2);
    assert(back == (-step.0, -step.1));
    lemma_cell_shift(mp, a, pj, back);
    assert((a.0 + back.0, a.1 + back.1) == p);
    assert(spec_hexes_at_distance(pj.0, pj.1, 1)[k2] == (pj.0 + back.0, pj.1 + back.1));
    assert(mp.hex_cell(spec_hexes_at_distance(pj.0, pj.1, 1)[k2]) == Some(i));
    lemma_cells_contain(mp, spec_hexes_at_distance(pj.0, pj.1, 1), i);
}

} // verus!
