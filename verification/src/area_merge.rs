//! Folding small areas into their neighbors: an area of fewer than
//! [`MIN_AREA_SIZE`] tiles joins the largest area of the same kind (water or land)
//! that borders it, when that area is large enough.
//!
//! The map is given by its adjacency lists, as in [`crate::area`]; the tiles are
//! named by index, and `ids[i]` is the area id tile `i` had when merging began.

use crate::area::{
    adj_ok, adjacent, area_ids, lemma_i32_keys_ordered, lists_neighbors, terrain_flags, terrain_mask,
    tile_neighbor_lists, AreaIdAndSize,
};
use crate::hex::MapParameters;
use crate::terrain::TerrainType;
use crate::tile_query::{TileQuery, TileQueryItem};
use std::collections::BTreeMap;
use vstd::prelude::*;
use vstd::std_specs::cmp::OrdSpec;
use vstd::std_specs::iter::IteratorSpec;

verus! {

/// Areas smaller than this are folded into a neighbor.
pub const MIN_AREA_SIZE: u32 = 7;

/// How many of the first `n` tiles carry id `a`.
pub open spec fn id_count(ids: Seq<i32>, a: i32, n: int) -> nat
    decreases n,
{
    if n <= 0 {
        0
    } else {
        id_count(ids, a, n - 1) + if ids[n - 1] == a {
            1nat
        } else {
            0nat
        }
    }
}

/// How many of the first `n` tiles carry another id than the one they started with.
pub open spec fn moved_count(cur: Seq<i32>, ids: Seq<i32>, n: int) -> nat
    decreases n,
{
    if n <= 0 {
        0
    } else {
        moved_count(cur, ids, n - 1) + if cur[n - 1] != ids[n - 1] {
            1nat
        } else {
            0nat
        }
    }
}

/// The first tile of area `a`.
pub open spec fn first_tile(ids: Seq<i32>, a: i32) -> int {
    choose|i: int| 0 <= i < ids.len() && ids[i] == a && forall|j: int| 0 <= j < i ==> ids[j] != a
}

/// Tile `c` lies next to tile `m` of area `a`, outside the area, and is water exactly
/// when `is_water` holds.
pub open spec fn border_via(ids: Seq<i32>, water: Seq<bool>, adj: Seq<Vec<usize>>, a: i32, is_water: bool, m: int, c: int) -> bool {
    &&& 0 <= m < ids.len()
    &&& ids[m] == a
    &&& 0 <= c < ids.len()
    &&& ids[c] != a
    &&& water[c] == is_water
    &&& adjacent(adj, m, c)
}

/// Tile `c` borders area `a` and is of its kind: water when the area's first tile is water,
/// land otherwise.
pub open spec fn on_border(ids: Seq<i32>, water: Seq<bool>, adj: Seq<Vec<usize>>, a: i32, c: int) -> bool {
    exists|m: int| #[trigger] border_via(ids, water, adj, a, water[first_tile(ids, a)], m, c)
}

#[verifier::opaque]
/// Tile `b` is the border tile of area `a` whose area (by its current id `cur`) is
/// largest, and among those the one with the largest entity.
pub open spec fn best_border(
    sizes: Map<i32, u32>,
    cur: Seq<i32>,
    ids: Seq<i32>,
    water: Seq<bool>,
    ents: Seq<u64>,
    adj: Seq<Vec<usize>>,
    a: i32,
    b: int,
) -> bool {
    &&& on_border(ids, water, adj, a, b)
    &&& forall|c: int|
        #[trigger] on_border(ids, water, adj, a, c) ==> sizes[cur[c]] < sizes[cur[b]] || (sizes[cur[c]]
            == sizes[cur[b]] && ents[c] <= ents[b])
}

/// The sizes and current ids after area `a` is looked at: when the largest bordering
/// area of its kind (see [`best_border`]) has at least [`MIN_AREA_SIZE`] tiles, the
/// size of `a` is dropped, its tiles are added to that area's size, and they take
/// that area's id. Otherwise nothing changes.
pub open spec fn merge_area(
    st: (Map<i32, u32>, Seq<i32>),
    a: i32,
    ids: Seq<i32>,
    water: Seq<bool>,
    ents: Seq<u64>,
    adj: Seq<Vec<usize>>,
) -> (Map<i32, u32>, Seq<i32>) {
    let (sizes, cur) = st;
    if exists|b: int| best_border(sizes, cur, ids, water, ents, adj, a, b) {
        let b = choose|b: int| best_border(sizes, cur, ids, water, ents, adj, a, b);
        let t = cur[b];
        if sizes[t] >= MIN_AREA_SIZE {
            let s1 = sizes.remove(a);
            let s2 = if s1.contains_key(t) {
                s1.insert(t, (s1[t] + id_count(ids, a, ids.len() as int)) as u32)
            } else {
                s1
            };
            (s2, Seq::new(cur.len(), |i: int| if ids[i] == a { t } else { cur[i] }))
        } else {
            st
        }
    } else {
        st
    }
}

/// The sizes and current ids after the areas of `order` are looked at, in order.
pub open spec fn merge_areas(
    st: (Map<i32, u32>, Seq<i32>),
    order: Seq<i32>,
    ids: Seq<i32>,
    water: Seq<bool>,
    ents: Seq<u64>,
    adj: Seq<Vec<usize>>,
) -> (Map<i32, u32>, Seq<i32>)
    decreases order.len(),
{
    if order.len() == 0 {
        st
    } else {
        merge_area(merge_areas(st, order.drop_last(), ids, water, ents, adj), order.last(), ids, water, ents, adj)
    }
}

/// `order` lists the ids of the areas smaller than [`MIN_AREA_SIZE`], in increasing order.
pub open spec fn small_area_order(sizes: Map<i32, u32>, order: Seq<i32>) -> bool {
    &&& forall|i: int, j: int| 0 <= i < j < order.len() ==> order[i] < order[j]
    &&& forall|k: i32| #[trigger] order.contains(k) <==> sizes.contains_key(k) && sizes[k] < MIN_AREA_SIZE
}

/// The ids of the areas smaller than [`MIN_AREA_SIZE`], in increasing order.
fn small_area_ids(m: &BTreeMap<i32, u32>) -> (r: Vec<i32>)
    ensures
        small_area_order(m@, r@),
{
    broadcast use {vstd::std_specs::btree::group_btree_axioms, vstd::laws_cmp::group_laws_cmp};

    let ghost all: Seq<i32> = vstd::std_specs::btree::spec_keys_iter(m).remaining().unref();
    let ghost refs = vstd::std_specs::btree::spec_keys_iter(m).remaining();
    assert(forall|i: int, j: int|
        #![trigger refs[i], refs[j]]
        0 <= i < j < refs.len() ==> OrdSpec::cmp_spec(&refs[i], &refs[j]) is Less);
    assert(forall|i: int, j: int| 0 <= i < j < all.len() ==> all[i] < all[j]);
    assert(all.to_set() == m@.dom());
    let mut r: Vec<i32> = Vec::new();
    let ghost mut i: int = 0;
    for k in it: m.keys()
        invariant
            it.seq().unref() == all,
            i == it.index(),
            forall|a: int, b: int| 0 <= a < b < all.len() ==> all[a] < all[b],
            all.to_set() == m@.dom(),
            forall|a: int, b: int| 0 <= a < b < r.len() ==> r@[a] < r@[b],
            r.len() <= i,
            i > 0 ==> forall|q: int| 0 <= q < r.len() ==> r@[q] <= all[i - 1],
            forall|x: i32| #[trigger] r@.contains(x) ==> m@.contains_key(x) && m@[x] < MIN_AREA_SIZE,
            forall|p: int| 0 <= p < i && m@[all[p]] < MIN_AREA_SIZE ==> r@.contains(#[trigger] all[p]),
    {
        assert(*k == all[i]);
        assert(m@.contains_key(all[i])) by {
            assert(all.to_set().contains(all[i]));
        }
        assert(i > 0 ==> all[i - 1] < all[i]);
        assert(forall|q: int| 0 <= q < r.len() ==> r@[q] < all[i]);
        let v = *m.get(k).unwrap();
        let ghost r0 = r@;
        if v < MIN_AREA_SIZE {
            r.push(*k);
            assert forall|x: i32| #[trigger] r@.contains(x) implies m@.contains_key(x) && m@[x]
                < MIN_AREA_SIZE by {
                if x != all[i] {
                    assert(r0.contains(x));
                }
            }
        }
        assert forall|p: int| 0 <= p < i + 1 && m@[all[p]] < MIN_AREA_SIZE implies r@.contains(
            #[trigger] all[p],
        ) by {
            if p < i {
                assert(r0.contains(all[p]));
                let w = choose|w: int| 0 <= w < r0.len() && r0[w] == all[p];
                assert(r@[w] == all[p]);
            } else {
                assert(r@[r@.len() - 1] == all[p]);
            }
        }
        proof {
            i = i + 1;
        }
    }
    proof {
        assert forall|x: i32| m@.contains_key(x) && m@[x] < MIN_AREA_SIZE implies r@.contains(x) by {
            assert(all.to_set().contains(x));
            let p = choose|p: int| 0 <= p < all.len() && all[p] == x;
        }
    }
    r
}


/// The ids after every tile of area `a` takes id `t`.
pub open spec fn retagged(cur: Seq<i32>, ids: Seq<i32>, a: i32, t: i32) -> Seq<i32> {
    Seq::new(cur.len(), |i: int| if ids[i] == a { t } else { cur[i] })
}

/// While no tile of area `a` has moved, the moved tiles and the tiles of `a` are
/// different tiles.
proof fn lemma_counts_fit(cur: Seq<i32>, ids: Seq<i32>, a: i32, n: int)
    requires
        0 <= n <= ids.len(),
        cur.len() == ids.len(),
        forall|i: int| 0 <= i < n && ids[i] == a ==> cur[i] == ids[i],
    ensures
        moved_count(cur, ids, n) + id_count(ids, a, n) <= n,
    decreases n,
{
    if n > 0 {
        lemma_counts_fit(cur, ids, a, n - 1);
    }
}

/// Moving the unmoved tiles of area `a` to another id moves exactly that many more tiles.
proof fn lemma_moved_after(cur: Seq<i32>, ids: Seq<i32>, a: i32, t: i32, n: int)
    requires
        0 <= n <= ids.len(),
        cur.len() == ids.len(),
        t != a,
        forall|i: int| 0 <= i < n && ids[i] == a ==> cur[i] == ids[i],
    ensures
        moved_count(retagged(cur, ids, a, t), ids, n) == moved_count(cur, ids, n) + id_count(ids, a, n),
    decreases n,
{
    if n > 0 {
        lemma_moved_after(cur, ids, a, t, n - 1);
    }
}

/// There is one best border tile when the entities are distinct.
proof fn lemma_best_unique(
    sizes: Map<i32, u32>,
    cur: Seq<i32>,
    ids: Seq<i32>,
    water: Seq<bool>,
    ents: Seq<u64>,
    adj: Seq<Vec<usize>>,
    a: i32,
    b1: int,
    b2: int,
)
    requires
        ents.len() == ids.len(),
        forall|i: int, j: int| 0 <= i < ents.len() && 0 <= j < ents.len() && i != j ==> ents[i] != ents[j],
        best_border(sizes, cur, ids, water, ents, adj, a, b1),
        best_border(sizes, cur, ids, water, ents, adj, a, b2),
    ensures
        b1 == b2,
{
    reveal(best_border);
    let m1 = choose|m: int| #[trigger] border_via(ids, water, adj, a, water[first_tile(ids, a)], m, b1);
    let m2 = choose|m: int| #[trigger] border_via(ids, water, adj, a, water[first_tile(ids, a)], m, b2);
    assert(on_border(ids, water, adj, a, b1));
    assert(on_border(ids, water, adj, a, b2));
}

/// Tile `c` is no better a border tile than tile `b`.
pub open spec fn no_better(sizes: Map<i32, u32>, cur: Seq<i32>, ents: Seq<u64>, c: int, b: int) -> bool {
    sizes[cur[c]] < sizes[cur[b]] || (sizes[cur[c]] == sizes[cur[b]] && ents[c] <= ents[b])
}

/// Looks at area `a` as [`merge_area`] says.
fn merge_one(
    a: i32,
    ids: &Vec<i32>,
    water: &Vec<bool>,
    ents: &Vec<u64>,
    adj: &Vec<Vec<usize>>,
    cur: &mut Vec<i32>,
    sizes: &mut BTreeMap<i32, u32>,
)
    requires
        water.len() == ids.len(),
        ents.len() == ids.len(),
        old(cur).len() == ids.len(),
        adj_ok(adj@, ids.len() as int),
        exists|i: int| 0 <= i < ids.len() && ids@[i] == a,
        forall|i: int| 0 <= i < ids.len() ==> old(sizes)@.contains_key(#[trigger] old(cur)@[i]),
        forall|i: int, j: int| 0 <= i < ents.len() && 0 <= j < ents.len() && i != j ==> ents@[i] != ents@[j],
        forall|k: i32|
            #[trigger] old(sizes)@.contains_key(k) ==> old(sizes)@[k] + id_count(ids@, a, ids.len() as int)
                <= u32::MAX,
    ensures
        (final(sizes)@, final(cur)@) == merge_area((old(sizes)@, old(cur)@), a, ids@, water@, ents@, adj@),
{
    broadcast use vstd::std_specs::btree::group_btree_axioms;

    proof {
        lemma_i32_keys_ordered();
        reveal(best_border);
    }
    let n = ids.len();
    let ghost cur0 = cur@;
    let ghost sizes0 = sizes@;
    let mut members: Vec<usize> = Vec::new();
    let mut i: usize = 0;
    while i < n
        invariant
            n == ids.len(),
            0 <= i <= n,
            forall|p: int| 0 <= p < members.len() ==> (#[trigger] members@[p]) < i && ids@[members@[p] as int] == a,
            forall|p: int, q: int| 0 <= p < q < members.len() ==> members@[p] < members@[q],
            forall|j: int| 0 <= j < i && ids@[j] == a ==> #[trigger] members@.contains(j as usize),
            members.len() == id_count(ids@, a, i as int),
        decreases n - i,
    {
        let ghost m0 = members@;
        if ids[i] == a {
            members.push(i);
            assert forall|x: usize| m0.contains(x) implies members@.contains(x) by {
                let w = choose|w: int| 0 <= w < m0.len() && m0[w] == x;
                assert(members@[w] == x);
            }
            assert(members@[members.len() - 1] == i);
        }
        assert forall|j: int| 0 <= j < i + 1 && ids@[j] == a implies #[trigger] members@.contains(j as usize) by {
            if j < i {
                assert(m0.contains(j as usize));
                let w = choose|w: int| 0 <= w < m0.len() && m0[w] == j as usize;
                assert(members@[w] == j as usize);
            } else {
                assert(members@[members.len() - 1] == i);
            }
        }
        i = i + 1;
    }
    let ghost wi = choose|wi: int| 0 <= wi < ids.len() && ids@[wi] == a;
    assert(members@.contains(wi as usize));
    assert(members.len() > 0);
    let first = members[0];
    proof {
        assert forall|j: int| 0 <= j < first implies ids@[j] != a by {
            if ids@[j] == a {
                assert(members@.contains(j as usize));
                let p = choose|p: int| 0 <= p < members.len() && members@[p] == j as usize;
                if p > 0 {
                    assert(members@[0] < members@[p]);
                }
            }
        }
        let f = first_tile(ids@, a);
        assert(0 <= first < ids.len() && ids@[first as int] == a);
        assert(0 <= f < ids.len() && ids@[f] == a && forall|j: int| 0 <= j < f ==> ids@[j] != a);
        assert(f == first);
    }
    let is_water = water[first];
    let mut border: Vec<usize> = Vec::new();
    let mut p: usize = 0;
    while p < members.len()
        invariant
            n == ids.len(),
            water.len() == n,
            adj_ok(adj@, n as int),
            is_water == water@[first_tile(ids@, a)],
            forall|pp: int| 0 <= pp < members.len() ==> (#[trigger] members@[pp]) < n && ids@[members@[pp] as int] == a,
            0 <= p <= members.len(),
            forall|w: int| 0 <= w < border.len() ==> on_border(ids@, water@, adj@, a, #[trigger] border@[w] as int),
            forall|w: int| 0 <= w < border.len() ==> #[trigger] border@[w] < n,
            forall|pp: int, c: int|
                0 <= pp < p && #[trigger] border_via(ids@, water@, adj@, a, is_water, members@[pp] as int, c)
                    ==> border@.contains(c as usize),
        decreases members.len() - p,
    {
        let m = members[p];
        let mut q: usize = 0;
        while q < adj[m].len()
            invariant
                n == ids.len(),
                water.len() == n,
                adj_ok(adj@, n as int),
                is_water == water@[first_tile(ids@, a)],
                m < n,
                ids@[m as int] == a,
                0 <= q <= adj@[m as int].len(),
                forall|w: int| 0 <= w < border.len() ==> on_border(ids@, water@, adj@, a, #[trigger] border@[w] as int),
                forall|w: int| 0 <= w < border.len() ==> #[trigger] border@[w] < n,
                forall|pp: int, c: int|
                    0 <= pp < p && #[trigger] border_via(ids@, water@, adj@, a, is_water, members@[pp] as int, c)
                        ==> border@.contains(c as usize),
                forall|qq: int|
                    0 <= qq < q && ids@[adj@[m as int]@[qq] as int] != a && water@[adj@[m as int]@[qq] as int] == is_water
                        ==> border@.contains(#[trigger] adj@[m as int]@[qq]),
            decreases adj@[m as int].len() - q,
        {
            let c = adj[m][q];
            assert(c < n);
            let ghost b0 = border@;
            if ids[c] != a && water[c] == is_water {
                assert(adjacent(adj@, m as int, c as int));
                assert(border_via(ids@, water@, adj@, a, is_water, m as int, c as int));
                border.push(c);
                assert(border@[border.len() - 1] == c);
                assert forall|x: usize| b0.contains(x) implies border@.contains(x) by {
                    let w = choose|w: int| 0 <= w < b0.len() && b0[w] == x;
                    assert(border@[w] == x);
                }
            }
            q = q + 1;
        }
        proof {
            assert forall|pp: int, c: int|
                0 <= pp < p + 1 && #[trigger] border_via(ids@, water@, adj@, a, is_water, members@[pp] as int, c)
                    implies border@.contains(c as usize) by {
                if pp == p {
                    let k = choose|k: int| 0 <= k < adj@[m as int].len() && (#[trigger] adj@[m as int]@[k]) == c;
                    assert(ids@[adj@[m as int]@[k] as int] != a);
                }
            }
        }
        p = p + 1;
    }
    proof {
        assert forall|c: int| #[trigger] on_border(ids@, water@, adj@, a, c) implies border@.contains(c as usize) by {
            let m = choose|m: int| #[trigger] border_via(ids@, water@, adj@, a, water@[first_tile(ids@, a)], m, c);
            assert(members@.contains(m as usize));
            let pp = choose|pp: int| 0 <= pp < members.len() && members@[pp] == m as usize;
            assert(border_via(ids@, water@, adj@, a, is_water, members@[pp] as int, c));
        }
    }
    if border.len() == 0 {
        proof {
            assert forall|b: int| !best_border(sizes0, cur0, ids@, water@, ents@, adj@, a, b) by {
                if best_border(sizes0, cur0, ids@, water@, ents@, adj@, a, b) {
                    assert(border@.contains(b as usize));
                }
            }
        }
        return;
    }
    let mut best: usize = border[0];
    assert(on_border(ids@, water@, adj@, a, best as int));
    assert(best < n);
    let mut best_size: u32 = *sizes.get(&cur[best]).unwrap();
    let mut w: usize = 1;
    while w < border.len()
        invariant
            n == ids.len(),
            cur@ == cur0,
            cur.len() == n,
            sizes@ == sizes0,
            ents.len() == n,
            forall|i: int| 0 <= i < n ==> sizes0.contains_key(#[trigger] cur0[i]),
            forall|x: int| 0 <= x < border.len() ==> on_border(ids@, water@, adj@, a, #[trigger] border@[x] as int),
            forall|x: int| 0 <= x < border.len() ==> #[trigger] border@[x] < n,
            1 <= w <= border.len(),
            on_border(ids@, water@, adj@, a, best as int),
            best < n,
            best_size == sizes0[cur0[best as int]],
            forall|x: int| 0 <= x < w ==> no_better(sizes0, cur0, ents@, #[trigger] border@[x] as int, best as int),
        decreases border.len() - w,
    {
        let c = border[w];
        assert(c < n);
        let s = *sizes.get(&cur[c]).unwrap();
        if s > best_size || (s == best_size && ents[c] > ents[best]) {
            best = c;
            best_size = s;
        }
        w = w + 1;
    }
    proof {
        assert forall|c: int| #[trigger] on_border(ids@, water@, adj@, a, c) implies no_better(sizes0, cur0, ents@, c, best as int) by {
            assert(border@.contains(c as usize));
            let x = choose|x: int| 0 <= x < border.len() && border@[x] == c as usize;
            assert(no_better(sizes0, cur0, ents@, border@[x] as int, best as int));
        }
        assert(best_border(sizes0, cur0, ids@, water@, ents@, adj@, a, best as int));
        let b = choose|b: int| best_border(sizes0, cur0, ids@, water@, ents@, adj@, a, b);
        lemma_best_unique(sizes0, cur0, ids@, water@, ents@, adj@, a, b, best as int);
    }
    if best_size < MIN_AREA_SIZE {
        return;
    }
    let t = cur[best];
    let count = members.len() as u32;
    sizes.remove(&a);
    let ghost s1 = sizes@;
    assert(s1 == sizes0.remove(a));
    assert(count == id_count(ids@, a, n as int));
    match sizes.get(&t) {
        Some(v) => {
            assert(s1.contains_key(t));
            assert(sizes0.contains_key(t));
            let nv = *v + count;
            sizes.insert(t, nv);
            assert(sizes@ == s1.insert(t, (s1[t] + id_count(ids@, a, ids.len() as int)) as u32));
        },
        None => {
            assert(!s1.contains_key(t));
        },
    }
    let ghost s2 = sizes@;
    let mut j: usize = 0;
    while j < n
        invariant
            n == ids.len(),
            cur.len() == n,
            cur0.len() == n,
            0 <= j <= n,
            forall|x: int| 0 <= x < j ==> #[trigger] cur@[x] == retagged(cur0, ids@, a, t)[x],
            forall|x: int| j <= x < n ==> #[trigger] cur@[x] == cur0[x],
        decreases n - j,
    {
        if ids[j] == a {
            cur.set(j, t);
        }
        j = j + 1;
    }
    assert(cur@ =~= retagged(cur0, ids@, a, t));
    proof {
        let b = choose|b: int| best_border(sizes0, cur0, ids@, water@, ents@, adj@, a, b);
        assert(b == best as int);
        assert(sizes0[cur0[b]] >= MIN_AREA_SIZE);
        assert(merge_area((sizes0, cur0), a, ids@, water@, ents@, adj@) == (s2, retagged(cur0, ids@, a, t)));
    }
}


/// What holds of the sizes and current ids while the small areas are merged one by
/// one, `pending` being the small areas not looked at yet: every size belongs to an
/// area known at the start and every tile's area has a size; a size grew at most by
/// the tiles that moved; small areas never grow; a tile that moved went to an area
/// that was large at the start; and no tile of a pending area has moved.
#[verifier::opaque]
pub open spec fn merge_inv(init: Map<i32, u32>, sizes: Map<i32, u32>, cur: Seq<i32>, ids: Seq<i32>, pending: Seq<i32>) -> bool {
    &&& cur.len() == ids.len()
    &&& forall|k: i32| #[trigger] sizes.contains_key(k) ==> init.contains_key(k)
    &&& forall|i: int| 0 <= i < ids.len() ==> sizes.contains_key(#[trigger] cur[i])
    &&& forall|k: i32| #[trigger] sizes.contains_key(k) ==> sizes[k] <= init[k] + moved_count(cur, ids, ids.len() as int)
    &&& forall|k: i32| #[trigger] sizes.contains_key(k) && init[k] < MIN_AREA_SIZE ==> sizes[k] == init[k]
    &&& forall|i: int|
        0 <= i < ids.len() ==> #[trigger] cur[i] == ids[i] || (init.contains_key(cur[i]) && init[cur[i]] >= MIN_AREA_SIZE)
    &&& forall|i: int| 0 <= i < ids.len() && pending.contains(#[trigger] ids[i]) ==> cur[i] == ids[i]
}

/// Merging area `a` fits the sizes in a `u32`, when no size at the start came closer
/// to the limit than the number of tiles.
proof fn lemma_merge_fits(init: Map<i32, u32>, sizes: Map<i32, u32>, cur: Seq<i32>, ids: Seq<i32>, a: i32, rest: Seq<i32>)
    requires
        merge_inv(init, sizes, cur, ids, seq![a] + rest),
        forall|k: i32| #[trigger] init.contains_key(k) ==> init[k] + ids.len() <= u32::MAX,
    ensures
        forall|k: i32| #[trigger] sizes.contains_key(k) ==> sizes[k] + id_count(ids, a, ids.len() as int) <= u32::MAX,
{
    reveal(merge_inv);
    assert forall|i: int| 0 <= i < ids.len() && ids[i] == a implies cur[i] == ids[i] by {
        assert((seq![a] + rest)[0] == a);
        assert((seq![a] + rest).contains(ids[i]));
    }
    lemma_counts_fit(cur, ids, a, ids.len() as int);
}

/// Dropping area `a` from the pending areas keeps [`merge_inv`].
proof fn lemma_pending_shrinks(init: Map<i32, u32>, sizes: Map<i32, u32>, cur: Seq<i32>, ids: Seq<i32>, a: i32, rest: Seq<i32>)
    requires
        merge_inv(init, sizes, cur, ids, seq![a] + rest),
    ensures
        merge_inv(init, sizes, cur, ids, rest),
{
    reveal(merge_inv);
    let pend = seq![a] + rest;
    assert forall|i: int| 0 <= i < ids.len() && rest.contains(#[trigger] ids[i]) implies cur[i] == ids[i] by {
        let w = choose|w: int| 0 <= w < rest.len() && rest[w] == ids[i];
        assert(pend[w + 1] == ids[i]);
    }
}

/// Moving the tiles of small area `a` into area `t` keeps [`merge_inv`].
proof fn lemma_move_keeps(
    init: Map<i32, u32>,
    sizes: Map<i32, u32>,
    cur: Seq<i32>,
    ids: Seq<i32>,
    a: i32,
    b: int,
    rest: Seq<i32>,
)
    requires
        merge_inv(init, sizes, cur, ids, seq![a] + rest),
        init.contains_key(a),
        init[a] < MIN_AREA_SIZE,
        !rest.contains(a),
        0 <= b < ids.len(),
        ids[b] != a,
        sizes[cur[b]] >= MIN_AREA_SIZE,
    ensures
        sizes.contains_key(cur[b]),
        cur[b] != a,
        ({
            let t = cur[b];
            let s1 = sizes.remove(a);
            let s2 = s1.insert(t, (s1[t] + id_count(ids, a, ids.len() as int)) as u32);
            merge_inv(init, s2, retagged(cur, ids, a, t), ids, rest)
        }),
{
    lemma_pending_shrinks(init, sizes, cur, ids, a, rest);
    reveal(merge_inv);
    let t = cur[b];
    assert(sizes.contains_key(t));
    assert(t != a);
    let n = ids.len() as int;
    let pend = seq![a] + rest;
    assert(pend[0] == a);
    assert forall|i: int| 0 <= i < n && ids[i] == a implies cur[i] == ids[i] by {
        assert(pend.contains(ids[i]));
    }
    let cnt = id_count(ids, a, n);
    let s1 = sizes.remove(a);
    let s2 = s1.insert(t, (s1[t] + cnt) as u32);
    let c2 = retagged(cur, ids, a, t);
    lemma_moved_after(cur, ids, a, t, n);
    lemma_counts_fit(cur, ids, a, n);
    assert(init[t] >= MIN_AREA_SIZE);
    assert forall|i: int| 0 <= i < n implies s2.contains_key(#[trigger] c2[i]) by {
        if ids[i] != a {
            assert(sizes.contains_key(cur[i]));
            assert(cur[i] != a);
        }
    }
    assert forall|k: i32| #[trigger] s2.contains_key(k) implies s2[k] <= init[k] + moved_count(c2, ids, n) by {
        if k != t {
            assert(sizes.contains_key(k));
        }
    }
}

/// The best border tile of an area lies outside it.
proof fn lemma_best_is_outside(
    sizes: Map<i32, u32>,
    cur: Seq<i32>,
    ids: Seq<i32>,
    water: Seq<bool>,
    ents: Seq<u64>,
    adj: Seq<Vec<usize>>,
    a: i32,
    b: int,
)
    requires
        best_border(sizes, cur, ids, water, ents, adj, a, b),
    ensures
        0 <= b < ids.len(),
        ids[b] != a,
{
    reveal(best_border);
    let m = choose|m: int| #[trigger] border_via(ids, water, adj, a, water[first_tile(ids, a)], m, b);
}

/// Looking at one small area keeps [`merge_inv`].
proof fn lemma_merge_keeps(
    init: Map<i32, u32>,
    sizes: Map<i32, u32>,
    cur: Seq<i32>,
    ids: Seq<i32>,
    water: Seq<bool>,
    ents: Seq<u64>,
    adj: Seq<Vec<usize>>,
    a: i32,
    rest: Seq<i32>,
)
    requires
        merge_inv(init, sizes, cur, ids, seq![a] + rest),
        init.contains_key(a),
        init[a] < MIN_AREA_SIZE,
        !rest.contains(a),
    ensures
        ({
            let (s2, c2) = merge_area((sizes, cur), a, ids, water, ents, adj);
            merge_inv(init, s2, c2, ids, rest)
        }),
{
    lemma_pending_shrinks(init, sizes, cur, ids, a, rest);
    if exists|b: int| best_border(sizes, cur, ids, water, ents, adj, a, b) {
        let b = choose|b: int| best_border(sizes, cur, ids, water, ents, adj, a, b);
        let t = cur[b];
        if sizes[t] >= MIN_AREA_SIZE {
            lemma_best_is_outside(sizes, cur, ids, water, ents, adj, a, b);
            lemma_move_keeps(init, sizes, cur, ids, a, b, rest);
            let s1 = sizes.remove(a);
            assert(merge_area((sizes, cur), a, ids, water, ents, adj) == (
                s1.insert(t, (s1[t] + id_count(ids, a, ids.len() as int)) as u32),
                retagged(cur, ids, a, t),
            ));
        } else {
            assert(merge_area((sizes, cur), a, ids, water, ents, adj) == (sizes, cur));
        }
    } else {
        assert(merge_area((sizes, cur), a, ids, water, ents, adj) == (sizes, cur));
    }
}


/// The entities of the tiles.
pub open spec fn entity_ids(q: &TileQuery) -> Seq<u64> {
    Seq::new(q.tiles.len() as nat, |i: int| q.tiles@[i].entity)
}

/// Folds the areas smaller than [`MIN_AREA_SIZE`] into their neighbors, smallest id
/// first, as [`merge_area`] says. The tiles of an area are those that had its id when
/// merging began; a tile whose area was merged before counts with its new area.
///
/// Every tile's area must have a size and every small area a tile; the entities of
/// the tiles are distinct; and the sizes leave room for the number of tiles in a `u32`.
/// When the sizes count the tiles of each area, they still do afterwards
/// ([`counts_hold`]; see also [`law_merged_sizes_count_tiles`]).
pub fn reassign_area_id(
    map_parameters: &MapParameters,
    area_id_and_size: &mut AreaIdAndSize,
    query_tile: &mut TileQuery,
)
    requires
        old(query_tile).well_formed(map_parameters),
        forall|i: int|
            0 <= i < old(query_tile).tiles.len() ==> old(area_id_and_size).0@.contains_key(
                #[trigger] old(query_tile).tiles@[i].area_id,
            ),
        forall|k: i32|
            #[trigger] old(area_id_and_size).0@.contains_key(k) && old(area_id_and_size).0@[k] < MIN_AREA_SIZE
                ==> exists|i: int| 0 <= i < old(query_tile).tiles.len() && old(query_tile).tiles@[i].area_id == k,
        forall|k: i32|
            #[trigger] old(area_id_and_size).0@.contains_key(k) ==> old(area_id_and_size).0@[k] + old(
                query_tile,
            ).tiles.len() <= u32::MAX,
        forall|i: int, j: int|
            0 <= i < old(query_tile).tiles.len() && 0 <= j < old(query_tile).tiles.len() && i != j
                ==> old(query_tile).tiles@[i].entity != old(query_tile).tiles@[j].entity,
    ensures
        final(query_tile).well_formed(map_parameters),
        final(query_tile).tiles.len() == old(query_tile).tiles.len(),
        forall|i: int|
            0 <= i < old(query_tile).tiles.len() ==> (#[trigger] final(query_tile).tiles@[i]) == (
            TileQueryItem { area_id: final(query_tile).tiles@[i].area_id, ..old(query_tile).tiles@[i] }),
        forall|i: int|
            0 <= i < final(query_tile).tiles.len() ==> final(area_id_and_size).0@.contains_key(
                #[trigger] final(query_tile).tiles@[i].area_id,
            ),
        exists|order: Seq<i32>, adj: Seq<Vec<usize>>|
            #![trigger small_area_order(old(area_id_and_size).0@, order), lists_neighbors(adj, map_parameters, &*old(query_tile))]
            {
                &&& small_area_order(old(area_id_and_size).0@, order)
                &&& lists_neighbors(adj, map_parameters, &*old(query_tile))
                &&& (final(area_id_and_size).0@, area_ids(&*final(query_tile))) == merge_areas(
                    (old(area_id_and_size).0@, area_ids(&*old(query_tile))),
                    order,
                    area_ids(&*old(query_tile)),
                    terrain_mask(&*old(query_tile), TerrainType::Water, false),
                    entity_ids(&*old(query_tile)),
                    adj,
                )
                &&& (forall|k: i32|
                    #[trigger] old(area_id_and_size).0@.contains_key(k) ==> old(area_id_and_size).0@[k] == id_count(
                        area_ids(&*old(query_tile)),
                        k,
                        old(query_tile).tiles.len() as int,
                    )) ==> counts_hold(
                    old(area_id_and_size).0@,
                    final(area_id_and_size).0@,
                    area_ids(&*final(query_tile)),
                    area_ids(&*old(query_tile)),
                    order,
                )
            },
{
    let n = query_tile.tiles.len();
    let ghost q0 = *query_tile;
    let ghost init = area_id_and_size.0@;
    let mut ids: Vec<i32> = Vec::new();
    let mut cur: Vec<i32> = Vec::new();
    let mut ents: Vec<u64> = Vec::new();
    let mut i: usize = 0;
    while i < n
        invariant
            n == query_tile.tiles.len(),
            0 <= i <= n,
            ids.len() == i,
            cur.len() == i,
            ents.len() == i,
            forall|j: int| 0 <= j < i ==> #[trigger] ids@[j] == query_tile.tiles@[j].area_id,
            forall|j: int| 0 <= j < i ==> #[trigger] cur@[j] == query_tile.tiles@[j].area_id,
            forall|j: int| 0 <= j < i ==> #[trigger] ents@[j] == query_tile.tiles@[j].entity,
        decreases n - i,
    {
        ids.push(query_tile.tiles[i].area_id);
        cur.push(query_tile.tiles[i].area_id);
        ents.push(query_tile.tiles[i].entity);
        i = i + 1;
    }
    assert(ids@ =~= area_ids(query_tile));
    assert(cur@ =~= ids@);
    assert(ents@ =~= entity_ids(query_tile));
    let water = terrain_flags(query_tile, TerrainType::Water, false);
    let adj = tile_neighbor_lists(map_parameters, query_tile);
    let order = small_area_ids(&area_id_and_size.0);
    proof {
        reveal(merge_inv);
        assert(moved_count(cur@, ids@, n as int) == 0) by {
            lemma_unmoved(cur@, ids@, n as int);
        }
        assert(order@.skip(0) =~= order@);
        assert(order@.take(0) =~= Seq::<i32>::empty());
        assert forall|key: i32| #[trigger] init.contains_key(key) && init[key] < MIN_AREA_SIZE implies exists|i: int|
            0 <= i < n && ids@[i] == key by {
            let i = choose|i: int| 0 <= i < q0.tiles.len() && q0.tiles@[i].area_id == key;
            assert(ids@[i] == key);
        }
    }
    let mut k: usize = 0;
    while k < order.len()
        invariant
            n == ids.len(),
            water.len() == n,
            ents.len() == n,
            adj_ok(adj@, n as int),
            forall|i: int, j: int| 0 <= i < n && 0 <= j < n && i != j ==> ents@[i] != ents@[j],
            forall|key: i32| #[trigger] init.contains_key(key) ==> init[key] + n <= u32::MAX,
            forall|key: i32|
                #[trigger] init.contains_key(key) && init[key] < MIN_AREA_SIZE ==> exists|i: int|
                    0 <= i < n && ids@[i] == key,
            small_area_order(init, order@),
            0 <= k <= order.len(),
            merge_inv(init, area_id_and_size.0@, cur@, ids@, order@.skip(k as int)),
            (area_id_and_size.0@, cur@) == merge_areas((init, ids@), order@.take(k as int), ids@, water@, ents@, adj@),
        decreases order.len() - k,
    {
        let a = order[k];
        proof {
            assert(order@.contains(a));
            assert(init.contains_key(a) && init[a] < MIN_AREA_SIZE);
            let rest = order@.skip(k + 1);
            assert(order@.skip(k as int) =~= seq![a] + rest);
            assert(!rest.contains(a)) by {
                if rest.contains(a) {
                    let w = choose|w: int| 0 <= w < rest.len() && rest[w] == a;
                    assert(order@[k + 1 + w] == a);
                }
            }
            lemma_merge_fits(init, area_id_and_size.0@, cur@, ids@, a, rest);
            lemma_merge_keeps(init, area_id_and_size.0@, cur@, ids@, water@, ents@, adj@, a, rest);
            reveal(merge_inv);
        }
        merge_one(a, &ids, &water, &ents, &adj, &mut cur, &mut area_id_and_size.0);
        proof {
            assert(order@.take(k + 1).drop_last() =~= order@.take(k as int));
            assert(order@.take(k + 1).last() == a);
        }
        k = k + 1;
    }
    proof {
        assert(order@.take(order.len() as int) =~= order@);
        reveal(merge_inv);
    }
    let mut j: usize = 0;
    while j < n
        invariant
            n == query_tile.tiles.len(),
            q0.tiles.len() == n,
            cur.len() == n,
            0 <= j <= n,
            forall|t: int|
                0 <= t < j ==> #[trigger] query_tile.tiles@[t] == (TileQueryItem { area_id: cur@[t], ..q0.tiles@[t] }),
            forall|t: int| j <= t < n ==> #[trigger] query_tile.tiles@[t] == q0.tiles@[t],
        decreases n - j,
    {
        let mut t = query_tile.tiles[j];
        t.area_id = cur[j];
        query_tile.tiles.set(j, t);
        j = j + 1;
    }
    proof {
        assert forall|t: int| 0 <= t < query_tile.tiles.len() implies (#[trigger] query_tile.tiles@[t]).hex_position.small_pos()
            && map_parameters.hex_cell(query_tile.tiles@[t].hex_position.pair()) == Some(t) by {
            assert(q0.tiles@[t].hex_position.small_pos());
        }
        assert(area_ids(query_tile) =~= cur@);
        assert(q0 == *old(query_tile));
        if forall|key: i32| #[trigger] init.contains_key(key) ==> init[key] == id_count(ids@, key, n as int) {
            assert(n <= u32::MAX);
            law_merged_sizes_count_tiles(init, order@, ids@, water@, ents@, adj@);
        }
    }
}

proof fn lemma_unmoved(cur: Seq<i32>, ids: Seq<i32>, n: int)
    requires
        0 <= n <= ids.len(),
        cur == ids,
    ensures
        moved_count(cur, ids, n) == 0,
    decreases n,
{
    if n > 0 {
        lemma_unmoved(cur, ids, n - 1);
    }
}


/// Merging the small areas removes only areas smaller than [`MIN_AREA_SIZE`]: every
/// area of at least that size stays, every small area that stays keeps its size, and
/// no new area appears.
pub proof fn law_merging_removes_only_small_areas(
    st: (Map<i32, u32>, Seq<i32>),
    order: Seq<i32>,
    ids: Seq<i32>,
    water: Seq<bool>,
    ents: Seq<u64>,
    adj: Seq<Vec<usize>>,
)
    requires
        forall|k: i32| #[trigger] order.contains(k) ==> st.0.contains_key(k) && st.0[k] < MIN_AREA_SIZE,
    ensures
        ({
            let s = merge_areas(st, order, ids, water, ents, adj).0;
            &&& forall|k: i32| #[trigger] s.contains_key(k) ==> st.0.contains_key(k)
            &&& forall|k: i32| #[trigger] st.0.contains_key(k) && st.0[k] >= MIN_AREA_SIZE ==> s.contains_key(k)
            &&& forall|k: i32|
                #[trigger] st.0.contains_key(k) && st.0[k] < MIN_AREA_SIZE && s.contains_key(k) ==> s[k] == st.0[k]
        }),
    decreases order.len(),
{
    if order.len() > 0 {
        let rest = order.drop_last();
        assert forall|k: i32| #[trigger] rest.contains(k) implies st.0.contains_key(k) && st.0[k] < MIN_AREA_SIZE by {
            let i = choose|i: int| 0 <= i < rest.len() && rest[i] == k;
            assert(order[i] == k);
            assert(order.contains(k));
        }
        law_merging_removes_only_small_areas(st, rest, ids, water, ents, adj);
        let a = order.last();
        assert(order.contains(a)) by {
            assert(order[order.len() - 1] == a);
        }
        let prev = merge_areas(st, rest, ids, water, ents, adj);
        let s = prev.0;
        let cur = prev.1;
        if exists|b: int| best_border(s, cur, ids, water, ents, adj, a, b) {
            let b = choose|b: int| best_border(s, cur, ids, water, ents, adj, a, b);
            let t = cur[b];
            if s[t] >= MIN_AREA_SIZE {
                let s1 = s.remove(a);
                if s1.contains_key(t) {
                    assert(st.0.contains_key(t));
                    assert(!(st.0[t] < MIN_AREA_SIZE));
                }
            }
        }
    }
}


proof fn lemma_id_count_bound(cur: Seq<i32>, k: i32, n: int)
    requires
        0 <= n,
    ensures
        id_count(cur, k, n) <= n,
    decreases n,
{
    if n > 0 {
        lemma_id_count_bound(cur, k, n - 1);
    }
}

/// Moving the tiles of area `a` to area `t` adds them to `t`'s count and leaves every
/// other area's count alone.
proof fn lemma_retag_counts(cur: Seq<i32>, ids: Seq<i32>, a: i32, t: i32, k: i32, n: int)
    requires
        0 <= n <= ids.len(),
        cur.len() == ids.len(),
        t != a,
        forall|i: int| 0 <= i < n && ids[i] == a ==> cur[i] == a,
    ensures
        id_count(retagged(cur, ids, a, t), t, n) == id_count(cur, t, n) + id_count(ids, a, n),
        k != t && k != a ==> id_count(retagged(cur, ids, a, t), k, n) == id_count(cur, k, n),
    decreases n,
{
    if n > 0 {
        lemma_retag_counts(cur, ids, a, t, k, n - 1);
    }
}

/// The sizes `s` count the tiles of each area under the current ids `cur`, and every
/// tile's area is listed; no area appeared since `sizes`; only areas of `merged` are
/// gone; small areas keep their size; tiles of areas not merged have not moved; a
/// tile that moved went to an area that was large at the start.
pub open spec fn counts_hold(sizes: Map<i32, u32>, s: Map<i32, u32>, cur: Seq<i32>, ids: Seq<i32>, merged: Seq<i32>) -> bool {
    &&& cur.len() == ids.len()
    &&& forall|k: i32| #[trigger] s.contains_key(k) ==> s[k] == id_count(cur, k, ids.len() as int)
    &&& forall|i: int| 0 <= i < ids.len() ==> s.contains_key(#[trigger] cur[i])
    &&& forall|k: i32| #[trigger] s.contains_key(k) ==> sizes.contains_key(k)
    &&& forall|k: i32| #[trigger] sizes.contains_key(k) && !merged.contains(k) ==> s.contains_key(k)
    &&& forall|k: i32| #[trigger] s.contains_key(k) && sizes[k] < MIN_AREA_SIZE ==> s[k] == sizes[k]
    &&& forall|i: int| 0 <= i < ids.len() && !merged.contains(#[trigger] ids[i]) ==> cur[i] == ids[i]
    &&& forall|i: int|
        0 <= i < ids.len() ==> #[trigger] cur[i] == ids[i] || (sizes.contains_key(cur[i]) && sizes[cur[i]]
            >= MIN_AREA_SIZE)
}

/// Merging one more small area keeps [`counts_hold`].
#[verifier::rlimit(40)]
proof fn lemma_merge_keeps_counts(
    sizes: Map<i32, u32>,
    st: (Map<i32, u32>, Seq<i32>),
    a: i32,
    merged: Seq<i32>,
    ids: Seq<i32>,
    water: Seq<bool>,
    ents: Seq<u64>,
    adj: Seq<Vec<usize>>,
)
    requires
        ids.len() <= u32::MAX,
        counts_hold(sizes, st.0, st.1, ids, merged),
        sizes.contains_key(a),
        sizes[a] < MIN_AREA_SIZE,
        !merged.contains(a),
    ensures
        counts_hold(
            sizes,
            merge_area(st, a, ids, water, ents, adj).0,
            merge_area(st, a, ids, water, ents, adj).1,
            ids,
            merged.push(a),
        ),
{
    let n = ids.len() as int;
    let s = st.0;
    let cur = st.1;
    let m2 = merged.push(a);
    assert forall|k: i32| #[trigger] m2.contains(k) <==> merged.contains(k) || k == a by {
        if m2.contains(k) {
            let i = choose|i: int| 0 <= i < m2.len() && m2[i] == k;
            if i < merged.len() {
                assert(merged[i] == k);
            }
        }
        if merged.contains(k) {
            let i = choose|i: int| 0 <= i < merged.len() && merged[i] == k;
            assert(m2[i] == k);
        }
        if k == a {
            assert(m2[merged.len() as int] == k);
        }
    }
    assert(s.contains_key(a));
    assert forall|i: int| 0 <= i < n && ids[i] == a implies cur[i] == a by {}
    if exists|b: int| best_border(s, cur, ids, water, ents, adj, a, b) {
        let b = choose|b: int| best_border(s, cur, ids, water, ents, adj, a, b);
        let t = cur[b];
        if s[t] >= MIN_AREA_SIZE {
            reveal(best_border);
            assert(0 <= b < n);
            assert(s.contains_key(t));
            assert(t != a);
            let s1 = s.remove(a);
            let cur2 = retagged(cur, ids, a, t);
            assert(Seq::new(cur.len(), |i: int| if ids[i] == a { t } else { cur[i] }) == cur2);
            lemma_retag_counts(cur, ids, a, t, t, n);
            lemma_id_count_bound(cur2, t, n);
            let s2 = s1.insert(t, (s1[t] + id_count(ids, a, n)) as u32);
            assert(merge_area(st, a, ids, water, ents, adj) == (s2, cur2));
            assert forall|k: i32| #[trigger] s2.contains_key(k) implies s2[k] == id_count(cur2, k, n) by {
                lemma_retag_counts(cur, ids, a, t, k, n);
            }
            assert forall|i: int| 0 <= i < n implies s2.contains_key(#[trigger] cur2[i]) by {
                if ids[i] != a {
                    assert(cur2[i] == cur[i]);
                    assert(cur[i] != a);
                }
            }
            assert forall|i: int| 0 <= i < n implies #[trigger] cur2[i] == ids[i] || (sizes.contains_key(cur2[i])
                && sizes[cur2[i]] >= MIN_AREA_SIZE) by {
                if ids[i] != a {
                    assert(cur2[i] == cur[i]);
                }
            }
            assert forall|i: int| 0 <= i < n && !m2.contains(#[trigger] ids[i]) implies cur2[i] == ids[i] by {
                assert(cur2[i] == cur[i]);
            }
        }
    }
}

/// When the sizes count the tiles of each area at the start and every tile's area is
/// listed, merging the small areas (in increasing order) keeps it so: every size left
/// is the number of tiles now in that area and every tile's area is listed, so the
/// sizes still add up to the number of tiles. Besides, no area appears, only the
/// merged areas are gone, small areas keep their size, and a tile moves only to an
/// area that was large at the start.
pub proof fn law_merged_sizes_count_tiles(
    sizes: Map<i32, u32>,
    order: Seq<i32>,
    ids: Seq<i32>,
    water: Seq<bool>,
    ents: Seq<u64>,
    adj: Seq<Vec<usize>>,
)
    requires
        ids.len() <= u32::MAX,
        forall|i: int, j: int| 0 <= i < j < order.len() ==> order[i] < order[j],
        forall|k: i32| #[trigger] order.contains(k) ==> sizes.contains_key(k) && sizes[k] < MIN_AREA_SIZE,
        forall|k: i32| #[trigger] sizes.contains_key(k) ==> sizes[k] == id_count(ids, k, ids.len() as int),
        forall|i: int| 0 <= i < ids.len() ==> sizes.contains_key(#[trigger] ids[i]),
    ensures
        counts_hold(
            sizes,
            merge_areas((sizes, ids), order, ids, water, ents, adj).0,
            merge_areas((sizes, ids), order, ids, water, ents, adj).1,
            ids,
            order,
        ),
    decreases order.len(),
{
    if order.len() == 0 {
    } else {
        let rest = order.drop_last();
        let a = order.last();
        assert forall|k: i32| #[trigger] rest.contains(k) implies sizes.contains_key(k) && sizes[k] < MIN_AREA_SIZE by {
            let i = choose|i: int| 0 <= i < rest.len() && rest[i] == k;
            assert(order[i] == k);
            assert(order.contains(k));
        }
        law_merged_sizes_count_tiles(sizes, rest, ids, water, ents, adj);
        assert(order.contains(a)) by {
            assert(order[order.len() - 1] == a);
        }
        assert(!rest.contains(a)) by {
            if rest.contains(a) {
                let i = choose|i: int| 0 <= i < rest.len() && rest[i] == a;
                assert(order[i] < order[order.len() - 1]);
            }
        }
        let prev = merge_areas((sizes, ids), rest, ids, water, ents, adj);
        lemma_merge_keeps_counts(sizes, prev, a, rest, ids, water, ents, adj);
        assert(rest.push(a) =~= order);
    }
}


/// The sizes of the first `m` areas listed in `ks`, added up.
pub open spec fn size_total(s: Map<i32, u32>, ks: Seq<i32>, m: int) -> int
    decreases m,
{
    if m <= 0 {
        0
    } else {
        size_total(s, ks, m - 1) + s[ks[m - 1]] as int
    }
}

/// The tiles among the first `n` that carry one of the first `m` ids of `ks`, counted
/// id by id.
spec fn count_total(cur: Seq<i32>, ks: Seq<i32>, n: int, m: int) -> int
    decreases m,
{
    if m <= 0 {
        0
    } else {
        count_total(cur, ks, n, m - 1) + id_count(cur, ks[m - 1], n) as int
    }
}

proof fn lemma_count_total_step(cur: Seq<i32>, ks: Seq<i32>, n: int, m: int)
    requires
        n >= 1,
        0 <= m <= ks.len(),
        ks.no_duplicates(),
    ensures
        count_total(cur, ks, n, m) == count_total(cur, ks, n - 1, m) + if ks.take(m).contains(cur[n - 1]) {
            1int
        } else {
            0int
        },
    decreases m,
{
    if m > 0 {
        lemma_count_total_step(cur, ks, n, m - 1);
        let x = cur[n - 1];
        assert(ks.take(m) =~= ks.take(m - 1).push(ks[m - 1]));
        if ks.take(m - 1).contains(x) {
            let j = choose|j: int| 0 <= j < m - 1 && #[trigger] ks.take(m - 1)[j] == x;
            assert(ks[j] == x);
        }
        assert(ks.take(m).contains(x) <==> ks.take(m - 1).contains(x) || ks[m - 1] == x) by {
            if ks.take(m).contains(x) {
                let j = choose|j: int| 0 <= j < m && #[trigger] ks.take(m)[j] == x;
                if j < m - 1 {
                    assert(ks.take(m - 1)[j] == x);
                }
            }
            if ks.take(m - 1).contains(x) {
                let j = choose|j: int| 0 <= j < m - 1 && #[trigger] ks.take(m - 1)[j] == x;
                assert(ks.take(m)[j] == x);
            }
            if ks[m - 1] == x {
                assert(ks.take(m)[m - 1] == x);
            }
        }
    }
}

/// When every tile's id is listed, once each, counting the tiles id by id counts
/// every tile.
proof fn lemma_count_total_all(cur: Seq<i32>, ks: Seq<i32>, n: int)
    requires
        0 <= n <= cur.len(),
        ks.no_duplicates(),
        forall|i: int| 0 <= i < n ==> ks.contains(#[trigger] cur[i]),
    ensures
        count_total(cur, ks, n, ks.len() as int) == n,
    decreases n,
{
    if n == 0 {
        lemma_count_total_zero(cur, ks, ks.len() as int);
    } else {
        lemma_count_total_all(cur, ks, n - 1);
        lemma_count_total_step(cur, ks, n, ks.len() as int);
        assert(ks.take(ks.len() as int) =~= ks);
        assert(ks.contains(cur[n - 1]));
    }
}

proof fn lemma_count_total_zero(cur: Seq<i32>, ks: Seq<i32>, m: int)
    requires
        0 <= m,
    ensures
        count_total(cur, ks, 0, m) == 0,
    decreases m,
{
    if m > 0 {
        lemma_count_total_zero(cur, ks, m - 1);
    }
}

proof fn lemma_sizes_are_counts(s: Map<i32, u32>, cur: Seq<i32>, ks: Seq<i32>, n: int, m: int)
    requires
        0 <= m <= ks.len(),
        forall|j: int| 0 <= j < m ==> s[#[trigger] ks[j]] == id_count(cur, ks[j], n),
    ensures
        size_total(s, ks, m) == count_total(cur, ks, n, m),
    decreases m,
{
    if m > 0 {
        lemma_sizes_are_counts(s, cur, ks, n, m - 1);
    }
}

/// Sizes that count the tiles of each area, with every tile's area listed, add up to
/// the number of tiles, whatever order the areas are listed in.
proof fn lemma_total_is_tiles(s: Map<i32, u32>, cur: Seq<i32>, ks: Seq<i32>)
    requires
        ks.no_duplicates(),
        forall|k: i32| #[trigger] ks.contains(k) <==> s.contains_key(k),
        forall|k: i32| #[trigger] s.contains_key(k) ==> s[k] == id_count(cur, k, cur.len() as int),
        forall|i: int| 0 <= i < cur.len() ==> s.contains_key(#[trigger] cur[i]),
    ensures
        size_total(s, ks, ks.len() as int) == cur.len(),
{
    assert forall|j: int| 0 <= j < ks.len() implies s[#[trigger] ks[j]] == id_count(cur, ks[j], cur.len() as int) by {
        assert(ks.contains(ks[j]));
    }
    lemma_sizes_are_counts(s, cur, ks, cur.len() as int, ks.len() as int);
    assert forall|i: int| 0 <= i < cur.len() implies ks.contains(#[trigger] cur[i]) by {
        assert(s.contains_key(cur[i]));
    }
    lemma_count_total_all(cur, ks, cur.len() as int);
}

/// Merging the small areas keeps the total size: when the sizes count the tiles of
/// each area and every tile's area is listed, the sizes add up to the number of
/// tiles before merging and again after it (each listed once, in any order).
pub proof fn law_merging_keeps_the_total(
    sizes: Map<i32, u32>,
    order: Seq<i32>,
    ids: Seq<i32>,
    water: Seq<bool>,
    ents: Seq<u64>,
    adj: Seq<Vec<usize>>,
    keys_before: Seq<i32>,
    keys_after: Seq<i32>,
)
    requires
        ids.len() <= u32::MAX,
        forall|i: int, j: int| 0 <= i < j < order.len() ==> order[i] < order[j],
        forall|k: i32| #[trigger] order.contains(k) ==> sizes.contains_key(k) && sizes[k] < MIN_AREA_SIZE,
        forall|k: i32| #[trigger] sizes.contains_key(k) ==> sizes[k] == id_count(ids, k, ids.len() as int),
        forall|i: int| 0 <= i < ids.len() ==> sizes.contains_key(#[trigger] ids[i]),
        keys_before.no_duplicates(),
        forall|k: i32| #[trigger] keys_before.contains(k) <==> sizes.contains_key(k),
        keys_after.no_duplicates(),
        forall|k: i32|
            #[trigger] keys_after.contains(k) <==> merge_areas((sizes, ids), order, ids, water, ents, adj).0.contains_key(k),
    ensures
        size_total(sizes, keys_before, keys_before.len() as int) == ids.len(),
        size_total(
            merge_areas((sizes, ids), order, ids, water, ents, adj).0,
            keys_after,
            keys_after.len() as int,
        ) == ids.len(),
{
    lemma_total_is_tiles(sizes, ids, keys_before);
    law_merged_sizes_count_tiles(sizes, order, ids, water, ents, adj);
    let r = merge_areas((sizes, ids), order, ids, water, ents, adj);
    lemma_total_is_tiles(r.0, r.1, keys_after);
}

proof fn lemma_best_on_border(
    sizes: Map<i32, u32>,
    cur: Seq<i32>,
    ids: Seq<i32>,
    water: Seq<bool>,
    ents: Seq<u64>,
    adj: Seq<Vec<usize>>,
    a: i32,
    b: int,
)
    requires
        best_border(sizes, cur, ids, water, ents, adj, a, b),
    ensures
        on_border(ids, water, adj, a, b),
{
    reveal(best_border);
}

/// One area looked at: either nothing changes, or some tile `b` borders the area and
/// is of its kind (water or land, as the area's first tile), the area that `b` is in
/// now has at least [`MIN_AREA_SIZE`] tiles, the area's size is dropped, that area
/// grows by the area's tiles, and they take its id.
pub proof fn law_merge_goes_to_a_large_neighbor(
    st: (Map<i32, u32>, Seq<i32>),
    a: i32,
    ids: Seq<i32>,
    water: Seq<bool>,
    ents: Seq<u64>,
    adj: Seq<Vec<usize>>,
)
    ensures
        merge_area(st, a, ids, water, ents, adj) == st || exists|b: int|
            {
                let t = st.1[b];
                &&& #[trigger] on_border(ids, water, adj, a, b)
                &&& st.0[t] >= MIN_AREA_SIZE
                &&& merge_area(st, a, ids, water, ents, adj) == (
                    if st.0.remove(a).contains_key(t) {
                        st.0.remove(a).insert(t, (st.0.remove(a)[t] + id_count(ids, a, ids.len() as int)) as u32)
                    } else {
                        st.0.remove(a)
                    },
                    retagged(st.1, ids, a, t),
                )
            },
{
    if exists|b: int| best_border(st.0, st.1, ids, water, ents, adj, a, b) {
        let b = choose|b: int| best_border(st.0, st.1, ids, water, ents, adj, a, b);
        lemma_best_on_border(st.0, st.1, ids, water, ents, adj, a, b);
        let t = st.1[b];
        if st.0[t] >= MIN_AREA_SIZE {
            assert(Seq::new(st.1.len(), |i: int| if ids[i] == a { t } else { st.1[i] }) == retagged(st.1, ids, a, t));
        }
    }
}

} // verus!
