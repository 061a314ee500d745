//! Areas of the map: maximal groups of connected tiles of the same kind
//! (water, land, mountains), each with its own id and size.
//!
//! The map is given by its adjacency lists: `adj[t]` lists the tiles next to tile `t`.

use crate::hex::MapParameters;
use crate::neighbors::{law_neighbors_symmetric, wrap_aligned};
use crate::terrain::TerrainType;
use crate::tile_query::{TileQuery, TileQueryItem};
use std::collections::BTreeMap;
use vstd::prelude::*;

verus! {

/// The size of every area, by area id.
pub struct AreaIdAndSize(pub BTreeMap<i32, u32>);

/// Every listed neighbor is a tile of the map.
pub open spec fn adj_ok(adj: Seq<Vec<usize>>, n: int) -> bool {
    &&& adj.len() == n
    &&& forall|u: int, k: int|
        0 <= u < n && 0 <= k < adj[u].len() ==> (#[trigger] adj[u]@[k]) < n
}

/// Tile `v` is listed as a neighbor of tile `u`.
pub open spec fn adjacent(adj: Seq<Vec<usize>>, u: int, v: int) -> bool {
    exists|k: int| 0 <= k < adj[u].len() && (#[trigger] adj[u]@[k]) == v
}

/// Being neighbors goes both ways.
pub open spec fn adj_symmetric(adj: Seq<Vec<usize>>, n: int) -> bool {
    forall|u: int, v: int| 0 <= u < n && 0 <= v < n && #[trigger] adjacent(adj, u, v) ==> adjacent(adj, v, u)
}

/// `p` walks from neighbor to neighbor through tiles of the mask.
pub open spec fn is_path(p: Seq<int>, mask: Seq<bool>, adj: Seq<Vec<usize>>) -> bool {
    &&& p.len() >= 1
    &&& forall|j: int| 0 <= j < p.len() ==> 0 <= #[trigger] p[j] < mask.len() && mask[p[j]]
    &&& forall|j: int| 0 <= j < p.len() - 1 ==> adjacent(adj, #[trigger] p[j], p[j + 1])
}

/// Tiles `u` and `v` are joined by a walk through tiles of the mask.
pub open spec fn connected(mask: Seq<bool>, adj: Seq<Vec<usize>>, u: int, v: int) -> bool {
    exists|p: Seq<int>| #[trigger] is_path(p, mask, adj) && p[0] == u && p.last() == v
}

/// The tiles of the mask that carry id `k`.
pub open spec fn members(mask: Seq<bool>, ids: Seq<i32>, k: int) -> Set<int> {
    Set::new(|i: int| 0 <= i < mask.len() && mask[i] && ids[i] == k)
}

/// The largest id in a non-empty list.
pub open spec fn max_id(s: Seq<i32>) -> int
    decreases s.len(),
{
    if s.len() <= 1 {
        if s.len() == 1 {
            s[0] as int
        } else {
            0
        }
    } else {
        let m = max_id(s.drop_last());
        if s.last() > m {
            s.last() as int
        } else {
            m
        }
    }
}

/// Tile `r` of the mask carries id `k`, and every tile of the mask with id `k` is reached
/// from it.
pub open spec fn area_root(mask: Seq<bool>, adj: Seq<Vec<usize>>, ids: Seq<i32>, k: int, r: int) -> bool {
    &&& 0 <= r < mask.len()
    &&& mask[r]
    &&& ids[r] == k
    &&& forall|i: int| 0 <= i < mask.len() && mask[i] && ids[i] == k ==> connected(mask, adj, r, i)
}

/// Some tile is the root of id `k`.
pub open spec fn has_root(mask: Seq<bool>, adj: Seq<Vec<usize>>, ids: Seq<i32>, k: int) -> bool {
    exists|r: int| #[trigger] area_root(mask, adj, ids, k, r)
}

/// The result of numbering the areas of the mask, starting at `start` and ending before `next`,
/// over the ids `before` and the sizes `sizes_before`: each new id is the area reached from
/// one tile, and a tile's id is never below that of a tile listed next to it, so where
/// being neighbors goes both ways the areas are exactly the groups of tiles joined by
/// neighbors.
pub open spec fn numbered(
    mask: Seq<bool>,
    adj: Seq<Vec<usize>>,
    before: Seq<i32>,
    after: Seq<i32>,
    sizes_before: Map<i32, u32>,
    sizes_after: Map<i32, u32>,
    start: int,
    next: int,
) -> bool {
    let n = mask.len();
    &&& start <= next <= start + n
    &&& after.len() == n
    &&& forall|i: int| 0 <= i < n && !mask[i] ==> #[trigger] after[i] == before[i]
    &&& forall|i: int| 0 <= i < n && mask[i] ==> start <= #[trigger] after[i] < next
    &&& forall|u: int, v: int|
        0 <= u < n && 0 <= v < n && mask[u] && mask[v] && #[trigger] adjacent(adj, u, v)
            ==> after[v] <= after[u]
    &&& forall|k: int| start <= k < next ==> #[trigger] has_root(mask, adj, after, k)
    &&& adj_symmetric(adj, n as int) ==> forall|u: int, v: int|
        0 <= u < n && 0 <= v < n && mask[u] && mask[v] && #[trigger] adjacent(adj, u, v)
            ==> after[u] == after[v]
    &&& adj_symmetric(adj, n as int) ==> forall|u: int, v: int|
        0 <= u < n && 0 <= v < n && mask[u] && mask[v] && #[trigger] after[u] == #[trigger] after[v]
            ==> connected(mask, adj, u, v)
    &&& forall|k: i32|
        start <= k < next ==> (#[trigger] sizes_after.contains_key(k)) && sizes_after[k] == members(
            mask,
            after,
            k as int,
        ).len() && members(mask, after, k as int).len() > 0
    &&& forall|k: i32|
        !(start <= k < next) ==> (#[trigger] sizes_after.contains_key(k)
            == sizes_before.contains_key(k) && (sizes_before.contains_key(k) ==> sizes_after[k]
            == sizes_before[k]))
}

/// The largest id of a non-empty list.
fn max_of(ids: &Vec<i32>) -> (r: i32)
    requires
        ids.len() > 0,
    ensures
        r == max_id(ids@),
        forall|i: int| 0 <= i < ids.len() ==> ids@[i] <= r,
{
    let mut m = ids[0];
    let mut i: usize = 1;
    assert(ids@.take(1).drop_last() =~= Seq::<i32>::empty());
    assert(max_id(ids@.take(1)) == ids@[0]);
    while i < ids.len()
        invariant
            1 <= i <= ids.len(),
            m == max_id(ids@.take(i as int)),
            forall|j: int| 0 <= j < i ==> ids@[j] <= m,
        decreases ids.len() - i,
    {
        assert(ids@.take(i + 1).drop_last() =~= ids@.take(i as int));
        if ids[i] > m {
            m = ids[i];
        }
        i = i + 1;
    }
    assert(ids@.take(ids.len() as int) =~= ids@);
    m
}

proof fn lemma_path_extend(p: Seq<int>, mask: Seq<bool>, adj: Seq<Vec<usize>>, v: int)
    requires
        is_path(p, mask, adj),
        0 <= v < mask.len(),
        mask[v],
        adjacent(adj, p.last(), v),
    ensures
        is_path(p.push(v), mask, adj),
        p.push(v)[0] == p[0],
        p.push(v).last() == v,
{
    let q = p.push(v);
    assert forall|j: int| 0 <= j < q.len() - 1 implies adjacent(adj, #[trigger] q[j], q[j + 1]) by {
        if j < p.len() - 1 {
            assert(q[j] == p[j] && q[j + 1] == p[j + 1]);
        } else {
            assert(q[j] == p.last());
        }
    }
}

proof fn lemma_path_reverse(p: Seq<int>, mask: Seq<bool>, adj: Seq<Vec<usize>>)
    requires
        is_path(p, mask, adj),
        adj_symmetric(adj, mask.len() as int),
    ensures
        is_path(p.reverse(), mask, adj),
        p.reverse()[0] == p.last(),
        p.reverse().last() == p[0],
{
    let q = p.reverse();
    assert forall|j: int| 0 <= j < q.len() implies 0 <= #[trigger] q[j] < mask.len() && mask[q[j]] by {
        assert(q[j] == p[p.len() - 1 - j]);
    }
    assert forall|j: int| 0 <= j < q.len() - 1 implies adjacent(adj, #[trigger] q[j], q[j + 1]) by {
        let a = p.len() - 2 - j;
        assert(q[j] == p[a + 1]);
        assert(q[j + 1] == p[a]);
        assert(adjacent(adj, p[a], p[a + 1]));
    }
}

proof fn lemma_path_concat(p: Seq<int>, q: Seq<int>, mask: Seq<bool>, adj: Seq<Vec<usize>>)
    requires
        is_path(p, mask, adj),
        is_path(q, mask, adj),
        p.last() == q[0],
    ensures
        is_path(p + q.drop_first(), mask, adj),
        (p + q.drop_first())[0] == p[0],
        (p + q.drop_first()).last() == q.last(),
{
    let r = p + q.drop_first();
    assert forall|j: int| 0 <= j < r.len() implies 0 <= #[trigger] r[j] < mask.len() && mask[r[j]] by {
        if j >= p.len() {
            assert(r[j] == q[j - p.len() + 1]);
        }
    }
    assert forall|j: int| 0 <= j < r.len() - 1 implies adjacent(adj, #[trigger] r[j], r[j + 1]) by {
        if j < p.len() - 1 {
            assert(r[j] == p[j] && r[j + 1] == p[j + 1]);
        } else if j == p.len() - 1 {
            assert(r[j] == q[0] && r[j + 1] == q[1]);
        } else {
            assert(r[j] == q[j - p.len() + 1] && r[j + 1] == q[j - p.len() + 2]);
        }
    }
    if q.len() == 1 {
        assert(r =~= p);
    } else {
        assert(r.last() == q.last());
    }
}

/// Two tiles reached from the same seed are joined by a walk.
proof fn lemma_connected_via(mask: Seq<bool>, adj: Seq<Vec<usize>>, s: int, u: int, v: int)
    requires
        connected(mask, adj, s, u),
        connected(mask, adj, s, v),
        adj_symmetric(adj, mask.len() as int),
    ensures
        connected(mask, adj, u, v),
{
    let p = choose|p: Seq<int>| #[trigger] is_path(p, mask, adj) && p[0] == s && p.last() == u;
    let q = choose|q: Seq<int>| #[trigger] is_path(q, mask, adj) && q[0] == s && q.last() == v;
    lemma_path_reverse(p, mask, adj);
    lemma_path_concat(p.reverse(), q, mask, adj);
    let r = p.reverse() + q.drop_first();
    assert(is_path(r, mask, adj) && r[0] == u && r.last() == v);
}


/// A list of distinct tiles of a map of `n` tiles has at most `n` entries.
proof fn lemma_unique_bounded(q: Seq<int>, n: int)
    requires
        q.no_duplicates(),
        n >= 0,
        forall|j: int| 0 <= j < q.len() ==> 0 <= #[trigger] q[j] < n,
    ensures
        q.len() <= n,
{
    let range = vstd::set_lib::set_int_range(0, n);
    vstd::set_lib::lemma_int_range(0, n);
    assert(q.to_set().subset_of(range)) by {
        assert forall|x: int| q.to_set().contains(x) implies range.contains(x) by {
            let j = choose|j: int| 0 <= j < q.len() && q[j] == x;
        }
    }
    vstd::set_lib::lemma_len_subset(q.to_set(), range);
    q.unique_seq_to_set();
}

/// A set of tiles that holds the start of a walk through the mask, and with each tile
/// every neighbor in the mask, holds the whole walk.
proof fn lemma_path_stays(p: Seq<int>, mask: Seq<bool>, adj: Seq<Vec<usize>>, m: Set<int>)
    requires
        is_path(p, mask, adj),
        m.contains(p[0]),
        forall|u: int, v: int|
            m.contains(u) && 0 <= v < mask.len() && mask[v] && #[trigger] adjacent(adj, u, v)
                ==> m.contains(v),
    ensures
        forall|j: int| 0 <= j < p.len() ==> m.contains(#[trigger] p[j]),
    decreases p.len(),
{
    if p.len() > 1 {
        let q = p.drop_last();
        assert(is_path(q, mask, adj)) by {
            assert forall|j: int| 0 <= j < q.len() - 1 implies adjacent(adj, #[trigger] q[j], q[j + 1]) by {
                assert(q[j] == p[j] && q[j + 1] == p[j + 1]);
            }
        }
        lemma_path_stays(q, mask, adj, m);
        assert forall|j: int| 0 <= j < p.len() implies m.contains(#[trigger] p[j]) by {
            if j < p.len() - 1 {
                assert(p[j] == q[j]);
            } else {
                assert(m.contains(q[j - 1]));
                assert(adjacent(adj, p[j - 1], p[j]));
            }
        }
    }
}

/// The tiles of the mask that are already numbered (no longer remaining) and carry id `k`.
pub open spec fn done_members(mask: Seq<bool>, remaining: Seq<bool>, ids: Seq<i32>, k: i32) -> Set<int> {
    Set::new(|i: int| 0 <= i < mask.len() && mask[i] && !remaining[i] && ids[i] == k)
}

/// Every tile of the mask that is done has only done tiles of the mask next to it.
pub open spec fn done_closed(mask: Seq<bool>, remaining: Seq<bool>, adj: Seq<Vec<usize>>) -> bool {
    forall|u: int, v: int|
        0 <= u < mask.len() && 0 <= v < mask.len() && mask[u] && !remaining[u] && mask[v]
            && #[trigger] adjacent(adj, u, v) ==> !remaining[v]
}

/// The tiles that are remaining in `before` and no longer in `after`.
pub open spec fn newly_done(before: Seq<bool>, after: Seq<bool>) -> Set<int> {
    Set::new(|i: int| 0 <= i < before.len() && before[i] && !after[i])
}

/// Marks with id `cur` every remaining tile of the mask reached from tile `s`, and
/// gives back how many it marked.
fn flood_fill(
    s: usize,
    cur: i32,
    in_area: &Vec<bool>,
    adj: &Vec<Vec<usize>>,
    remaining: &mut Vec<bool>,
    pending: &mut Vec<i32>,
) -> (count: usize)
    requires
        old(remaining).len() == in_area.len(),
        old(pending).len() == in_area.len(),
        adj_ok(adj@, in_area.len() as int),
        s < in_area.len(),
        old(remaining)@[s as int],
        forall|i: int| 0 <= i < in_area.len() && old(remaining)@[i] ==> in_area@[i],
        done_closed(in_area@, old(remaining)@, adj@),
    ensures
        final(remaining).len() == in_area.len(),
        final(pending).len() == in_area.len(),
        forall|i: int|
            0 <= i < in_area.len() ==> final(remaining)@[i] == (old(remaining)@[i] && !connected(
                in_area@,
                adj@,
                s as int,
                i,
            )),
        forall|i: int|
            0 <= i < in_area.len() ==> final(pending)@[i] == if old(remaining)@[i] && connected(
                in_area@,
                adj@,
                s as int,
                i,
            ) {
                cur
            } else {
                old(pending)@[i]
            },
        count == newly_done(old(remaining)@, final(remaining)@).len(),
        1 <= count <= in_area.len(),
{
    let n = in_area.len();
    let ghost mask = in_area@;
    let ghost rem0 = remaining@;
    let ghost pend0 = pending@;
    remaining.set(s, false);
    pending.set(s, cur);
    let mut queue: Vec<usize> = Vec::new();
    queue.push(s);
    proof {
        let qi = queue@.map_values(|x: usize| x as int);
        assert(qi =~= seq![s as int]);
        assert forall|i: int| 0 <= i < n implies qi.contains(i) == (i == s as int) by {
            if i == s as int {
                assert(qi[0] == i);
            }
        }
        assert(is_path(seq![s as int], mask, adj@));
        assert(connected(mask, adj@, s as int, s as int));
    }
    let mut head: usize = 0;
    while head < queue.len()
        invariant
            n == in_area.len(),
            mask == in_area@,
            rem0.len() == n,
            pend0.len() == n,
            remaining.len() == n,
            pending.len() == n,
            adj_ok(adj@, n as int),
            s < n,
            rem0[s as int],
            forall|i: int| 0 <= i < n && rem0[i] ==> mask[i],
            done_closed(mask, rem0, adj@),
            0 <= head <= queue.len(),
            queue.len() <= n,
            queue.len() >= 1,
            queue@[0] == s,
            forall|j: int| 0 <= j < queue.len() ==> (#[trigger] queue@[j]) < n,
            queue@.map_values(|x: usize| x as int).no_duplicates(),
            forall|i: int|
                0 <= i < n ==> remaining@[i] == (rem0[i] && !queue@.map_values(
                    |x: usize| x as int,
                ).contains(i)),
            forall|i: int|
                0 <= i < n ==> pending@[i] == if queue@.map_values(|x: usize| x as int).contains(
                    i,
                ) {
                    cur
                } else {
                    pend0[i]
                },
            forall|j: int|
                0 <= j < queue.len() ==> rem0[#[trigger] queue@[j] as int] && connected(
                    mask,
                    adj@,
                    s as int,
                    queue@[j] as int,
                ),
            forall|j: int, v: int|
                0 <= j < head && 0 <= v < n && mask[v] && #[trigger] adjacent(
                    adj@,
                    queue@[j] as int,
                    v,
                ) ==> queue@.map_values(|x: usize| x as int).contains(v) || !rem0[v],
        decreases n - head,
    {
        let u = queue[head];
        let nb = &adj[u];
        let mut k: usize = 0;
        while k < nb.len()
            invariant
                n == in_area.len(),
                mask == in_area@,
                rem0.len() == n,
                pend0.len() == n,
                remaining.len() == n,
                pending.len() == n,
                adj_ok(adj@, n as int),
                s < n,
                rem0[s as int],
                forall|i: int| 0 <= i < n && rem0[i] ==> mask[i],
                done_closed(mask, rem0, adj@),
                0 <= head < queue.len(),
                queue.len() <= n,
                queue@[0] == s,
                u == queue@[head as int],
                nb@ == adj@[u as int]@,
                0 <= k <= nb.len(),
                forall|j: int| 0 <= j < queue.len() ==> (#[trigger] queue@[j]) < n,
                queue@.map_values(|x: usize| x as int).no_duplicates(),
                forall|i: int|
                    0 <= i < n ==> remaining@[i] == (rem0[i] && !queue@.map_values(
                        |x: usize| x as int,
                    ).contains(i)),
                forall|i: int|
                    0 <= i < n ==> pending@[i] == if queue@.map_values(
                        |x: usize| x as int,
                    ).contains(i) {
                        cur
                    } else {
                        pend0[i]
                    },
                forall|j: int|
                    0 <= j < queue.len() ==> rem0[#[trigger] queue@[j] as int] && connected(
                        mask,
                        adj@,
                        s as int,
                        queue@[j] as int,
                    ),
                forall|j: int, v: int|
                    0 <= j < head && 0 <= v < n && mask[v] && #[trigger] adjacent(
                        adj@,
                        queue@[j] as int,
                        v,
                    ) ==> queue@.map_values(|x: usize| x as int).contains(v) || !rem0[v],
                forall|j: int|
                    0 <= j < k && mask[#[trigger] nb@[j] as int] ==> queue@.map_values(
                        |x: usize| x as int,
                    ).contains(nb@[j] as int) || !rem0[nb@[j] as int],
            decreases nb.len() - k,
        {
            let v = nb[k];
            proof {
                assert(adj@[u as int]@[k as int] == v);
                assert(v < n);
                assert(adjacent(adj@, u as int, v as int));
            }
            if remaining[v] {
                let ghost q_b = queue@;
                proof {
                    let p = choose|p: Seq<int>|
                        #[trigger] is_path(p, mask, adj@) && p[0] == s as int && p.last() == u as int;
                    lemma_path_extend(p, mask, adj@, v as int);
                    assert(connected(mask, adj@, s as int, v as int));
                }
                remaining.set(v, false);
                pending.set(v, cur);
                queue.push(v);
                proof {
                    let qi = queue@.map_values(|x: usize| x as int);
                    let qbi = q_b.map_values(|x: usize| x as int);
                    assert(qi =~= qbi.push(v as int));
                    assert forall|a: int, b: int|
                        0 <= a < qi.len() && 0 <= b < qi.len() && a != b implies qi[a] != qi[b] by {
                        if a < qbi.len() && b < qbi.len() {
                        } else if a == qbi.len() {
                            assert(qi[b] == qbi[b]);
                        } else {
                            assert(qi[a] == qbi[a]);
                        }
                    }
                    assert forall|j: int| 0 <= j < qi.len() implies 0 <= #[trigger] qi[j] < n by {
                        assert(qi[j] == queue@[j] as int);
                    }
                    lemma_unique_bounded(qi, n as int);
                    assert forall|i: int| 0 <= i < n implies qi.contains(i) == (qbi.contains(i) || i
                        == v as int) by {
                        if qi.contains(i) {
                            let j = choose|j: int| 0 <= j < qi.len() && qi[j] == i;
                            if j < qbi.len() {
                                assert(qbi[j] == i);
                            }
                        }
                        if qbi.contains(i) {
                            let j = choose|j: int| 0 <= j < qbi.len() && qbi[j] == i;
                            assert(qi[j] == i);
                        }
                        if i == v as int {
                            assert(qi[qi.len() - 1] == i);
                        }
                    }
                    assert forall|j: int| 0 <= j < queue.len() implies rem0[#[trigger] queue@[j] as int]
                        && connected(mask, adj@, s as int, queue@[j] as int) by {
                        if j < q_b.len() {
                            assert(queue@[j] == q_b[j]);
                        }
                    }
                    assert forall|j: int, w: int|
                        0 <= j < head && 0 <= w < n && mask[w] && #[trigger] adjacent(
                            adj@,
                            queue@[j] as int,
                            w,
                        ) implies qi.contains(w) || !rem0[w] by {
                        assert(queue@[j] == q_b[j]);
                        assert(qbi.contains(w) || !rem0[w]);
                    }
                    assert forall|j: int|
                        0 <= j < k + 1 && mask[#[trigger] nb@[j] as int] implies qi.contains(
                            nb@[j] as int,
                        ) || !rem0[nb@[j] as int] by {
                        if j < k {
                            assert(adj@[u as int]@[j] == nb@[j]);
                            assert(qbi.contains(nb@[j] as int) || !rem0[nb@[j] as int]);
                        }
                    }
                }
            }
            k = k + 1;
        }
        proof {
            assert forall|j: int, v: int|
                0 <= j < head + 1 && 0 <= v < n && mask[v] && #[trigger] adjacent(
                    adj@,
                    queue@[j] as int,
                    v,
                ) implies queue@.map_values(|x: usize| x as int).contains(v) || !rem0[v] by {
                if j == head {
                    let kk = choose|kk: int|
                        0 <= kk < adj@[u as int].len() && (#[trigger] adj@[u as int]@[kk]) == v;
                    assert(nb@[kk] == v);
                }
            }
        }
        head = head + 1;
    }
    proof {
        let qi = queue@.map_values(|x: usize| x as int);
        let m = qi.to_set().union(Set::new(|t: int| 0 <= t < n && mask[t] && !rem0[t]));
        assert forall|uu: int, v: int|
            m.contains(uu) && 0 <= v < mask.len() && mask[v] && #[trigger] adjacent(adj@, uu, v) implies m.contains(v) by {
            if qi.contains(uu) {
                let j = choose|j: int| 0 <= j < qi.len() && qi[j] == uu;
                assert(queue@[j] as int == uu);
            }
        }
        assert forall|i: int| 0 <= i < n implies (rem0[i] && connected(mask, adj@, s as int, i))
            == qi.contains(i) by {
            if rem0[i] && connected(mask, adj@, s as int, i) {
                let p = choose|p: Seq<int>|
                    #[trigger] is_path(p, mask, adj@) && p[0] == s as int && p.last() == i;
                assert(qi[0] == s as int);
                lemma_path_stays(p, mask, adj@, m);
                assert(m.contains(p[p.len() - 1]));
            }
            if qi.contains(i) {
                let j = choose|j: int| 0 <= j < qi.len() && qi[j] == i;
                assert(queue@[j] as int == i);
            }
        }
        assert(newly_done(rem0, remaining@) =~= qi.to_set());
        qi.unique_seq_to_set();
    }
    queue.len()
}

/// The tile indices of a list, as integers.
pub open spec fn as_ints(q: Seq<usize>) -> Seq<int> {
    q.map_values(|x: usize| x as int)
}

/// Marks with id `cur` every remaining tile of the mask reached from tile `s`, going
/// deep first (the tiles still to look at are kept on a stack), and gives back how
/// many it marked. It marks the same tiles as [`flood_fill`].
fn flood_fill_deep(
    s: usize,
    cur: i32,
    in_area: &Vec<bool>,
    adj: &Vec<Vec<usize>>,
    remaining: &mut Vec<bool>,
    pending: &mut Vec<i32>,
) -> (count: usize)
    requires
        old(remaining).len() == in_area.len(),
        old(pending).len() == in_area.len(),
        adj_ok(adj@, in_area.len() as int),
        s < in_area.len(),
        old(remaining)@[s as int],
        forall|i: int| 0 <= i < in_area.len() && old(remaining)@[i] ==> in_area@[i],
        done_closed(in_area@, old(remaining)@, adj@),
    ensures
        final(remaining).len() == in_area.len(),
        final(pending).len() == in_area.len(),
        forall|i: int|
            0 <= i < in_area.len() ==> final(remaining)@[i] == (old(remaining)@[i] && !connected(
                in_area@,
                adj@,
                s as int,
                i,
            )),
        forall|i: int|
            0 <= i < in_area.len() ==> final(pending)@[i] == if old(remaining)@[i] && connected(
                in_area@,
                adj@,
                s as int,
                i,
            ) {
                cur
            } else {
                old(pending)@[i]
            },
        count == newly_done(old(remaining)@, final(remaining)@).len(),
        1 <= count <= in_area.len(),
{
    let n = in_area.len();
    let ghost mask = in_area@;
    let ghost rem0 = remaining@;
    let ghost pend0 = pending@;
    remaining.set(s, false);
    pending.set(s, cur);
    let mut visited: Vec<usize> = Vec::new();
    visited.push(s);
    let mut stack: Vec<usize> = Vec::new();
    stack.push(s);
    proof {
        let qi = as_ints(visited@);
        assert(qi =~= seq![s as int]);
        assert forall|i: int| 0 <= i < n implies qi.contains(i) == (i == s as int) by {
            if i == s as int {
                assert(qi[0] == i);
            }
        }
        assert(as_ints(stack@) =~= seq![s as int]);
        assert(is_path(seq![s as int], mask, adj@));
        assert(connected(mask, adj@, s as int, s as int));
    }
    while stack.len() > 0
        invariant
            n == in_area.len(),
            mask == in_area@,
            rem0.len() == n,
            pend0.len() == n,
            remaining.len() == n,
            pending.len() == n,
            adj_ok(adj@, n as int),
            s < n,
            rem0[s as int],
            forall|i: int| 0 <= i < n && rem0[i] ==> mask[i],
            done_closed(mask, rem0, adj@),
            visited.len() <= n,
            visited.len() >= 1,
            visited@[0] == s,
            forall|j: int| 0 <= j < visited.len() ==> (#[trigger] visited@[j]) < n,
            as_ints(visited@).no_duplicates(),
            as_ints(stack@).no_duplicates(),
            forall|j: int| 0 <= j < stack.len() ==> as_ints(visited@).contains(#[trigger] stack@[j] as int),
            forall|i: int|
                0 <= i < n ==> remaining@[i] == (rem0[i] && !as_ints(visited@).contains(i)),
            forall|i: int|
                0 <= i < n ==> pending@[i] == if as_ints(visited@).contains(i) {
                    cur
                } else {
                    pend0[i]
                },
            forall|j: int|
                0 <= j < visited.len() ==> rem0[#[trigger] visited@[j] as int] && connected(
                    mask,
                    adj@,
                    s as int,
                    visited@[j] as int,
                ),
            forall|j: int, v: int|
                0 <= j < visited.len() && !as_ints(stack@).contains(visited@[j] as int) && 0 <= v < n
                    && mask[v] && #[trigger] adjacent(adj@, visited@[j] as int, v) ==> as_ints(
                    visited@,
                ).contains(v) || !rem0[v],
        decreases n - visited.len(), stack.len(),
    {
        let ghost st_b = stack@;
        let u = stack.pop().unwrap();
        proof {
            assert(st_b =~= stack@.push(u));
            assert(as_ints(st_b) =~= as_ints(stack@).push(u as int));
            assert(!as_ints(stack@).contains(u as int)) by {
                if as_ints(stack@).contains(u as int) {
                    let w = choose|w: int| 0 <= w < stack.len() && as_ints(stack@)[w] == u as int;
                    assert(as_ints(st_b)[w] == as_ints(st_b)[st_b.len() - 1]);
                }
            }
            assert forall|a: int, b: int|
                0 <= a < stack.len() && 0 <= b < stack.len() && a != b implies as_ints(stack@)[a]
                != as_ints(stack@)[b] by {
                assert(as_ints(stack@)[a] == as_ints(st_b)[a]);
                assert(as_ints(stack@)[b] == as_ints(st_b)[b]);
            }
            assert(as_ints(visited@).contains(st_b[st_b.len() - 1] as int));
            assert(forall|j: int| 0 <= j < stack.len() ==> stack@[j] == st_b[j]);
        }
        let ghost vu = choose|j: int| 0 <= j < visited.len() && as_ints(visited@)[j] == u as int;
        assert(visited@[vu] == u);
        assert(u < n);
        let nb = &adj[u];
        let mut k: usize = 0;
        let ghost vis_start = visited.len();
        let ghost st_len = stack.len();
        assert(st_len + 1 == st_b.len());
        while k < nb.len()
            invariant
                n == in_area.len(),
                mask == in_area@,
                rem0.len() == n,
                pend0.len() == n,
                remaining.len() == n,
                pending.len() == n,
                adj_ok(adj@, n as int),
                s < n,
                rem0[s as int],
                forall|i: int| 0 <= i < n && rem0[i] ==> mask[i],
                done_closed(mask, rem0, adj@),
                u < n,
                as_ints(visited@).contains(u as int),
                !as_ints(stack@).contains(u as int),
                rem0[u as int],
                connected(mask, adj@, s as int, u as int),
                nb@ == adj@[u as int]@,
                0 <= k <= nb.len(),
                vis_start <= visited.len() <= n,
                visited.len() >= 1,
                visited@[0] == s,
                forall|j: int| 0 <= j < visited.len() ==> (#[trigger] visited@[j]) < n,
                as_ints(visited@).no_duplicates(),
                as_ints(stack@).no_duplicates(),
                forall|j: int| 0 <= j < stack.len() ==> as_ints(visited@).contains(#[trigger] stack@[j] as int),
                stack.len() + vis_start == st_len + visited.len(),
                forall|i: int|
                    0 <= i < n ==> remaining@[i] == (rem0[i] && !as_ints(visited@).contains(i)),
                forall|i: int|
                    0 <= i < n ==> pending@[i] == if as_ints(visited@).contains(i) {
                        cur
                    } else {
                        pend0[i]
                    },
                forall|j: int|
                    0 <= j < visited.len() ==> rem0[#[trigger] visited@[j] as int] && connected(
                        mask,
                        adj@,
                        s as int,
                        visited@[j] as int,
                    ),
                forall|j: int, v: int|
                    0 <= j < visited.len() && visited@[j] != u && !as_ints(stack@).contains(visited@[j] as int)
                        && 0 <= v < n && mask[v] && #[trigger] adjacent(adj@, visited@[j] as int, v)
                        ==> as_ints(visited@).contains(v) || !rem0[v],
                forall|j: int|
                    0 <= j < k && mask[#[trigger] nb@[j] as int] ==> as_ints(visited@).contains(nb@[j] as int) || !rem0[nb@[j] as int],
            decreases nb.len() - k,
        {
            let v = nb[k];
            proof {
                assert(adj@[u as int]@[k as int] == v);
                assert(v < n);
                assert(adjacent(adj@, u as int, v as int));
            }
            if remaining[v] {
                let ghost v_b = visited@;
                let ghost s_b = stack@;
                proof {
                    let p = choose|p: Seq<int>|
                        #[trigger] is_path(p, mask, adj@) && p[0] == s as int && p.last() == u as int;
                    lemma_path_extend(p, mask, adj@, v as int);
                    assert(connected(mask, adj@, s as int, v as int));
                }
                remaining.set(v, false);
                pending.set(v, cur);
                visited.push(v);
                stack.push(v);
                proof {
                    let qi = as_ints(visited@);
                    let qbi = as_ints(v_b);
                    assert(qi =~= qbi.push(v as int));
                    assert(as_ints(stack@) =~= as_ints(s_b).push(v as int));
                    assert(!qbi.contains(v as int));
                    assert forall|a: int, b: int|
                        0 <= a < qi.len() && 0 <= b < qi.len() && a != b implies qi[a] != qi[b] by {
                        if a < qbi.len() && b < qbi.len() {
                        } else if a == qbi.len() {
                            assert(qi[b] == qbi[b]);
                        } else {
                            assert(qi[a] == qbi[a]);
                        }
                    }
                    assert(!as_ints(s_b).contains(v as int)) by {
                        if as_ints(s_b).contains(v as int) {
                            let w = choose|w: int| 0 <= w < s_b.len() && as_ints(s_b)[w] == v as int;
                            assert(qbi.contains(s_b[w] as int));
                        }
                    }
                    let si = as_ints(stack@);
                    let sbi = as_ints(s_b);
                    assert forall|a: int, b: int|
                        0 <= a < si.len() && 0 <= b < si.len() && a != b implies si[a] != si[b] by {
                        if a < sbi.len() && b < sbi.len() {
                        } else if a == sbi.len() {
                            assert(si[b] == sbi[b]);
                        } else {
                            assert(si[a] == sbi[a]);
                        }
                    }
                    assert forall|j: int| 0 <= j < qi.len() implies 0 <= #[trigger] qi[j] < n by {
                        assert(qi[j] == visited@[j] as int);
                    }
                    lemma_unique_bounded(qi, n as int);
                    assert forall|i: int| 0 <= i < n implies qi.contains(i) == (qbi.contains(i) || i
                        == v as int) by {
                        if qi.contains(i) {
                            let j = choose|j: int| 0 <= j < qi.len() && qi[j] == i;
                            if j < qbi.len() {
                                assert(qbi[j] == i);
                            }
                        }
                        if qbi.contains(i) {
                            let j = choose|j: int| 0 <= j < qbi.len() && qbi[j] == i;
                            assert(qi[j] == i);
                        }
                        if i == v as int {
                            assert(qi[qi.len() - 1] == i);
                        }
                    }
                    assert forall|x: int| sbi.contains(x) implies si.contains(x) by {
                        let j = choose|j: int| 0 <= j < sbi.len() && sbi[j] == x;
                        assert(si[j] == x);
                    }
                    assert forall|x: int| si.contains(x) implies sbi.contains(x) || x == v as int by {
                        let j = choose|j: int| 0 <= j < si.len() && si[j] == x;
                        if j < sbi.len() {
                            assert(sbi[j] == x);
                        }
                    }
                    assert forall|j: int| 0 <= j < stack.len() implies qi.contains(#[trigger] stack@[j] as int) by {
                        if j < s_b.len() {
                            assert(stack@[j] == s_b[j]);
                            assert(qbi.contains(s_b[j] as int));
                        }
                    }
                    assert forall|j: int| 0 <= j < visited.len() implies rem0[#[trigger] visited@[j] as int]
                        && connected(mask, adj@, s as int, visited@[j] as int) by {
                        if j < v_b.len() {
                            assert(visited@[j] == v_b[j]);
                        }
                    }
                    assert forall|j: int, w: int|
                        0 <= j < visited.len() && visited@[j] != u && !si.contains(visited@[j] as int) && 0 <= w < n
                            && mask[w] && #[trigger] adjacent(adj@, visited@[j] as int, w) implies qi.contains(w) || !rem0[w] by {
                        if j < v_b.len() {
                            assert(visited@[j] == v_b[j]);
                            assert(!sbi.contains(v_b[j] as int));
                            assert(qbi.contains(w) || !rem0[w]);
                        } else {
                            assert(visited@[j] == v);
                            assert(si[si.len() - 1] == v as int);
                        }
                    }
                    assert forall|j: int|
                        0 <= j < k + 1 && mask[#[trigger] nb@[j] as int] implies qi.contains(nb@[j] as int) || !rem0[nb@[j] as int] by {
                        if j < k {
                            assert(adj@[u as int]@[j] == nb@[j]);
                            assert(qbi.contains(nb@[j] as int) || !rem0[nb@[j] as int]);
                        }
                    }
                }
            }
            k = k + 1;
        }
        proof {
            assert forall|j: int, v: int|
                0 <= j < visited.len() && !as_ints(stack@).contains(visited@[j] as int) && 0 <= v < n
                    && mask[v] && #[trigger] adjacent(adj@, visited@[j] as int, v) implies as_ints(
                    visited@,
                ).contains(v) || !rem0[v] by {
                if visited@[j] == u {
                    let kk = choose|kk: int|
                        0 <= kk < adj@[u as int].len() && (#[trigger] adj@[u as int]@[kk]) == v;
                    assert(nb@[kk] == v);
                }
            }
        }
    }
    proof {
        let qi = as_ints(visited@);
        let m = qi.to_set().union(Set::new(|t: int| 0 <= t < n && mask[t] && !rem0[t]));
        assert(as_ints(stack@) =~= Seq::<int>::empty());
        assert forall|uu: int, v: int|
            m.contains(uu) && 0 <= v < mask.len() && mask[v] && #[trigger] adjacent(adj@, uu, v) implies m.contains(v) by {
            if qi.contains(uu) {
                let j = choose|j: int| 0 <= j < qi.len() && qi[j] == uu;
                assert(visited@[j] as int == uu);
            }
        }
        assert forall|i: int| 0 <= i < n implies (rem0[i] && connected(mask, adj@, s as int, i))
            == qi.contains(i) by {
            if rem0[i] && connected(mask, adj@, s as int, i) {
                let p = choose|p: Seq<int>|
                    #[trigger] is_path(p, mask, adj@) && p[0] == s as int && p.last() == i;
                assert(qi[0] == s as int);
                lemma_path_stays(p, mask, adj@, m);
                assert(m.contains(p[p.len() - 1]));
            }
            if qi.contains(i) {
                let j = choose|j: int| 0 <= j < qi.len() && qi[j] == i;
                assert(visited@[j] as int == i);
            }
        }
        assert(newly_done(rem0, remaining@) =~= qi.to_set());
        qi.unique_seq_to_set();
    }
    visited.len()
}

/// Marks the area reached from tile `s` as [`flood_fill`] does, breadth first or depth first.
fn fill_area(
    depth_first: bool,
    s: usize,
    cur: i32,
    in_area: &Vec<bool>,
    adj: &Vec<Vec<usize>>,
    remaining: &mut Vec<bool>,
    pending: &mut Vec<i32>,
) -> (count: usize)
    requires
        old(remaining).len() == in_area.len(),
        old(pending).len() == in_area.len(),
        adj_ok(adj@, in_area.len() as int),
        s < in_area.len(),
        old(remaining)@[s as int],
        forall|i: int| 0 <= i < in_area.len() && old(remaining)@[i] ==> in_area@[i],
        done_closed(in_area@, old(remaining)@, adj@),
    ensures
        final(remaining).len() == in_area.len(),
        final(pending).len() == in_area.len(),
        forall|i: int|
            0 <= i < in_area.len() ==> final(remaining)@[i] == (old(remaining)@[i] && !connected(
                in_area@,
                adj@,
                s as int,
                i,
            )),
        forall|i: int|
            0 <= i < in_area.len() ==> final(pending)@[i] == if old(remaining)@[i] && connected(
                in_area@,
                adj@,
                s as int,
                i,
            ) {
                cur
            } else {
                old(pending)@[i]
            },
        count == newly_done(old(remaining)@, final(remaining)@).len(),
        1 <= count <= in_area.len(),
{
    if depth_first {
        flood_fill_deep(s, cur, in_area, adj, remaining, pending)
    } else {
        flood_fill(s, cur, in_area, adj, remaining, pending)
    }
}

/// `i32` keys are ordered as a `BTreeMap` needs.
pub(crate) proof fn lemma_i32_keys_ordered()
    ensures
        vstd::laws_cmp::obeys_cmp::<i32>(),
{
    broadcast use vstd::laws_cmp::group_laws_cmp;

}

/// Numbers the areas of the tiles in `in_area`, filling each area breadth first or
/// depth first.
fn number_areas(
    read_ids: &Vec<i32>,
    pending: &mut Vec<i32>,
    area_id_and_size: &mut AreaIdAndSize,
    in_area: &Vec<bool>,
    adj: &Vec<Vec<usize>>,
    depth_first: bool,
)
    requires
        in_area.len() > 0,
        read_ids.len() == in_area.len(),
        old(pending).len() == in_area.len(),
        adj_ok(adj@, in_area.len() as int),
        max_id(read_ids@) + in_area.len() < i32::MAX,
    ensures
        exists|next: int|
            #[trigger] numbered(
                in_area@,
                adj@,
                old(pending)@,
                final(pending)@,
                old(area_id_and_size).0@,
                final(area_id_and_size).0@,
                max_id(read_ids@) + 1,
                next,
            ),
{
    broadcast use vstd::std_specs::btree::group_btree_axioms;

    proof {
        lemma_i32_keys_ordered();
    }
    let n = in_area.len();
    let start = max_of(read_ids) + 1;
    let ghost pending0 = pending@;
    let mut sizes: BTreeMap<i32, u32> = BTreeMap::new();
    core::mem::swap(&mut sizes, &mut area_id_and_size.0);
    let ghost sizes0 = sizes@;
    let mut remaining: Vec<bool> = Vec::new();
    let mut c: usize = 0;
    while c < n
        invariant
            0 <= c <= n,
            n == in_area.len(),
            remaining@ == in_area@.take(c as int),
        decreases n - c,
    {
        remaining.push(in_area[c]);
        c = c + 1;
        assert(remaining@ =~= in_area@.take(c as int));
    }
    assert(remaining@ =~= in_area@);
    let mut cur: i32 = start;
    let mut seed_ptr: usize = 0;
    let ghost mut seeds: Seq<int> = Seq::empty();
    while seed_ptr < n
        invariant
            n == in_area.len(),
            pending0.len() == n,
            pending.len() == n,
            remaining.len() == n,
            adj_ok(adj@, n as int),
            start == max_id(read_ids@) + 1,
            start + n <= i32::MAX,
            0 <= seed_ptr <= n,
            start <= cur <= start + seed_ptr,
            seeds.len() == cur - start,
            forall|i: int| 0 <= i < n && remaining@[i] ==> in_area@[i],
            forall|i: int| 0 <= i < n && !in_area@[i] ==> pending@[i] == pending0[i],
            forall|i: int|
                0 <= i < n && in_area@[i] && !remaining@[i] ==> start <= #[trigger] pending@[i]
                    < cur,
            forall|i: int| 0 <= i < seed_ptr ==> !remaining@[i],
            done_closed(in_area@, remaining@, adj@),
            forall|u: int, v: int|
                0 <= u < n && 0 <= v < n && in_area@[u] && !remaining@[u] && in_area@[v]
                    && #[trigger] adjacent(adj@, u, v) ==> pending@[v] <= pending@[u],
            forall|i: int|
                0 <= i < n && in_area@[i] && !remaining@[i] ==> connected(
                    in_area@,
                    adj@,
                    seeds[pending@[i] - start],
                    i,
                ),
            forall|k: int|
                start <= k < cur ==> 0 <= #[trigger] seeds[k - start] < n && in_area@[seeds[k - start]]
                    && !remaining@[seeds[k - start]] && pending@[seeds[k - start]] == k,
            forall|k: i32|
                start <= k < cur ==> (#[trigger] sizes@.contains_key(k)) && sizes@[k]
                    == done_members(in_area@, remaining@, pending@, k).len() && done_members(
                    in_area@,
                    remaining@,
                    pending@,
                    k,
                ).len() > 0,
            forall|k: i32|
                !(start <= k < cur) ==> (#[trigger] sizes@.contains_key(k) == sizes0.contains_key(k)
                    && (sizes0.contains_key(k) ==> sizes@[k] == sizes0[k])),
        decreases n - seed_ptr,
    {
        if remaining[seed_ptr] {
            let s = seed_ptr;
            let ghost rem_b = remaining@;
            let ghost pend_b = pending@;
            let ghost sizes_b = sizes@;
            let count = fill_area(depth_first, s, cur, in_area, adj, &mut remaining, pending);
            proof {
                assert(is_path(seq![s as int], in_area@, adj@));
                assert(connected(in_area@, adj@, s as int, s as int));
                assert forall|k: i32| start <= k < cur implies #[trigger] done_members(
                    in_area@,
                    remaining@,
                    pending@,
                    k,
                ) == done_members(in_area@, rem_b, pend_b, k) by {
                    assert(done_members(in_area@, remaining@, pending@, k) =~= done_members(
                        in_area@,
                        rem_b,
                        pend_b,
                        k,
                    ));
                }
                assert(done_members(in_area@, remaining@, pending@, cur) =~= newly_done(
                    rem_b,
                    remaining@,
                ));
                assert(newly_done(rem_b, remaining@).contains(s as int));
            }
            sizes.insert(cur, count as u32);
            proof {
                assert(sizes@[cur] == done_members(in_area@, remaining@, pending@, cur).len());
                assert forall|k: i32| start <= k < cur + 1 implies (#[trigger] sizes@.contains_key(k))
                    && sizes@[k] == done_members(in_area@, remaining@, pending@, k).len()
                    && done_members(in_area@, remaining@, pending@, k).len() > 0 by {
                    if k < cur {
                        assert(sizes_b.contains_key(k));
                        assert(done_members(in_area@, remaining@, pending@, k) == done_members(
                            in_area@,
                            rem_b,
                            pend_b,
                            k,
                        ));
                    }
                }
                seeds = seeds.push(s as int);
                assert forall|u: int, v: int|
                    0 <= u < n && 0 <= v < n && in_area@[u] && !remaining@[u] && in_area@[v]
                        && #[trigger] adjacent(adj@, u, v) implies !remaining@[v] && pending@[v]
                        <= pending@[u] by {
                    if rem_b[u] {
                        let p = choose|p: Seq<int>|
                            #[trigger] is_path(p, in_area@, adj@) && p[0] == s as int && p.last() == u;
                        lemma_path_extend(p, in_area@, adj@, v);
                    } else {
                        assert(!rem_b[v]);
                    }
                }
                assert forall|i: int|
                    0 <= i < n && in_area@[i] && !remaining@[i] implies connected(
                    in_area@,
                    adj@,
                    seeds[pending@[i] - start],
                    i,
                ) by {
                    if rem_b[i] {
                        assert(seeds[cur - start] == s as int);
                    } else {
                        assert(seeds[pend_b[i] - start] == seeds.drop_last()[pend_b[i] - start]);
                    }
                }
                assert forall|k: int| start <= k < cur + 1 implies 0 <= #[trigger] seeds[k - start] < n
                    && in_area@[seeds[k - start]] && !remaining@[seeds[k - start]]
                    && pending@[seeds[k - start]] == k by {
                    if k < cur {
                        assert(seeds[k - start] == seeds.drop_last()[k - start]);
                    }
                }
            }
            cur = cur + 1;
        }
        seed_ptr = seed_ptr + 1;
    }
    core::mem::swap(&mut sizes, &mut area_id_and_size.0);
    proof {
        assert forall|k: i32| start <= k < cur implies #[trigger] done_members(
            in_area@,
            remaining@,
            pending@,
            k,
        ) == members(in_area@, pending@, k as int) by {
            assert(done_members(in_area@, remaining@, pending@, k) =~= members(
                in_area@,
                pending@,
                k as int,
            ));
        }
        assert forall|k: int| start <= k < cur implies #[trigger] has_root(in_area@, adj@, pending@, k) by {
            assert(area_root(in_area@, adj@, pending@, k, seeds[k - start]));
        }
        if adj_symmetric(adj@, n as int) {
            assert forall|u: int, v: int|
                0 <= u < n && 0 <= v < n && in_area@[u] && in_area@[v] && #[trigger] adjacent(adj@, u, v)
                    implies pending@[u] == pending@[v] by {
                assert(adjacent(adj@, v, u));
            }
            assert forall|u: int, v: int|
                0 <= u < n && 0 <= v < n && in_area@[u] && in_area@[v] && #[trigger] pending@[u]
                    == #[trigger] pending@[v] implies connected(in_area@, adj@, u, v) by {
                lemma_connected_via(in_area@, adj@, seeds[pending@[u] - start], u, v);
            }
        }
        assert(numbered(
            in_area@,
            adj@,
            pending0,
            pending@,
            sizes0,
            area_id_and_size.0@,
            start as int,
            cur as int,
        ));
    }
}

/// Numbers the areas of the tiles in `in_area`: going through the tiles in order, each
/// tile of the mask not numbered yet starts an area with a fresh id, counting up from one
/// more than the largest id in `read_ids`, and every tile of the mask not numbered yet
/// that is reached from it through listed neighbors joins that area; the size of each new
/// area is recorded. Where being neighbors goes both ways, the areas are exactly the
/// groups of tiles of the mask joined by neighbors. Tiles outside the mask keep their id.
/// Each area is filled breadth first.
///
/// `read_ids` are the ids as they stood when the pass began; `pending` receives the new ones.
pub fn bfs(
    read_ids: &Vec<i32>,
    pending: &mut Vec<i32>,
    area_id_and_size: &mut AreaIdAndSize,
    in_area: &Vec<bool>,
    adj: &Vec<Vec<usize>>,
)
    requires
        in_area.len() > 0,
        read_ids.len() == in_area.len(),
        old(pending).len() == in_area.len(),
        adj_ok(adj@, in_area.len() as int),
        max_id(read_ids@) + in_area.len() < i32::MAX,
    ensures
        exists|next: int|
            #[trigger] numbered(
                in_area@,
                adj@,
                old(pending)@,
                final(pending)@,
                old(area_id_and_size).0@,
                final(area_id_and_size).0@,
                max_id(read_ids@) + 1,
                next,
            ),
{
    number_areas(read_ids, pending, area_id_and_size, in_area, adj, false)
}

/// Numbers the areas as [`bfs`] does, filling each area depth first: the same tiles
/// share an id either way.
pub fn dfs(
    read_ids: &Vec<i32>,
    pending: &mut Vec<i32>,
    area_id_and_size: &mut AreaIdAndSize,
    in_area: &Vec<bool>,
    adj: &Vec<Vec<usize>>,
)
    requires
        in_area.len() > 0,
        read_ids.len() == in_area.len(),
        old(pending).len() == in_area.len(),
        adj_ok(adj@, in_area.len() as int),
        max_id(read_ids@) + in_area.len() < i32::MAX,
    ensures
        exists|next: int|
            #[trigger] numbered(
                in_area@,
                adj@,
                old(pending)@,
                final(pending)@,
                old(area_id_and_size).0@,
                final(area_id_and_size).0@,
                max_id(read_ids@) + 1,
                next,
            ),
{
    number_areas(read_ids, pending, area_id_and_size, in_area, adj, true)
}

/// Ids of tiles not numbered yet.
pub open spec fn unnumbered(n: nat) -> Seq<i32> {
    Seq::new(n, |i: int| -1i32)
}

/// The area ids of the tiles.
pub open spec fn area_ids(q: &TileQuery) -> Seq<i32> {
    Seq::new(q.tiles.len() as nat, |i: int| q.tiles@[i].area_id)
}

/// The tiles of the given terrain type (or, with `or_hill`, flatland and hills).
pub open spec fn terrain_mask(q: &TileQuery, t: TerrainType, or_hill: bool) -> Seq<bool> {
    Seq::new(
        q.tiles.len() as nat,
        |i: int| q.tiles@[i].terrain_type == t || (or_hill && q.tiles@[i].terrain_type == TerrainType::Hill),
    )
}

/// `adj` lists, for each tile, the tiles next to it on the map.
pub open spec fn lists_neighbors(adj: Seq<Vec<usize>>, mp: &MapParameters, q: &TileQuery) -> bool {
    &&& adj.len() == q.tiles.len()
    &&& forall|i: int|
        0 <= i < q.tiles.len() ==> (#[trigger] adj[i])@.map_values(|c: usize| c as int) == q.spec_neighbors(mp, i)
}

/// The neighbor lists of all tiles of the map.
pub(crate) fn tile_neighbor_lists(mp: &MapParameters, q: &TileQuery) -> (adj: Vec<Vec<usize>>)
    requires
        q.well_formed(mp),
    ensures
        lists_neighbors(adj@, mp, q),
        adj_ok(adj@, q.tiles.len() as int),
{
    let n = q.tiles.len();
    let mut adj: Vec<Vec<usize>> = Vec::new();
    let mut i: usize = 0;
    while i < n
        invariant
            q.well_formed(mp),
            n == q.tiles.len(),
            0 <= i <= n,
            adj.len() == i,
            forall|t: int|
                0 <= t < i ==> (#[trigger] adj@[t])@.map_values(|c: usize| c as int) == q.spec_neighbors(mp, t),
            forall|t: int, k: int| 0 <= t < i && 0 <= k < adj@[t].len() ==> (#[trigger] adj@[t]@[k]) < n,
        decreases n - i,
    {
        assert(q.tiles@[i as int].hex_position.small_pos());
        let ns = q.tiles[i].neighbor_indices(mp);
        adj.push(ns);
        i = i + 1;
    }
    adj
}

fn neighbor_lists(mp: &MapParameters, q: &TileQuery) -> (adj: Vec<Vec<usize>>)
    requires
        q.well_formed(mp),
    ensures
        lists_neighbors(adj@, mp, q),
        adj_ok(adj@, q.tiles.len() as int),
        wrap_aligned(mp) ==> adj_symmetric(adj@, q.tiles.len() as int),
{
    let n = q.tiles.len();
    let adj = tile_neighbor_lists(mp, q);
    proof {
        assert forall|u: int, v: int|
            wrap_aligned(mp) && 0 <= u < n && 0 <= v < n && #[trigger] adjacent(adj@, u, v) implies adjacent(adj@, v, u) by {
            let k = choose|k: int| 0 <= k < adj@[u].len() && (#[trigger] adj@[u]@[k]) == v;
            assert(adj@[u]@.map_values(|c: usize| c as int)[k] == v);
            assert(q.spec_neighbors(mp, u).contains(v));
            law_neighbors_symmetric(mp, q, u, v);
            let sv = q.spec_neighbors(mp, v);
            let m = choose|m: int| 0 <= m < sv.len() && sv[m] == u;
            assert(adj@[v]@.map_values(|c: usize| c as int)[m] == u);
            assert(adj@[v]@[m] == u);
        }
    }
    adj
}

pub(crate) fn terrain_flags(q: &TileQuery, t: TerrainType, or_hill: bool) -> (r: Vec<bool>)
    ensures
        r@ == terrain_mask(q, t, or_hill),
{
    let mut r: Vec<bool> = Vec::new();
    let mut i: usize = 0;
    while i < q.tiles.len()
        invariant
            0 <= i <= q.tiles.len(),
            r.len() == i,
            forall|j: int| 0 <= j < i ==> #[trigger] r@[j] == terrain_mask(q, t, or_hill)[j],
        decreases q.tiles.len() - i,
    {
        let tt = q.tiles[i].terrain_type;
        r.push(tt == t || (or_hill && tt == TerrainType::Hill));
        i = i + 1;
    }
    assert(r@ =~= terrain_mask(q, t, or_hill));
    r
}

/// Works the areas of the map out anew: the sizes are cleared, then the water tiles,
/// the flatland and hill tiles, and the mountain tiles are each numbered by [`bfs`]
/// (tiles of none of them get id -1). Every pass reads the ids the tiles had before,
/// since the new ids are written only at the end, so each pass numbers from one more
/// than the largest old id and a later pass's sizes replace an earlier one's for an id
/// both use.
pub fn recalculate_areas(
    map_parameters: &MapParameters,
    area_id_and_size: &mut AreaIdAndSize,
    query_tile: &mut TileQuery,
)
    requires
        old(query_tile).well_formed(map_parameters),
        max_id(area_ids(&*old(query_tile))) + old(query_tile).tiles.len() < i32::MAX,
    ensures
        final(query_tile).well_formed(map_parameters),
        final(query_tile).tiles.len() == old(query_tile).tiles.len(),
        forall|i: int|
            0 <= i < old(query_tile).tiles.len() ==> (#[trigger] final(query_tile).tiles@[i]) == (
            TileQueryItem { area_id: final(query_tile).tiles@[i].area_id, ..old(query_tile).tiles@[i] }),
        exists|adj: Seq<Vec<usize>>, ids1: Seq<i32>, ids2: Seq<i32>, s1: Map<i32, u32>, s2: Map<i32, u32>, n1: int, n2: int, n3: int|
            #![trigger numbered(terrain_mask(&*old(query_tile), TerrainType::Water, false), adj, unnumbered(old(query_tile).tiles.len() as nat), ids1, Map::empty(), s1, max_id(area_ids(&*old(query_tile))) + 1, n1), numbered(terrain_mask(&*old(query_tile), TerrainType::Flatland, true), adj, ids1, ids2, s1, s2, max_id(area_ids(&*old(query_tile))) + 1, n2), numbered(terrain_mask(&*old(query_tile), TerrainType::Mountain, false), adj, ids2, area_ids(&*final(query_tile)), s2, final(area_id_and_size).0@, max_id(area_ids(&*old(query_tile))) + 1, n3)]
            {
                &&& lists_neighbors(adj, map_parameters, &*old(query_tile))
                &&& wrap_aligned(map_parameters) ==> adj_symmetric(adj, old(query_tile).tiles.len() as int)
                &&& numbered(
                    terrain_mask(&*old(query_tile), TerrainType::Water, false),
                    adj,
                    unnumbered(old(query_tile).tiles.len() as nat),
                    ids1,
                    Map::empty(),
                    s1,
                    max_id(area_ids(&*old(query_tile))) + 1,
                    n1,
                )
                &&& numbered(
                    terrain_mask(&*old(query_tile), TerrainType::Flatland, true),
                    adj,
                    ids1,
                    ids2,
                    s1,
                    s2,
                    max_id(area_ids(&*old(query_tile))) + 1,
                    n2,
                )
                &&& numbered(
                    terrain_mask(&*old(query_tile), TerrainType::Mountain, false),
                    adj,
                    ids2,
                    area_ids(&*final(query_tile)),
                    s2,
                    final(area_id_and_size).0@,
                    max_id(area_ids(&*old(query_tile))) + 1,
                    n3,
                )
            },
{
    let n = query_tile.tiles.len();
    proof {
        let w = map_parameters.width as int;
        let h = map_parameters.height as int;
        assert(w * h > 0) by (nonlinear_arith)
            requires
                w > 0,
                h > 0,
        ;
    }
    let mut read_ids: Vec<i32> = Vec::new();
    let mut pending: Vec<i32> = Vec::new();
    let mut i: usize = 0;
    while i < n
        invariant
            n == query_tile.tiles.len(),
            0 <= i <= n,
            read_ids.len() == i,
            pending.len() == i,
            forall|j: int| 0 <= j < i ==> #[trigger] read_ids@[j] == query_tile.tiles@[j].area_id,
            forall|j: int| 0 <= j < i ==> #[trigger] pending@[j] == -1,
        decreases n - i,
    {
        read_ids.push(query_tile.tiles[i].area_id);
        pending.push(-1);
        i = i + 1;
    }
    assert(read_ids@ =~= area_ids(query_tile));
    assert(pending@ =~= unnumbered(n as nat));
    let ghost q0 = *query_tile;
    let adj = neighbor_lists(map_parameters, query_tile);
    area_id_and_size.0.clear();
    assert(area_id_and_size.0@ =~= Map::<i32, u32>::empty());
    let water = terrain_flags(query_tile, TerrainType::Water, false);
    let land = terrain_flags(query_tile, TerrainType::Flatland, true);
    let mountain = terrain_flags(query_tile, TerrainType::Mountain, false);
    let ghost p0 = pending@;
    let ghost m0 = area_id_and_size.0@;
    bfs(&read_ids, &mut pending, area_id_and_size, &water, &adj);
    let ghost p1 = pending@;
    let ghost m1 = area_id_and_size.0@;
    bfs(&read_ids, &mut pending, area_id_and_size, &land, &adj);
    let ghost p2 = pending@;
    let ghost m2 = area_id_and_size.0@;
    bfs(&read_ids, &mut pending, area_id_and_size, &mountain, &adj);
    let mut j: usize = 0;
    while j < n
        invariant
            n == query_tile.tiles.len(),
            q0.tiles.len() == n,
            pending.len() == n,
            0 <= j <= n,
            forall|t: int|
                0 <= t < j ==> #[trigger] query_tile.tiles@[t] == (TileQueryItem {
                    area_id: pending@[t],
                    ..q0.tiles@[t]
                }),
            forall|t: int| j <= t < n ==> #[trigger] query_tile.tiles@[t] == q0.tiles@[t],
        decreases n - j,
    {
        let mut t = query_tile.tiles[j];
        t.area_id = pending[j];
        query_tile.tiles.set(j, t);
        j = j + 1;
    }
    proof {
        assert forall|t: int| 0 <= t < query_tile.tiles.len() implies (#[trigger] query_tile.tiles@[t]).hex_position.small_pos()
            && map_parameters.hex_cell(query_tile.tiles@[t].hex_position.pair()) == Some(t) by {
            assert(q0.tiles@[t].hex_position.small_pos());
        }
        assert(area_ids(query_tile) =~= pending@);
        let start = max_id(area_ids(&q0)) + 1;
        let n1 = choose|n1: int| #[trigger] numbered(water@, adj@, p0, p1, m0, m1, start, n1);
        let n2 = choose|n2: int| #[trigger] numbered(land@, adj@, p1, p2, m1, m2, start, n2);
        let n3 = choose|n3: int| #[trigger] numbered(mountain@, adj@, p2, pending@, m2, area_id_and_size.0@, start, n3);
        assert(q0 == *old(query_tile));
        assert(lists_neighbors(adj@, map_parameters, &*old(query_tile)));
        assert(wrap_aligned(map_parameters) ==> adj_symmetric(adj@, old(query_tile).tiles.len() as int));
        assert(numbered(
            terrain_mask(&*old(query_tile), TerrainType::Water, false),
            adj@,
            unnumbered(old(query_tile).tiles.len() as nat),
            p1,
            Map::empty(),
            m1,
            max_id(area_ids(&*old(query_tile))) + 1,
            n1,
        ));
        assert(numbered(
            terrain_mask(&*old(query_tile), TerrainType::Flatland, true),
            adj@,
            p1,
            p2,
            m1,
            m2,
            max_id(area_ids(&*old(query_tile))) + 1,
            n2,
        ));
        assert(numbered(
            terrain_mask(&*old(query_tile), TerrainType::Mountain, false),
            adj@,
            p2,
            area_ids(&*final(query_tile)),
            m2,
            final(area_id_and_size).0@,
            max_id(area_ids(&*old(query_tile))) + 1,
            n3,
        ));
    }
}

} // verus!
