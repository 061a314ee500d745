//! Random numbers as the map generator draws them, one after the other: what a
//! computation did with its draws is stated over the list of the draws it made.

use vstd::prelude::*;

verus! {

/// The random number at position `pos` of the draws (0 past their end).
pub open spec fn draw_at(d: Seq<u32>, pos: int) -> int {
    if 0 <= pos < d.len() {
        d[pos] as int
    } else {
        0
    }
}

/// The yes-or-no at position `pos` of the draws (no past their end).
pub open spec fn chance_at(d: Seq<bool>, pos: int) -> bool {
    0 <= pos < d.len() && d[pos]
}

/// `ext` begins with the draws `d`.
pub open spec fn extends<A>(ext: Seq<A>, d: Seq<A>) -> bool {
    d.len() <= ext.len() && ext.take(d.len() as int) == d
}

/// A list begins with itself.
pub proof fn lemma_extends_refl<A>(d: Seq<A>)
    ensures
        extends(d, d),
{
    assert(d.take(d.len() as int) =~= d);
}

/// The draws `d` and one more, `x`, begin every sequence that begins with `d.push(x)`.
pub proof fn lemma_extends_push<A>(ext: Seq<A>, d: Seq<A>, x: A)
    requires
        extends(ext, d.push(x)),
    ensures
        extends(ext, d),
        ext[d.len() as int] == x,
{
    assert(ext.take(d.len() as int) =~= ext.take(d.len() as int + 1).take(d.len() as int));
    assert(d.push(x).take(d.len() as int) =~= d);
    assert(ext[d.len() as int] == ext.take(d.len() as int + 1)[d.len() as int]);
}

/// A list that begins with a list that begins with `d` begins with `d`.
pub proof fn lemma_extends_trans<A>(ext: Seq<A>, d2: Seq<A>, d: Seq<A>)
    requires
        extends(ext, d2),
        extends(d2, d),
    ensures
        extends(ext, d),
{
    assert(ext.take(d.len() as int) =~= ext.take(d2.len() as int).take(d.len() as int));
}

/// Adding one draw keeps what came before.
pub proof fn lemma_extends_one<A>(d: Seq<A>, x: A)
    ensures
        extends(d.push(x), d),
{
    assert(d.push(x).take(d.len() as int) =~= d);
}

/// Draws below a bound before, between and after stay below it.
pub proof fn lemma_new_draws_small(d2: Seq<u32>, d1: Seq<u32>, d: Seq<u32>, bound: u32)
    requires
        extends(d2, d),
        extends(d1, d),
        forall|k: int| 0 <= k < d.len() ==> d[k] < bound,
        forall|k: int| d.len() <= k < d1.len() ==> d1[k] < bound,
        forall|k: int| d1.len() <= k < d2.len() ==> d2[k] < bound,
        extends(d2, d1),
    ensures
        forall|k: int| 0 <= k < d2.len() ==> d2[k] < bound,
{
    assert forall|k: int| 0 <= k < d2.len() implies d2[k] < bound by {
        if k < d.len() {
            assert(d2.take(d.len() as int)[k] == d2[k]);
        } else if k < d1.len() {
            assert(d2.take(d1.len() as int)[k] == d2[k]);
        }
    }
}

} // verus!
