//! Turns: the nations play one after the other, in the order of their entity ids;
//! when the last of them has played, a new turn begins.

use vstd::prelude::*;

verus! {

/// Whose turn it is: the player's, or a computer nation's.
#[derive(Clone, Copy, Debug, PartialEq, Eq, Structural)]
pub enum TurnPhase {
    PlayTurn,
    EnemyTurn,
}

/// The order of play and where it stands.
#[derive(Clone, Debug)]
pub struct TurnManager {
    /// The nations' entity ids, in order of play.
    pub turn_queue: Vec<u64>,
    /// The position in `turn_queue` of the nation whose turn it is.
    pub current_index: usize,
    /// The turn number, counting from 0; it grows when the first nation plays again.
    pub turn_number: u32,
}

/// The list is in ascending order.
pub open spec fn sorted(s: Seq<u64>) -> bool {
    forall|i: int, j: int| 0 <= i <= j < s.len() ==> s[i] <= s[j]
}

/// The phase of the nation `entity`, when `player` is the player's nation.
pub open spec fn phase_of(entity: u64, player: u64) -> TurnPhase {
    if entity == player {
        TurnPhase::PlayTurn
    } else {
        TurnPhase::EnemyTurn
    }
}

impl TurnManager {
    /// The current position lies in the queue (when there is one).
    pub open spec fn well_formed(&self) -> bool {
        self.turn_queue.len() > 0 ==> self.current_index < self.turn_queue.len()
    }

    /// The nation whose turn it is.
    pub fn current_nation_entity(&self) -> (r: u64)
        requires
            self.current_index < self.turn_queue.len(),
        ensures
            r == self.turn_queue@[self.current_index as int],
    {
        self.turn_queue[self.current_index]
    }
}

/// The nations in ascending order of entity id.
fn sort_entities(nations: &Vec<u64>) -> (r: Vec<u64>)
    ensures
        sorted(r@),
        r@.to_multiset() == nations@.to_multiset(),
{
    broadcast use vstd::seq_lib::group_to_multiset_ensures;

    let mut r: Vec<u64> = Vec::new();
    let mut i: usize = 0;
    while i < nations.len()
        invariant
            0 <= i <= nations.len(),
            sorted(r@),
            r@.to_multiset() == nations@.take(i as int).to_multiset(),
        decreases nations.len() - i,
    {
        let x = nations[i];
        let mut k: usize = 0;
        while k < r.len() && r[k] <= x
            invariant
                0 <= k <= r.len(),
                forall|j: int| 0 <= j < k ==> r@[j] <= x,
            decreases r.len() - k,
        {
            k = k + 1;
        }
        let ghost before = r@;
        r.insert(k, x);
        proof {
            assert(r@ == before.insert(k as int, x));
            vstd::seq_lib::to_multiset_insert(before, k as int, x);
            assert(nations@.take(i + 1) =~= nations@.take(i as int).push(x));
            vstd::seq_lib::to_multiset_build(nations@.take(i as int), x);
            assert forall|a: int, b: int| 0 <= a <= b < r@.len() implies r@[a] <= r@[b] by {
                if a < k && b < k {
                    assert(r@[a] == before[a] && r@[b] == before[b]);
                } else if a < k && b == k {
                    assert(r@[a] == before[a]);
                } else if a < k {
                    assert(r@[a] == before[a] && r@[b] == before[b - 1]);
                } else if a == k && b == k {
                } else if a == k {
                    assert(r@[b] == before[b - 1]);
                    assert(k < before.len() && before[k as int] > x);
                    assert(before[k as int] <= before[b - 1]);
                } else {
                    assert(r@[a] == before[a - 1] && r@[b] == before[b - 1]);
                }
            }
        }
        i = i + 1;
    }
    assert(nations@.take(nations.len() as int) =~= nations@);
    r
}

/// Sets up the order of play at the start of a game: the nations in ascending order
/// of entity id, the first of them to play, on turn 0; the phase says whether that
/// first nation is the player's.
pub fn initialize_turn_system(nations: &Vec<u64>, player: u64) -> (r: (TurnManager, TurnPhase))
    requires
        nations.len() > 0,
    ensures
        sorted(r.0.turn_queue@),
        r.0.turn_queue@.to_multiset() == nations@.to_multiset(),
        r.0.turn_queue.len() == nations.len(),
        r.0.current_index == 0,
        r.0.turn_number == 0,
        r.1 == phase_of(r.0.turn_queue@[0], player),
{
    broadcast use vstd::seq_lib::group_to_multiset_ensures;

    let turn_queue = sort_entities(nations);
    proof {
        vstd::seq_lib::to_multiset_len(turn_queue@);
        vstd::seq_lib::to_multiset_len(nations@);
    }
    let entity = turn_queue[0];
    let phase = if player == entity {
        TurnPhase::PlayTurn
    } else {
        TurnPhase::EnemyTurn
    };
    (TurnManager { turn_queue, current_index: 0, turn_number: 0 }, phase)
}

/// The position after one nation ends its turn.
pub open spec fn next_index(index: int, len: int) -> int {
    (index + 1) % len
}

/// Passes the turn to the next nation in the queue, wrapping around to the first,
/// and counts a new turn when the first nation plays again. Gives back the phase of
/// the nation to play now; with an empty queue nothing changes and there is none.
pub fn advance_turn_queue(manager: &mut TurnManager, player: u64) -> (r: Option<TurnPhase>)
    requires
        old(manager).well_formed(),
        old(manager).turn_queue.len() > 0 && old(manager).current_index + 1 == old(
            manager,
        ).turn_queue.len() ==> old(manager).turn_number < u32::MAX,
    ensures
        final(manager).well_formed(),
        final(manager).turn_queue@ == old(manager).turn_queue@,
        old(manager).turn_queue.len() == 0 ==> r is None && final(manager).current_index == old(
            manager,
        ).current_index && final(manager).turn_number == old(manager).turn_number,
        old(manager).turn_queue.len() > 0 ==> {
            let idx = next_index(old(manager).current_index as int, old(manager).turn_queue.len() as int);
            &&& final(manager).current_index == idx
            &&& r == Some(phase_of(old(manager).turn_queue@[idx], player))
            &&& final(manager).turn_number == if idx == 0 {
                old(manager).turn_number + 1
            } else {
                old(manager).turn_number as int
            }
        },
{
    if manager.turn_queue.len() == 0 {
        return None;
    }
    let ghost old_index = manager.current_index as int;
    let ghost len = manager.turn_queue.len() as int;
    manager.current_index = (manager.current_index + 1) % manager.turn_queue.len();
    proof {
        assert((old_index + 1) % len == 0 ==> old_index + 1 == len) by (nonlinear_arith)
            requires
                0 <= old_index < len,
        ;
    }
    let entity = manager.turn_queue[manager.current_index];
    let phase = if player == entity {
        TurnPhase::PlayTurn
    } else {
        TurnPhase::EnemyTurn
    };
    if manager.current_index == 0 {
        manager.turn_number = manager.turn_number + 1;
    }
    Some(phase)
}

/// A computer nation's turn ends by itself as soon as it starts.
pub fn auto_end_enemy_turn(phase: TurnPhase) -> (end_turn: bool)
    ensures
        end_turn == (phase == TurnPhase::EnemyTurn),
{
    match phase {
        TurnPhase::EnemyTurn => true,
        TurnPhase::PlayTurn => false,
    }
}

/// Where the order of play stands after `k` nations have ended their turns, as
/// (position, turn number).
pub open spec fn after_turns(index: int, turn: int, len: int, k: nat) -> (int, int)
    decreases k,
{
    if k == 0 {
        (index, turn)
    } else {
        let (i, t) = after_turns(index, turn, len, (k - 1) as nat);
        let j = next_index(i, len);
        (j, if j == 0 {
            t + 1
        } else {
            t
        })
    }
}

/// Every nation plays once per turn: starting from the first nation, after each of the
/// `len` nations has ended its turn, the first nation plays again and the turn number
/// has grown by exactly one; in between it stays the same.
pub proof fn law_one_turn_per_round(turn: int, len: int, k: nat)
    requires
        len > 0,
        k <= len,
    ensures
        after_turns(0, turn, len, k) == (if k == len {
            (0, turn + 1)
        } else {
            (k as int, turn)
        }),
    decreases k,
{
    if k > 0 {
        law_one_turn_per_round(turn, len, (k - 1) as nat);
        if k < len {
            assert((k - 1 + 1) % len == k as int) by (nonlinear_arith)
                requires
                    0 < k < len,
            ;
        } else {
            assert((k - 1 + 1) % len == 0) by (nonlinear_arith)
                requires
                    k == len,
                    len > 0,
            ;
        }
    }
}

/// The position always stays in the queue.
pub proof fn law_index_stays_in_queue(index: int, turn: int, len: int, k: nat)
    requires
        len > 0,
        0 <= index < len,
    ensures
        0 <= after_turns(index, turn, len, k).0 < len,
    decreases k,
{
    if k > 0 {
        law_index_stays_in_queue(index, turn, len, (k - 1) as nat);
    }
}

} // verus!
