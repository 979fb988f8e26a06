//! Orders of the local player on the units it selected.
//!
//! Picking units on screen and finding the clicked point on the ground are the client
//! program's (they compute in floating point); the functions here make the command.
use crate::fixed::FxVec2;
use crate::sim::{Command, PlayerId, Unit, UnitId};
use vstd::prelude::*;

verus! {

/// The ids are in increasing order.
pub open spec fn ids_increasing(ids: Seq<UnitId>) -> bool {
    forall|i: int, j: int| 0 <= i < j < ids.len() ==> (#[trigger] ids[i]).0 <= (#[trigger] ids[j]).0
}

/// `sorted` holds the ids of `ids`, each as often, in increasing order.
pub open spec fn sorted_ids(ids: Seq<UnitId>, sorted: Seq<UnitId>) -> bool {
    &&& sorted.to_multiset() == ids.to_multiset()
    &&& ids_increasing(sorted)
}

/// The ids of `ids` in increasing order, so that formation slots do not depend on the
/// order in which the units were picked.
pub fn sort_ids(ids: &Vec<UnitId>) -> (r: Vec<UnitId>)
    ensures
        sorted_ids(ids@, r@),
{
    broadcast use vstd::seq_lib::group_to_multiset_ensures;

    let mut out: Vec<UnitId> = Vec::new();
    let mut k: usize = 0;
    while k < ids.len()
        invariant
            k <= ids@.len(),
            out@.to_multiset() == ids@.subrange(0, k as int).to_multiset(),
            ids_increasing(out@),
        decreases ids@.len() - k,
    {
        let x = ids[k];
        // Insert `x` after every id not above it.
        let mut pos: usize = 0;
        while pos < out.len() && out[pos].0 <= x.0
            invariant
                pos <= out@.len(),
                forall|i: int| 0 <= i < pos ==> (#[trigger] out@[i]).0 <= x.0,
            decreases out@.len() - pos,
        {
            pos += 1;
        }
        let ghost before = out@;
        out.insert(pos, x);
        proof {
            vstd::seq_lib::to_multiset_insert(before, pos as int, x);
            assert(ids@.subrange(0, k + 1) =~= ids@.subrange(0, k as int).push(x));
            assert(out@ == before.insert(pos as int, x));
            vstd::seq_lib::to_multiset_build(ids@.subrange(0, k as int), x);
            assert(out@.to_multiset() == ids@.subrange(0, k + 1).to_multiset());
            assert forall|i: int, j: int| 0 <= i < j < out@.len() implies (#[trigger] out@[i]).0
                <= (#[trigger] out@[j]).0 by {
                if j < pos {
                    assert(out@[i] == before[i] && out@[j] == before[j]);
                } else if j == pos {
                    assert(out@[i] == before[i]);
                } else if i < pos {
                    assert(out@[i] == before[i] && out@[j] == before[j - 1]);
                    assert(before[pos as int].0 > x.0);
                    if i < pos {
                        assert(before[i].0 <= x.0);
                    }
                } else if i == pos {
                    assert(out@[j] == before[j - 1]);
                    assert(before[pos as int].0 > x.0);
                    assert(before[pos as int].0 <= before[j - 1].0);
                } else {
                    assert(out@[i] == before[i - 1] && out@[j] == before[j - 1]);
                }
            }
        }
        k += 1;
    }
    proof {
        assert(ids@.subrange(0, ids@.len() as int) =~= ids@);
    }
    out
}

/// Ids of the units of `player`, in order.
pub open spec fn own_ids(units: Seq<Unit>, player: PlayerId) -> Seq<UnitId>
    decreases units.len(),
{
    if units.len() == 0 {
        Seq::empty()
    } else if units.last().owner == player {
        own_ids(units.drop_last(), player).push(units.last().id)
    } else {
        own_ids(units.drop_last(), player)
    }
}

/// `id` is the id of one of the units of `player`.
pub open spec fn is_id_of_player(units: Seq<Unit>, player: PlayerId, id: UnitId) -> bool {
    exists|i: int| 0 <= i < units.len() && units[i].owner == player && units[i].id == id
}

/// Only the player's own units are selectable, and all of them: every id listed is the id
/// of a unit of `player`, and every unit of `player` is listed.
pub proof fn lemma_own_ids_are_the_players(units: Seq<Unit>, player: PlayerId)
    ensures
        forall|k: int|
            0 <= k < own_ids(units, player).len() ==> is_id_of_player(
                units,
                player,
                #[trigger] own_ids(units, player)[k],
            ),
        forall|i: int|
            0 <= i < units.len() && #[trigger] units[i].owner == player ==> own_ids(
                units,
                player,
            ).contains(units[i].id),
        own_ids(units, player).len() <= units.len(),
    decreases units.len(),
{
    if units.len() > 0 {
        let prev = units.drop_last();
        let last = units.len() - 1;
        lemma_own_ids_are_the_players(prev, player);
        let r = own_ids(units, player);
        let rp = own_ids(prev, player);
        assert(units[last] == units.last());
        if units.last().owner == player {
            assert(r == rp.push(units.last().id));
        } else {
            assert(r == rp);
        }
        assert forall|k: int| 0 <= k < r.len() implies is_id_of_player(
            units,
            player,
            #[trigger] own_ids(units, player)[k],
        ) by {
            if k < rp.len() {
                assert(r[k] == rp[k]);
                assert(own_ids(prev, player)[k] == rp[k]);
                assert(is_id_of_player(prev, player, own_ids(prev, player)[k]));
                let i = choose|i: int|
                    #![trigger prev[i]]
                    0 <= i < prev.len() && prev[i].owner == player && own_ids(prev, player)[k]
                        == prev[i].id;
                assert(units[i] == prev[i]);
            } else {
                assert(units[last].owner == player && r[k] == units[last].id);
            }
        }
        assert forall|i: int| 0 <= i < units.len() && #[trigger] units[i].owner == player implies r.contains(
            units[i].id,
        ) by {
            if i < prev.len() {
                assert(prev[i] == units[i]);
                assert(rp.contains(units[i].id));
                let k = choose|k: int| 0 <= k < rp.len() && rp[k] == units[i].id;
                assert(r[k] == rp[k]);
            } else {
                assert(r[r.len() - 1] == units[i].id);
            }
        }
    }
}

/// The units that the local player `player` may select: only its own, in order. Which of
/// them the selection rectangle or click reaches is decided on screen, by the client.
pub fn selectable(units: &[Unit], player: PlayerId) -> (r: Vec<UnitId>)
    ensures
        r@ == own_ids(units@, player),
        forall|k: int| 0 <= k < r@.len() ==> is_id_of_player(units@, player, #[trigger] r@[k]),
        forall|i: int|
            0 <= i < units@.len() && #[trigger] units@[i].owner == player ==> r@.contains(
                units@[i].id,
            ),
{
    proof {
        lemma_own_ids_are_the_players(units@, player);
    }
    let mut ids: Vec<UnitId> = Vec::new();
    let mut k: usize = 0;
    while k < units.len()
        invariant
            k <= units@.len(),
            ids@ == own_ids(units@.subrange(0, k as int), player),
        decreases units@.len() - k,
    {
        proof {
            let next = units@.subrange(0, k + 1);
            assert(next.drop_last() =~= units@.subrange(0, k as int));
            assert(next.last() == units@[k as int]);
        }
        if units[k].owner == player {
            ids.push(units[k].id);
        }
        k += 1;
    }
    proof {
        assert(units@.subrange(0, k as int) =~= units@);
        assert forall|j: int| 0 <= j < ids@.len() implies is_id_of_player(
            units@,
            player,
            #[trigger] ids@[j],
        ) by {
            assert(ids@[j] == own_ids(units@, player)[j]);
        }
    }
    ids
}

/// The order given to the selected units: `stop` (the `S` key) stops them; otherwise a
/// click on the ground, at `target`, moves them there. Nothing selected, or neither, gives
/// no order. The units are listed in increasing id order.
pub fn order(selected: Vec<UnitId>, stop: bool, target: Option<FxVec2>) -> (r: Option<Command>)
    ensures
        selected@.len() == 0 ==> r is None,
        selected@.len() > 0 && stop ==> (r matches Some(Command::Stop { units }) && sorted_ids(
            selected@,
            units@,
        )),
        selected@.len() > 0 && !stop ==> match target {
            Some(t) => r matches Some(Command::Move { units, target }) && target == t && sorted_ids(
                selected@,
                units@,
            ),
            None => r is None,
        },
{
    if selected.len() == 0 {
        return None;
    }
    if stop {
        Some(Command::Stop { units: sort_ids(&selected) })
    } else {
        match target {
            Some(t) => Some(Command::Move { units: sort_ids(&selected), target: t }),
            None => None,
        }
    }
}

} // verus!
