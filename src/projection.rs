//! The alive-objects projection: a globe's log folded, in order, into the
//! map from `uuid` to the event that created each ball still alive.

use vstd::prelude::*;
use std::collections::HashMap;
use vstd::std_specs::hash::spec_hash_map_iter;
use vstd::std_specs::iter::IteratorSpec;
use crate::ball::BallEntity;
use crate::geometry::PositionEntity;

verus! {

broadcast use vstd::std_specs::hash::group_hash_axioms;

/// One step of the fold: an insert adds or overwrites its ball, a delete
/// removes it.
pub open spec fn apply_event(m: Map<u128, BallEntity>, e: BallEntity) -> Map<u128, BallEntity> {
    if e.is_insert {
        m.insert(e.uuid, e)
    } else {
        m.remove(e.uuid)
    }
}

/// `events` folded, in order, over the projection `m`.
pub open spec fn replay(m: Map<u128, BallEntity>, events: Seq<BallEntity>) -> Map<u128, BallEntity>
    decreases events.len(),
{
    if events.len() == 0 {
        m
    } else {
        apply_event(replay(m, events.drop_last()), events.last())
    }
}

/// The balls alive after `events`.
pub open spec fn alive_map(events: Seq<BallEntity>) -> Map<u128, BallEntity> {
    replay(Map::empty(), events)
}

/// `q` is the position of an alive fixed ball of `alive`.
pub open spec fn is_fixed_position(alive: Map<u128, BallEntity>, q: PositionEntity) -> bool {
    exists|u: u128| #[trigger]
        alive.contains_key(u) && alive[u].is_fixed && alive[u].position == Some(q)
}

/// Folds `events`, in order, into `alive`.
pub fn replay_events(alive: &mut HashMap<u128, BallEntity>, events: &Vec<BallEntity>)
    ensures
        final(alive)@ == replay(old(alive)@, events@),
{
    let mut j: usize = 0;
    while j < events.len()
        invariant
            j <= events.len(),
            alive@ == replay(old(alive)@, events@.take(j as int)),
        decreases events.len() - j,
    {
        let e = &events[j];
        assert(events@.take(j as int + 1).drop_last() =~= events@.take(j as int));
        if e.is_insert {
            alive.insert(e.uuid, e.duplicate());
        } else {
            alive.remove(&e.uuid);
        }
        j = j + 1;
    }
    assert(events@.take(j as int) =~= events@);
}

/// The balls alive after `events`, by uuid.
pub fn get_alive_objects_map(events: &Vec<BallEntity>) -> (r: HashMap<u128, BallEntity>)
    ensures
        r@ == alive_map(events@),
{
    let mut alive: HashMap<u128, BallEntity> = HashMap::new();
    replay_events(&mut alive, events);
    alive
}

/// The positions of the alive fixed balls of `alive`, in no particular
/// order.
pub fn fixed_positions(alive: &HashMap<u128, BallEntity>) -> (r: Vec<PositionEntity>)
    ensures
        forall|q: PositionEntity| r@.contains(q) <==> is_fixed_position(alive@, q),
{
    let mut r: Vec<PositionEntity> = Vec::new();
    let ghost entries = spec_hash_map_iter(alive).remaining();
    for item in it: alive.iter()
        invariant
            it.seq() == entries,
            entries == spec_hash_map_iter(alive).remaining(),
            forall|j: int| 0 <= j < r@.len() ==> is_fixed_position(alive@, #[trigger] r@[j]),
            forall|i: int|
                #![trigger it.seq()[i]]
                0 <= i < it.index() && it.seq()[i].1.is_fixed && it.seq()[i].1.position is Some
                    ==> r@.contains(it.seq()[i].1.position->0),
    {
        let (k, v) = item;
        let ghost before = r@;
        let ghost n = it.index();
        assert(item == it.seq()[n]);
        if v.is_fixed {
            match v.position {
                Some(p) => {
                    assert(alive@.contains_key(*k) && alive@[*k] == *v);
                    r.push(p);
                    assert(r@[before.len() as int] == p);
                    assert forall|i: int|
                        #![trigger it.seq()[i]]
                        0 <= i < n && it.seq()[i].1.is_fixed && it.seq()[i].1.position is Some
                            implies r@.contains(it.seq()[i].1.position->0) by {
                        let w = it.seq()[i].1.position->0;
                        let j = choose|j: int| 0 <= j < before.len() && before[j] == w;
                        assert(r@[j] == w);
                    }
                },
                None => {},
            }
        }
    }
    proof {
        assert forall|q: PositionEntity| is_fixed_position(alive@, q) implies r@.contains(q) by {
            let u = choose|u: u128|
                #[trigger] alive@.contains_key(u) && alive@[u].is_fixed && alive@[u].position
                    == Some(q);
            let i = choose|i: int| 0 <= i < entries.len() && entries[i] == (&u, &alive@[u]);
            assert(entries[i].1.position->0 == q);
        }
        assert forall|q: PositionEntity| r@.contains(q) implies is_fixed_position(alive@, q) by {
            let j = choose|j: int| 0 <= j < r@.len() && r@[j] == q;
            assert(is_fixed_position(alive@, r@[j]));
        }
    }
    r
}

/// Some event of `events` concerns the ball `u`.
pub open spec fn touches(events: Seq<BallEntity>, u: u128) -> bool {
    exists|j: int| 0 <= j < events.len() && (#[trigger] events[j]).uuid == u
}

/// The two maps agree at `u`.
pub open spec fn agree_at(a: Map<u128, BallEntity>, b: Map<u128, BallEntity>, u: u128) -> bool {
    &&& a.contains_key(u) == b.contains_key(u)
    &&& a.contains_key(u) ==> a[u] == b[u]
}

/// A ball that no event concerns keeps what the starting projection held.
pub proof fn lemma_replay_untouched(m: Map<u128, BallEntity>, events: Seq<BallEntity>, u: u128)
    requires
        !touches(events, u),
    ensures
        agree_at(replay(m, events), m, u),
    decreases events.len(),
{
    if events.len() > 0 {
        let prefix = events.drop_last();
        assert(!touches(prefix, u)) by {
            if touches(prefix, u) {
                let j = choose|j: int| 0 <= j < prefix.len() && (#[trigger] prefix[j]).uuid == u;
                assert(events[j] == prefix[j]);
            }
        }
        assert(events[events.len() - 1].uuid != u);
        lemma_replay_untouched(m, prefix, u);
    }
}

/// Where an event concerns the ball `u`, the starting projection no longer
/// matters at `u`.
pub proof fn lemma_replay_touched(
    m1: Map<u128, BallEntity>,
    m2: Map<u128, BallEntity>,
    events: Seq<BallEntity>,
    u: u128,
)
    requires
        touches(events, u),
    ensures
        agree_at(replay(m1, events), replay(m2, events), u),
    decreases events.len(),
{
    let prefix = events.drop_last();
    let e = events.last();
    if e.uuid != u {
        let j = choose|j: int| 0 <= j < events.len() && (#[trigger] events[j]).uuid == u;
        assert(prefix[j] == events[j]);
        lemma_replay_touched(m1, m2, prefix, u);
    }
}

/// Replaying a globe's full event range over the projection already built
/// from it yields that same projection: replay is idempotent.
pub proof fn lemma_replay_idempotent(events: Seq<BallEntity>)
    ensures
        replay(alive_map(events), events) == alive_map(events),
{
    let a = alive_map(events);
    let b = replay(a, events);
    assert forall|u: u128| #[trigger] b.contains_key(u) == a.contains_key(u) && (b.contains_key(u) ==> b[u] == a[u]) by {
        if touches(events, u) {
            lemma_replay_touched(a, Map::empty(), events, u);
        } else {
            lemma_replay_untouched(a, events, u);
            lemma_replay_untouched(Map::empty(), events, u);
        }
    }
    assert(b =~= a);
}

/// Folding a second range over a projection equals folding both ranges in
/// one replay: a snapshot plus an incremental fold is a full replay.
pub proof fn lemma_replay_concat(
    m: Map<u128, BallEntity>,
    first: Seq<BallEntity>,
    second: Seq<BallEntity>,
)
    ensures
        replay(replay(m, first), second) == replay(m, first + second),
    decreases second.len(),
{
    if second.len() == 0 {
        assert(first + second =~= first);
    } else {
        assert((first + second).drop_last() =~= first + second.drop_last());
        assert((first + second).last() == second.last());
        lemma_replay_concat(m, first, second.drop_last());
    }
}

} // verus!
