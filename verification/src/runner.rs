//! The batch runner: many battles over one roster, each from a fresh
//! initiative roll, streamed into one aggregator that is flushed at a
//! fixed cadence to bound memory.

use vstd::prelude::*;

use crate::aggregate::BattleResultCollection;
use crate::aggregate::CollectionAccumulation;
use crate::aggregate::CollectionSummary;
use crate::battle::slots_wf;
use crate::battle::spec_battle_outcome;
use crate::battle::spec_engine_run;
use crate::chance::ChanceSource;
use crate::characterize::CharV;
use crate::characterize::CharacterStruct;
use crate::order::ReportOutputLevel;
use crate::order::char_views;
use crate::order::lemma_rolled_sorted_wf;
use crate::order::make_battle_order_list;
use crate::order::order_views;
use crate::order::OrderV;
use crate::order::spec_roll_initiative;
use crate::order::spec_rolled_from;
use crate::order::spec_sort_desc;
use crate::results::TurnV;

verus! {

/// How many battles a batch gathers before its aggregates are flushed.
pub const WRITE_TO_FILE_TRIGGER: u32 = 50000;

/// The battles accounted for by a list of flushed payloads.
pub open spec fn spec_flush_total(flushes: Seq<(CollectionSummary, CollectionAccumulation)>) -> int
    decreases flushes.len(),
{
    if flushes.len() == 0 {
        0
    } else {
        spec_flush_total(flushes.drop_last()) + flushes.last().0.battle_count
    }
}

/// The battle lengths a seeded run of `n` battles over the roster
/// yields, battle by battle — fresh initiative, then the engine to its
/// decision — and the generator state left afterwards.
pub open spec fn spec_run_batch(ps: Seq<CharV>, state: u64, n: u32) -> (Seq<u8>, u64)
    decreases n,
{
    if n == 0 {
        (Seq::<u8>::empty(), state)
    } else {
        let rolled = spec_roll_initiative(ps, state);
        let outcome = spec_battle_outcome(spec_sort_desc(rolled.0), rolled.1);
        let rest = spec_run_batch(ps, outcome.1, (n - 1) as u32);
        (seq![outcome.3] + rest.0, rest.1)
    }
}

/// A battle length the roster can produce: some initiative roll over the
/// roster, sorted as initiative orders it, and some full engine run over
/// those slots that recorded that many turns.
pub open spec fn spec_battle_from_roster(ps: Seq<CharV>, turns: u8) -> bool {
    exists|rolled: Seq<OrderV>, fin: Seq<OrderV>, log: Seq<TurnV>|
        #![trigger spec_engine_run(spec_sort_desc(rolled), fin, log)]
        spec_rolled_from(rolled, ps) && spec_engine_run(spec_sort_desc(rolled), fin, log)
            && log.len() == turns
}

/// Runs one battle — fresh initiative, then the engine to its decision —
/// and absorbs its record.
fn run_single_battle(
    players: &[CharacterStruct],
    battle_num: u32,
    collection: &mut BattleResultCollection,
    report_level: &ReportOutputLevel,
    source: &mut ChanceSource,
)
    requires
        0 < players@.len() <= 65535,
        forall|i: int| 0 <= i < players@.len() ==> (#[trigger] players@[i])@.wf(),
        old(collection).wf(),
        old(collection).battle_count < u32::MAX,
    ensures
        final(collection).wf(),
        final(collection).arena_id == old(collection).arena_id,
        final(collection).battle_count == old(collection).battle_count + 1,
        final(collection).absorbed_turns@.len() == old(collection).absorbed_turns@.len() + 1,
        forall|k: int|
            0 <= k < old(collection).absorbed_turns@.len()
                ==> final(collection).absorbed_turns@[k] == #[trigger] old(
                collection,
            ).absorbed_turns@[k],
        spec_battle_from_roster(
            char_views(players@),
            final(collection).absorbed_turns@.last(),
        ),
        final(source).seeded == old(source).seeded,
        !old(source).seeded ==> final(source).state == old(source).state,
        old(source).seeded ==> ({
            let rolled = spec_roll_initiative(char_views(players@), old(source).state);
            let outcome = spec_battle_outcome(spec_sort_desc(rolled.0), rolled.1);
            &&& final(collection).absorbed_turns@ == old(collection).absorbed_turns@.push(
                outcome.3,
            )
            &&& final(source).state == outcome.1
        }),
{
    let order_list = make_battle_order_list(players, report_level, source);
    let ghost ps = char_views(players@);
    let ghost pre_slots = order_views(order_list.battle_order_list@);
    proof {
        let rolled = choose|rolled: Seq<OrderV>|
            #[trigger] spec_rolled_from(rolled, ps) && pre_slots == spec_sort_desc(rolled);
        lemma_rolled_sorted_wf(rolled, ps);
        assert(slots_wf(pre_slots));
    }
    let battle_run = order_list.run_battle(battle_num, source);
    collection.absorb(&battle_run.battle_result);
    proof {
        let rolled = choose|rolled: Seq<OrderV>|
            #[trigger] spec_rolled_from(rolled, ps) && pre_slots == spec_sort_desc(rolled);
        let fin = order_views(battle_run.battle_order_list@);
        let log = battle_run.battle_result@.turn_result;
        assert(spec_engine_run(spec_sort_desc(rolled), fin, log));
        assert(log.len() == battle_run.battle_result@.turns_run);
        assert(collection.absorbed_turns@.last() == battle_run.battle_result@.turns_run);
    }
}

/// Runs `battle_count` battles over the roster, re-rolling initiative
/// for every battle, and absorbs each record into one aggregator. Each
/// time the batch reaches exactly the flush trigger, the summary and
/// histogram are emitted as a payload and the batch starts afresh, so
/// every flushed payload accounts for precisely the trigger count and
/// the returned aggregator for fewer. Every battle of the run is
/// accounted for exactly once: the flushed payloads' battle counts and
/// the returned aggregator's count add up to `battle_count`. Whatever
/// the source, every aggregated battle length came from a fresh
/// initiative roll over the roster and a complete engine run; for a
/// seeded run short enough not to flush, the batch is exactly the
/// lengths of the battles the seed dictates.
#[verifier::rlimit(100)]
pub fn battle(
    players: &[CharacterStruct],
    battle_count: u32,
    arena_id: u8,
    report_level: &ReportOutputLevel,
    source: &mut ChanceSource,
) -> (r: (BattleResultCollection, Vec<(CollectionSummary, CollectionAccumulation)>))
    requires
        0 < players@.len() <= 65535,
        forall|i: int| 0 <= i < players@.len() ==> (#[trigger] players@[i])@.wf(),
    ensures
        r.0.wf(),
        r.0.arena_id == arena_id,
        spec_flush_total(r.1@) + r.0.battle_count == battle_count,
        r.0.battle_count < WRITE_TO_FILE_TRIGGER,
        forall|k: int|
            0 <= k < r.1@.len() ==> (#[trigger] r.1@[k]).0.battle_count
                == WRITE_TO_FILE_TRIGGER,
        forall|k: int|
            0 <= k < r.0.absorbed_turns@.len() ==> spec_battle_from_roster(
                char_views(players@),
                #[trigger] r.0.absorbed_turns@[k],
            ),
        final(source).seeded == old(source).seeded,
        old(source).seeded && battle_count < WRITE_TO_FILE_TRIGGER ==> ({
            let batch = spec_run_batch(char_views(players@), old(source).state, battle_count);
            &&& r.1@.len() == 0
            &&& r.0.absorbed_turns@ == batch.0
            &&& final(source).state == batch.1
        }),
{
    let mut collection = BattleResultCollection::new(arena_id);
    let mut flushes: Vec<(CollectionSummary, CollectionAccumulation)> = Vec::new();
    let ghost ps = char_views(players@);
    let ghost full = spec_run_batch(ps, old(source).state, battle_count);
    proof {
        assert(spec_flush_total(flushes@) == 0);
        if old(source).seeded {
            assert(collection.absorbed_turns@ + full.0 =~= full.0);
        }
    }
    for battle_num in 0..battle_count
        invariant
            0 < players@.len() <= 65535,
            forall|i: int| 0 <= i < players@.len() ==> (#[trigger] players@[i])@.wf(),
            ps == char_views(players@),
            full == spec_run_batch(ps, old(source).state, battle_count),
            collection.wf(),
            collection.arena_id == arena_id,
            collection.battle_count < WRITE_TO_FILE_TRIGGER,
            spec_flush_total(flushes@) + collection.battle_count == battle_num,
            forall|k: int|
                0 <= k < flushes@.len() ==> (#[trigger] flushes@[k]).0.battle_count
                    == WRITE_TO_FILE_TRIGGER,
            forall|k: int|
                0 <= k < collection.absorbed_turns@.len() ==> spec_battle_from_roster(
                    ps,
                    #[trigger] collection.absorbed_turns@[k],
                ),
            source.seeded == old(source).seeded,
            old(source).seeded && battle_count < WRITE_TO_FILE_TRIGGER ==> ({
                let rest = spec_run_batch(ps, source.state, (battle_count - battle_num) as u32);
                &&& flushes@.len() == 0
                &&& collection.absorbed_turns@ + rest.0 == full.0
                &&& rest.1 == full.1
            }),
    {
        let ghost pre_state = source.state;
        let ghost pre_absorbed = collection.absorbed_turns@;
        run_single_battle(players, battle_num, &mut collection, report_level, source);
        proof {
            assert forall|k: int|
                0 <= k < collection.absorbed_turns@.len() implies spec_battle_from_roster(
                    ps,
                    #[trigger] collection.absorbed_turns@[k],
                ) by {
                if k < pre_absorbed.len() {
                    assert(collection.absorbed_turns@[k] == pre_absorbed[k]);
                } else {
                    assert(collection.absorbed_turns@[k] == collection.absorbed_turns@.last());
                }
            }
            if old(source).seeded && battle_count < WRITE_TO_FILE_TRIGGER {
                let rest = spec_run_batch(ps, pre_state, (battle_count - battle_num) as u32);
                let rolled = spec_roll_initiative(ps, pre_state);
                let outcome = spec_battle_outcome(spec_sort_desc(rolled.0), rolled.1);
                assert(collection.absorbed_turns@ =~= pre_absorbed + seq![outcome.3]);
                assert((pre_absorbed + seq![outcome.3]) + spec_run_batch(
                    ps,
                    outcome.1,
                    (battle_count - battle_num - 1) as u32,
                ).0 =~= pre_absorbed + rest.0);
            }
        }
        if collection.battle_count >= WRITE_TO_FILE_TRIGGER {
            assert(collection.battle_count == WRITE_TO_FILE_TRIGGER);
            let ghost pre_flushes = flushes@;
            let payload = collection.flush_and_reset();
            let ghost payload_v = payload;
            flushes.push(payload);
            proof {
                assert(flushes@.drop_last() =~= pre_flushes);
                assert(flushes@.last() == payload_v);
                assert forall|k: int|
                    0 <= k < flushes@.len() implies (#[trigger] flushes@[k]).0.battle_count
                        == WRITE_TO_FILE_TRIGGER by {
                    if k < pre_flushes.len() {
                        assert(flushes@[k] == pre_flushes[k]);
                    }
                }
            }
        }
    }
    (collection, flushes)
}

} // verus!
