//! The result aggregator: running totals over a batch of battle records
//! and a histogram of battles by length and winner, held in constant
//! memory per absorbed record and reset on each flush.

use vstd::prelude::*;
use vstd::arithmetic::div_mod::lemma_div_is_ordered;
use vstd::arithmetic::div_mod::lemma_div_by_multiple;

use crate::characterize::Team;
use crate::results::BattleResult;
use crate::results::BattleV;

verus! {

/// The histogram label of a battle's outcome: the winning team, marked
/// when that team also held initiative, or no winner at all.
#[derive(Clone, Copy, Debug, PartialEq, Eq, Structural)]
pub enum WinnerLabel {
    NoWinner,
    Winner { team: Team, held_initiative: bool },
}

/// One histogram cell: how many battles ran `turns_run` turns and ended
/// under `winner`.
#[derive(Clone, Copy, Debug, PartialEq, Eq, Structural)]
pub struct HistogramEntry {
    pub turns_run: u8,
    pub winner: WinnerLabel,
    pub count: u32,
}

/// The label a battle record falls under.
pub open spec fn spec_label_of(b: BattleV) -> WinnerLabel {
    match b.winner {
        Option::Some(c) => WinnerLabel::Winner {
            team: c.team,
            held_initiative: c.team == b.initiative_winner,
        },
        Option::None => WinnerLabel::NoWinner,
    }
}

/// The key of one histogram cell.
pub open spec fn spec_key(e: HistogramEntry) -> (u8, WinnerLabel) {
    (e.turns_run, e.winner)
}

/// The map a histogram's cells stand for.
pub open spec fn spec_hist(entries: Seq<HistogramEntry>) -> Map<(u8, WinnerLabel), int>
    decreases entries.len(),
{
    if entries.len() == 0 {
        Map::empty()
    } else {
        spec_hist(entries.drop_last()).insert(spec_key(entries.last()), entries.last().count as int)
    }
}

/// The total of the histogram's counts.
pub open spec fn spec_count_sum(entries: Seq<HistogramEntry>) -> int
    decreases entries.len(),
{
    if entries.len() == 0 {
        0
    } else {
        spec_count_sum(entries.drop_last()) + entries.last().count
    }
}

/// No two cells share a key.
pub open spec fn spec_keys_unique(entries: Seq<HistogramEntry>) -> bool {
    forall|i: int, j: int|
        0 <= i < j < entries.len() ==> spec_key(#[trigger] entries[i]) != spec_key(
            #[trigger] entries[j],
        )
}

/// `m` with the count under `k` one higher, a new key starting at one.
pub open spec fn spec_bump(m: Map<(u8, WinnerLabel), int>, k: (u8, WinnerLabel)) -> Map<
    (u8, WinnerLabel),
    int,
> {
    m.insert(k, if m.contains_key(k) {
        m[k] + 1
    } else {
        1
    })
}

/// The total turns of a batch.
pub open spec fn spec_sum_turns(ts: Seq<u8>) -> int
    decreases ts.len(),
{
    if ts.len() == 0 {
        0
    } else {
        spec_sum_turns(ts.drop_last()) + ts.last()
    }
}

/// The longest battle of a batch, zero for an empty batch.
pub open spec fn spec_max_turns(ts: Seq<u8>) -> int
    decreases ts.len(),
{
    if ts.len() == 0 {
        0
    } else if ts.last() > spec_max_turns(ts.drop_last()) {
        ts.last() as int
    } else {
        spec_max_turns(ts.drop_last())
    }
}

/// A batch's total turns are bounded by its longest possible battles.
proof fn lemma_sum_turns_bounds(ts: Seq<u8>)
    ensures
        0 <= spec_sum_turns(ts) <= 255 * ts.len(),
        0 <= spec_max_turns(ts) <= 255,
    decreases ts.len(),
{
    if ts.len() > 0 {
        lemma_sum_turns_bounds(ts.drop_last());
    }
}

/// A key held by no cell is not in the histogram's map.
proof fn lemma_hist_absent(entries: Seq<HistogramEntry>, k: (u8, WinnerLabel))
    requires
        forall|i: int| 0 <= i < entries.len() ==> spec_key(#[trigger] entries[i]) != k,
    ensures
        !spec_hist(entries).contains_key(k),
    decreases entries.len(),
{
    if entries.len() > 0 {
        assert(forall|i: int|
            0 <= i < entries.drop_last().len() ==> #[trigger] entries.drop_last()[i]
                == entries[i]);
        lemma_hist_absent(entries.drop_last(), k);
    }
}

/// With unique keys, the cell holding a key gives the map's count there.
proof fn lemma_hist_at(entries: Seq<HistogramEntry>, i: int)
    requires
        spec_keys_unique(entries),
        0 <= i < entries.len(),
    ensures
        spec_hist(entries).contains_key(spec_key(entries[i])),
        spec_hist(entries)[spec_key(entries[i])] == entries[i].count as int,
    decreases entries.len(),
{
    let dl = entries.drop_last();
    assert(forall|j: int| 0 <= j < dl.len() ==> #[trigger] dl[j] == entries[j]);
    if i == entries.len() - 1 {
    } else {
        lemma_hist_at(dl, i);
        assert(spec_key(entries[entries.len() - 1]) != spec_key(entries[i]));
    }
}

/// Bumping the cell that holds a key bumps the map at that key.
proof fn lemma_hist_update(entries: Seq<HistogramEntry>, i: int, e: HistogramEntry)
    requires
        spec_keys_unique(entries),
        0 <= i < entries.len(),
        spec_key(e) == spec_key(entries[i]),
        e.count == entries[i].count + 1,
    ensures
        spec_hist(entries.update(i, e)) == spec_bump(spec_hist(entries), spec_key(e)),
        spec_count_sum(entries.update(i, e)) == spec_count_sum(entries) + 1,
        spec_keys_unique(entries.update(i, e)),
    decreases entries.len(),
{
    lemma_hist_at(entries, i);
    let u = entries.update(i, e);
    assert(u.len() == entries.len());
    assert forall|a: int, b: int| 0 <= a < b < u.len() implies spec_key(#[trigger] u[a])
        != spec_key(#[trigger] u[b]) by {
        assert(spec_key(u[a]) == spec_key(entries[a]));
        assert(spec_key(u[b]) == spec_key(entries[b]));
    }
    let dl = entries.drop_last();
    assert(forall|j: int| 0 <= j < dl.len() ==> #[trigger] dl[j] == entries[j]);
    if i == entries.len() - 1 {
        assert(u.drop_last() =~= dl);
        assert(u.last() == e);
        assert(spec_hist(u) =~= spec_bump(spec_hist(entries), spec_key(e)));
    } else {
        assert(forall|a: int, b: int|
            0 <= a < b < dl.len() ==> spec_key(#[trigger] dl[a]) != spec_key(#[trigger] dl[b]));
        lemma_hist_update(dl, i, e);
        assert(u.drop_last() =~= dl.update(i, e));
        assert(u.last() == entries.last());
        assert(spec_key(entries.last()) != spec_key(entries[i]));
        assert(spec_hist(u) == spec_hist(dl.update(i, e)).insert(
            spec_key(entries.last()),
            entries.last().count as int,
        ));
        assert(spec_hist(u) =~= spec_bump(spec_hist(entries), spec_key(e)));
    }
}

/// The cell holding the given key, if the histogram has one.
fn find_entry(v: &Vec<HistogramEntry>, turns: u8, label: WinnerLabel) -> (r: Option<usize>)
    ensures
        r matches Some(i) ==> i < v@.len() && spec_key(v@[i as int]) == (turns, label),
        r is None ==> forall|j: int| 0 <= j < v@.len() ==> spec_key(#[trigger] v@[j]) != (
            turns,
            label,
        ),
{
    let n = v.len();
    for i in 0..n
        invariant
            n == v@.len(),
            forall|j: int| 0 <= j < i ==> spec_key(#[trigger] v@[j]) != (turns, label),
    {
        let e = v[i];
        if e.turns_run == turns && e.winner == label {
            return Some(i);
        }
    }
    None
}

/// The running summary of one aggregator, as it is flushed to the sink.
pub struct CollectionSummary {
    pub arena_id: u8,
    pub battle_count: u32,
    pub total_turns_run: u64,
    pub average_turns_run: u16,
    pub max_turns_run: u8,
}

/// The histogram of one aggregator, as it is flushed to the sink.
pub struct CollectionAccumulation {
    pub number_of_battles: u32,
    pub accumulation: Vec<HistogramEntry>,
}

/// The aggregator: counters and a histogram over the battles absorbed
/// since the last reset. The ghost batch records exactly which battle
/// lengths were absorbed, and the well-formedness invariant ties every
/// counter to it.
pub struct BattleResultCollection {
    pub arena_id: u8,
    pub battle_count: u32,
    pub total_turns_run: u64,
    pub max_turns_run: u8,
    pub accumulation: Vec<HistogramEntry>,
    pub absorbed_turns: Ghost<Seq<u8>>,
}

impl BattleResultCollection {
    /// The counters agree with the ghost batch: the count is its length,
    /// the total its sum, the maximum its longest entry, and the
    /// histogram's cells have unique keys and counts that add up to the
    /// battle count.
    pub open spec fn wf(self) -> bool {
        &&& self.battle_count == self.absorbed_turns@.len()
        &&& self.total_turns_run == spec_sum_turns(self.absorbed_turns@)
        &&& self.max_turns_run == spec_max_turns(self.absorbed_turns@)
        &&& spec_keys_unique(self.accumulation@)
        &&& spec_count_sum(self.accumulation@) == self.battle_count
        &&& forall|i: int|
            0 <= i < self.accumulation@.len() ==> 1 <= (#[trigger] self.accumulation@[i]).count
                <= self.battle_count
    }

    /// A fresh aggregator for one arena, with nothing absorbed.
    pub fn new(arena_id: u8) -> (r: Self)
        ensures
            r.wf(),
            r.arena_id == arena_id,
            r.battle_count == 0,
            r.total_turns_run == 0,
            r.max_turns_run == 0,
            r.absorbed_turns@ == Seq::<u8>::empty(),
            r.accumulation@ == Seq::<HistogramEntry>::empty(),
    {
        let r = BattleResultCollection {
            arena_id,
            battle_count: 0,
            total_turns_run: 0,
            max_turns_run: 0,
            accumulation: Vec::new(),
            absorbed_turns: Ghost(Seq::empty()),
        };
        proof {
            assert(r.accumulation@ =~= Seq::<HistogramEntry>::empty());
        }
        r
    }

    /// Absorbs one battle record: the count rises by one, the total by
    /// the battle's turns, the maximum as needed, and the histogram's
    /// cell for (turns run, winner label) by one.
    pub fn absorb(&mut self, battle_result: &BattleResult)
        requires
            old(self).wf(),
            old(self).battle_count < u32::MAX,
        ensures
            final(self).wf(),
            final(self).arena_id == old(self).arena_id,
            final(self).battle_count == old(self).battle_count + 1,
            final(self).absorbed_turns@ == old(self).absorbed_turns@.push(
                battle_result@.turns_run,
            ),
            final(self).total_turns_run == old(self).total_turns_run
                + battle_result@.turns_run,
            final(self).max_turns_run == (if battle_result@.turns_run > old(
                self,
            ).max_turns_run {
                battle_result@.turns_run
            } else {
                old(self).max_turns_run
            }),
            spec_hist(final(self).accumulation@) == spec_bump(
                spec_hist(old(self).accumulation@),
                (battle_result@.turns_run, spec_label_of(battle_result@)),
            ),
            spec_count_sum(final(self).accumulation@) == spec_count_sum(
                old(self).accumulation@,
            ) + 1,
    {
        let turns = battle_result.turns_run;
        let label = match &battle_result.winner {
            Option::Some(c) => WinnerLabel::Winner {
                team: c.team,
                held_initiative: c.team == battle_result.initiative_winner,
            },
            Option::None => WinnerLabel::NoWinner,
        };
        assert(label == spec_label_of(battle_result@));
        proof {
            lemma_sum_turns_bounds(self.absorbed_turns@);
        }
        self.battle_count = self.battle_count + 1;
        self.total_turns_run = self.total_turns_run + turns as u64;
        if turns > self.max_turns_run {
            self.max_turns_run = turns;
        }
        proof {
            let ts = self.absorbed_turns@.push(turns);
            assert(ts.drop_last() =~= old(self).absorbed_turns@);
            assert(ts.last() == turns);
        }
        self.absorbed_turns = Ghost(self.absorbed_turns@.push(turns));
        let ghost entries = self.accumulation@;
        let ghost key = (turns, label);
        match find_entry(&self.accumulation, turns, label) {
            Some(i) => {
                let e = self.accumulation[i];
                let bumped = HistogramEntry {
                    turns_run: e.turns_run,
                    winner: e.winner,
                    count: e.count + 1,
                };
                proof {
                    lemma_hist_update(entries, i as int, bumped);
                    lemma_hist_at(entries, i as int);
                }
                self.accumulation[i] = bumped;
            },
            None => {
                proof {
                    lemma_hist_absent(entries, key);
                }
                self.accumulation.push(
                    HistogramEntry { turns_run: turns, winner: label, count: 1 },
                );
                proof {
                    let pushed = entries.push(
                        HistogramEntry { turns_run: turns, winner: label, count: 1 },
                    );
                    assert(self.accumulation@ == pushed);
                    assert(pushed.drop_last() =~= entries);
                    assert(spec_hist(pushed) =~= spec_bump(spec_hist(entries), key));
                    assert forall|a: int, b: int| 0 <= a < b < pushed.len() implies spec_key(
                        #[trigger] pushed[a],
                    ) != spec_key(#[trigger] pushed[b]) by {
                        assert(pushed[a] == entries[a]);
                        if b < pushed.len() - 1 {
                            assert(pushed[b] == entries[b]);
                        }
                    }
                }
            },
        }
    }

    /// The batch so far, added up: how many battles were absorbed since
    /// the last reset, their total and average turns, and the longest.
    /// With at least one battle absorbed the summary always exists; the
    /// battle count and total turns are exactly the ghost batch's length
    /// and sum.
    pub fn summarize(&self) -> (r: Option<CollectionSummary>)
        requires
            self.wf(),
        ensures
            self.battle_count == 0 <==> r is None,
            r matches Some(s) ==> {
                &&& s.arena_id == self.arena_id
                &&& s.battle_count == self.absorbed_turns@.len()
                &&& s.total_turns_run == spec_sum_turns(self.absorbed_turns@)
                &&& s.average_turns_run == self.total_turns_run as int / self.battle_count as int
                &&& s.max_turns_run == spec_max_turns(self.absorbed_turns@)
            },
    {
        if self.battle_count == 0 {
            return None;
        }
        let average: u64 = self.total_turns_run / (self.battle_count as u64);
        proof {
            lemma_sum_turns_bounds(self.absorbed_turns@);
            lemma_div_is_ordered(
                self.total_turns_run as int,
                255 * self.battle_count as int,
                self.battle_count as int,
            );
            lemma_div_by_multiple(255, self.battle_count as int);
            assert(255 * self.battle_count as int == self.battle_count as int * 255);
            assert((self.battle_count as int * 255) / self.battle_count as int == 255);
        }
        Some(
            CollectionSummary {
                arena_id: self.arena_id,
                battle_count: self.battle_count,
                total_turns_run: self.total_turns_run,
                average_turns_run: average as u16,
                max_turns_run: self.max_turns_run,
            },
        )
    }

    /// The histogram so far: one cell per (turns run, winner label) with
    /// its occurrence count; the counts add up to the battle count.
    pub fn accumulate_summary(&self) -> (r: Option<CollectionAccumulation>)
        requires
            self.wf(),
        ensures
            r matches Some(a) && a.number_of_battles == self.battle_count && a.accumulation@
                == self.accumulation@,
    {
        let n = self.accumulation.len();
        let mut accumulation: Vec<HistogramEntry> = Vec::new();
        for i in 0..n
            invariant
                n == self.accumulation@.len(),
                accumulation@ == self.accumulation@.take(i as int),
        {
            accumulation.push(self.accumulation[i]);
            assert(self.accumulation@.take(i + 1) =~= self.accumulation@.take(i as int).push(
                self.accumulation@[i as int],
            ));
        }
        proof {
            assert(self.accumulation@.take(n as int) =~= self.accumulation@);
        }
        Some(CollectionAccumulation { number_of_battles: self.battle_count, accumulation })
    }

    /// Emits the current summary and histogram and starts a fresh batch,
    /// bounding memory across arbitrarily long runs.
    pub fn flush_and_reset(&mut self) -> (r: (CollectionSummary, CollectionAccumulation))
        requires
            old(self).wf(),
            old(self).battle_count > 0,
        ensures
            final(self).wf(),
            final(self).arena_id == old(self).arena_id,
            final(self).battle_count == 0,
            final(self).absorbed_turns@ == Seq::<u8>::empty(),
            final(self).accumulation@ == Seq::<HistogramEntry>::empty(),
            r.0.arena_id == old(self).arena_id,
            r.0.battle_count == old(self).absorbed_turns@.len(),
            r.0.total_turns_run == spec_sum_turns(old(self).absorbed_turns@),
            r.0.max_turns_run == spec_max_turns(old(self).absorbed_turns@),
            r.1.number_of_battles == old(self).battle_count,
            r.1.accumulation@ == old(self).accumulation@,
    {
        let summary = self.summarize().unwrap();
        let accumulation = self.accumulate_summary().unwrap();
        let arena_id = self.arena_id;
        *self = BattleResultCollection::new(arena_id);
        (summary, accumulation)
    }
}

} // verus!
