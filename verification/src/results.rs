//! What one battle leaves behind: the actions of each turn, the turn log,
//! and the battle record that the aggregator consumes.

use vstd::prelude::*;

use crate::characterize::CharV;
use crate::characterize::CharacterStruct;
use crate::characterize::Team;

verus! {

/// How an action came out.
#[derive(Clone, Copy, Debug, PartialEq, Eq, Structural)]
pub enum ActionResultType {
    Miss,
    Hit,
}

/// What kind of action a combatant took.
#[derive(Clone, Copy, Debug, PartialEq, Eq, Structural)]
pub enum ActionType {
    Attack,
    NoTarget,
}

/// One action of one combatant: who acted (by slot index), whom it
/// targeted (by slot index, if anyone), the raw roll, the outcome, and
/// the damage dealt.
#[derive(Clone, Copy, Debug, PartialEq, Eq)]
pub struct ActionResult {
    pub action_number: u16,
    pub target: Option<u16>,
    pub action_type: ActionType,
    pub action_roll: u8,
    pub action_result: ActionResultType,
    pub action_damage: u16,
}

/// One turn: its number and the actions taken during it, in order.
#[derive(Debug, PartialEq, Eq)]
pub struct TurnResult {
    pub turn_number: u8,
    pub action_results: Vec<ActionResult>,
}

/// The model of a turn record.
pub ghost struct TurnV {
    pub turn_number: u8,
    pub action_results: Seq<ActionResult>,
}

impl View for TurnResult {
    type V = TurnV;

    open spec fn view(&self) -> TurnV {
        TurnV { turn_number: self.turn_number, action_results: self.action_results@ }
    }
}

/// What a turn added up to.
pub struct TurnResultSummary {
    pub action_count: usize,
    pub number_of_hits: usize,
    pub damage_done: u64,
}

/// The number of hits among `actions`.
pub open spec fn spec_hit_count(actions: Seq<ActionResult>) -> int
    decreases actions.len(),
{
    if actions.len() == 0 {
        0
    } else {
        spec_hit_count(actions.drop_last()) + if actions.last().action_result
            is Hit {
            1int
        } else {
            0int
        }
    }
}

/// The damage dealt over `actions`.
pub open spec fn spec_damage_sum(actions: Seq<ActionResult>) -> int
    decreases actions.len(),
{
    if actions.len() == 0 {
        0
    } else {
        spec_damage_sum(actions.drop_last()) + actions.last().action_damage
    }
}

/// The damage total is bounded by one maximal action per entry.
proof fn lemma_damage_sum_bound(actions: Seq<ActionResult>)
    ensures
        0 <= spec_damage_sum(actions) <= actions.len() * 65535,
        0 <= spec_hit_count(actions) <= actions.len(),
    decreases actions.len(),
{
    if actions.len() > 0 {
        lemma_damage_sum_bound(actions.drop_last());
        assert((actions.len() - 1) * 65535 + 65535 == actions.len() * 65535) by (nonlinear_arith);
    }
}

impl TurnResult {
    /// Adds the turn up: how many actions, how many hits, how much damage.
    pub fn summarize(&self) -> (r: Option<TurnResultSummary>)
        requires
            self@.action_results.len() * 65535 <= u64::MAX,
        ensures
            r matches Some(s) && s.action_count == self@.action_results.len()
                && s.number_of_hits == spec_hit_count(self@.action_results) && s.damage_done
                == spec_damage_sum(self@.action_results),
    {
        let n = self.action_results.len();
        let mut number_of_hits: usize = 0;
        let mut damage_done: u64 = 0;
        proof {
            lemma_damage_sum_bound(self@.action_results);
        }
        for i in 0..n
            invariant
                n == self@.action_results.len(),
                n * 65535 <= u64::MAX,
                number_of_hits == spec_hit_count(self@.action_results.take(i as int)),
                damage_done == spec_damage_sum(self@.action_results.take(i as int)),
            decreases n - i,
        {
            let a = self.action_results[i];
            proof {
                assert(self@.action_results.take(i + 1).drop_last() =~= self@.action_results.take(
                    i as int,
                ));
                assert(self@.action_results.take(i + 1).last() == self@.action_results[i as int]);
                lemma_damage_sum_bound(self@.action_results.take(i as int));
                lemma_damage_sum_bound(self@.action_results.take(i + 1));
                assert(spec_damage_sum(self@.action_results.take(i + 1)) <= (i + 1) * 65535);
                assert((i + 1) * 65535 <= n * 65535) by (nonlinear_arith)
                    requires
                        0 <= i + 1 <= n,
                ;
            }
            match a.action_result {
                ActionResultType::Hit => {
                    number_of_hits = number_of_hits + 1;
                },
                ActionResultType::Miss => {},
            }
            damage_done = damage_done + a.action_damage as u64;
        }
        proof {
            assert(self@.action_results.take(n as int) =~= self@.action_results);
        }
        Some(TurnResultSummary { action_count: n, number_of_hits, damage_done })
    }
}

/// The record of one battle: its per-shard id, how long it ran, who won
/// (if anyone), which side held initiative, and the turn log.
#[derive(Debug, PartialEq, Eq)]
pub struct BattleResult {
    pub battle_id: u32,
    pub turns_run: u8,
    pub winner: Option<CharacterStruct>,
    pub initiative_winner: Team,
    pub turn_result: Vec<TurnResult>,
}

/// The model of a battle record.
pub ghost struct BattleV {
    pub battle_id: u32,
    pub turns_run: u8,
    pub winner: Option<CharV>,
    pub initiative_winner: Team,
    pub turn_result: Seq<TurnV>,
}

impl View for BattleResult {
    type V = BattleV;

    open spec fn view(&self) -> BattleV {
        BattleV {
            battle_id: self.battle_id,
            turns_run: self.turns_run,
            winner: match self.winner {
                Option::Some(c) => Option::Some(c@),
                Option::None => Option::None,
            },
            initiative_winner: self.initiative_winner,
            turn_result: self.turn_result@.map_values(|t: TurnResult| t@),
        }
    }
}

/// The one-line summary of a battle: its id, its length, the winning team
/// (if any), and which side held initiative.
pub struct BattleSummary {
    pub battle_id: u32,
    pub turns_run: u8,
    pub winning_team: Option<Team>,
    pub initiative_winner: Team,
}

/// The winning team a battle record names, if any.
pub open spec fn spec_winning_team(b: BattleV) -> Option<Team> {
    match b.winner {
        Option::Some(c) => Option::Some(c.team),
        Option::None => Option::None,
    }
}

impl BattleResult {
    /// Boils the record down to its summary line.
    pub fn summarize(&self) -> (r: Option<BattleSummary>)
        ensures
            r matches Some(s) && s.battle_id == self@.battle_id && s.turns_run == self@.turns_run
                && s.winning_team == spec_winning_team(self@) && s.initiative_winner
                == self@.initiative_winner,
    {
        let winning_team = match &self.winner {
            Option::Some(c) => Option::Some(c.team),
            Option::None => Option::None,
        };
        Some(
            BattleSummary {
                battle_id: self.battle_id,
                turns_run: self.turns_run,
                winning_team,
                initiative_winner: self.initiative_winner,
            },
        )
    }
}

} // verus!
