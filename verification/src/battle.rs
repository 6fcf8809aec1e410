//! The battle engine: targeting, attack and damage resolution, and win
//! detection over a list of initiative-ordered slots.

use vstd::prelude::*;

use crate::chance::ChanceSource;
use crate::characterize::CharV;
use crate::characterize::CharacterStruct;
use crate::characterize::Team;
use crate::characterize::hs_le;
use crate::characterize::lemma_update_never_heals;
use crate::dice_thrower::parse_request;
use crate::dice_thrower::sat16i;
use crate::dice_thrower::spec_max_total;
use crate::dice_thrower::spec_min_total;
use crate::dice_thrower::roll_dice;
use crate::dice_thrower::spec_parse_request;
use crate::dice_thrower::spec_roll_n;
use crate::dice_thrower::spec_throw;
use crate::dice_thrower::throw_roll;
use crate::order::BattleOrder;
use crate::order::BattleOrderList;
use crate::order::OrderV;
use crate::order::order_views;
use crate::results::ActionResult;
use crate::results::ActionResultType;
use crate::results::ActionType;
use crate::results::BattleResult;
use crate::results::TurnResult;
use crate::results::TurnV;

verus! {

/// What one attack rolled.
pub struct AttackResult {
    pub attack_roll: u8,
    pub _roll_string: String,
}

/// What one damage roll dealt.
#[derive(Clone, Copy, Debug, PartialEq, Eq, Structural)]
pub struct DamageResult {
    pub damage: u8,
}

/// True of a combatant still on its feet.
pub open spec fn spec_conscious(c: CharV) -> bool {
    c.hs2 is Alive
}

/// Every slot of the list is well formed.
pub open spec fn slots_wf(s: Seq<OrderV>) -> bool {
    forall|i: int| 0 <= i < s.len() ==> (#[trigger] s[i]).wf()
}

/// The first slot from `i` on that holds a conscious combatant of a team
/// other than the actor's, if any: the target the actor attacks.
pub open spec fn spec_select_target_from(slots: Seq<OrderV>, actor: CharV, i: int) -> Option<
    int,
>
    decreases slots.len() - i,
{
    if i < 0 || i >= slots.len() {
        Option::None
    } else if slots[i].character.team != actor.team && spec_conscious(slots[i].character) {
        Option::Some(i)
    } else {
        spec_select_target_from(slots, actor, i + 1)
    }
}

/// The slot an actor targets: the first conscious combatant of another
/// team, scanning the list from the front.
pub open spec fn spec_select_target(slots: Seq<OrderV>, actor: CharV) -> Option<int> {
    spec_select_target_from(slots, actor, 0)
}

/// What the selected target satisfies, and that everything before it was
/// no valid target.
proof fn lemma_select_target_from_props(slots: Seq<OrderV>, actor: CharV, i: int)
    requires
        0 <= i,
    ensures
        spec_select_target_from(slots, actor, i) matches Option::Some(t) ==> i <= t
            < slots.len() && slots[t].character.team != actor.team && spec_conscious(
            slots[t].character,
        ) && forall|j: int|
            i <= j < t ==> !((#[trigger] slots[j]).character.team != actor.team
                && spec_conscious(slots[j].character)),
        spec_select_target_from(slots, actor, i) is None ==> forall|j: int|
            i <= j < slots.len() ==> !((#[trigger] slots[j]).character.team != actor.team
                && spec_conscious(slots[j].character)),
    decreases slots.len() - i,
{
    if i < slots.len() {
        lemma_select_target_from_props(slots, actor, i + 1);
    }
}

/// Law: targeting never selects the acting combatant's own slot, and
/// never selects a slot whose combatant is not conscious. Whatever slot
/// the actor stands in, a selected target is a conscious combatant of
/// another team, so in particular not the actor itself.
pub proof fn lemma_select_target_valid(slots: Seq<OrderV>, actor_idx: int)
    requires
        0 <= actor_idx < slots.len(),
    ensures
        spec_select_target(slots, slots[actor_idx].character) matches Option::Some(t) ==> {
            &&& 0 <= t < slots.len()
            &&& t != actor_idx
            &&& spec_conscious(slots[t].character)
            &&& slots[t].character.team != slots[actor_idx].character.team
        },
{
    lemma_select_target_from_props(slots, slots[actor_idx].character, 0);
}

/// The battle is decided: every pair of conscious combatants is on one
/// team — so either all conscious combatants share a team, or none is
/// conscious at all.
pub open spec fn spec_is_there_a_winner(slots: Seq<OrderV>) -> bool {
    forall|i: int, j: int|
        0 <= i < slots.len() && 0 <= j < slots.len() && spec_conscious(
            (#[trigger] slots[i]).character,
        ) && spec_conscious((#[trigger] slots[j]).character) ==> slots[i].team == slots[j].team
}

/// The first slot holding a conscious combatant, if any: the winner's
/// slot once the battle is decided.
pub open spec fn spec_first_conscious_from(slots: Seq<OrderV>, i: int) -> Option<int>
    decreases slots.len() - i,
{
    if i < 0 || i >= slots.len() {
        Option::None
    } else if spec_conscious(slots[i].character) {
        Option::Some(i)
    } else {
        spec_first_conscious_from(slots, i + 1)
    }
}

/// The first slot holding a conscious combatant, if any.
pub open spec fn spec_first_conscious(slots: Seq<OrderV>) -> Option<int> {
    spec_first_conscious_from(slots, 0)
}

proof fn lemma_first_conscious_from_props(slots: Seq<OrderV>, i: int)
    requires
        0 <= i,
    ensures
        spec_first_conscious_from(slots, i) matches Option::Some(t) ==> i <= t < slots.len()
            && spec_conscious(slots[t].character) && forall|j: int|
            i <= j < t ==> !spec_conscious((#[trigger] slots[j]).character),
        spec_first_conscious_from(slots, i) is None ==> forall|j: int|
            i <= j < slots.len() ==> !spec_conscious((#[trigger] slots[j]).character),
    decreases slots.len() - i,
{
    if i < slots.len() {
        lemma_first_conscious_from_props(slots, i + 1);
    }
}

impl CharacterStruct {
    /// Scans the slot list for the first conscious combatant on a team
    /// other than this combatant's, and returns its slot index.
    pub fn select_target(&self, combatant_list: &[BattleOrder]) -> (r: Option<usize>)
        ensures
            ({
                let s = spec_select_target(order_views(combatant_list@), self@);
                &&& r is Some <==> s is Some
                &&& r matches Some(u) ==> s == Option::Some(u as int)
            }),
    {
        let ghost slots = order_views(combatant_list@);
        let n = combatant_list.len();
        for i in 0..n
            invariant
                n == combatant_list@.len(),
                slots == order_views(combatant_list@),
                forall|j: int|
                    0 <= j < i ==> !((#[trigger] slots[j]).character.team != self@.team
                        && spec_conscious(slots[j].character)),
        {
            let target = &combatant_list[i];
            assert(slots[i as int] == combatant_list@[i as int]@);
            if target.character.team != self.team && target.character.is_concious() {
                proof {
                    lemma_select_target_from_props(slots, self@, 0);
                    let s = spec_select_target(slots, self@);
                    if s is None {
                        assert(!(slots[i as int].character.team != self@.team && spec_conscious(
                            slots[i as int].character,
                        )));
                    }
                    let t = s.unwrap();
                    if t < i {
                        assert(!(slots[t].character.team != self@.team && spec_conscious(
                            slots[t].character,
                        )));
                    }
                    if i < t {
                        assert(!(slots[i as int].character.team != self@.team && spec_conscious(
                            slots[i as int].character,
                        )));
                    }
                }
                return Some(i);
            }
        }
        proof {
            lemma_select_target_from_props(slots, self@, 0);
            let s = spec_select_target(slots, self@);
            if s is Some {
                let t = s.unwrap();
                assert(!(slots[t].character.team != self@.team && spec_conscious(
                    slots[t].character,
                )));
            }
        }
        None
    }

    /// True iff the given attack roll beats this combatant's armour
    /// class: the roll must be strictly greater.
    pub fn is_attack_successful(&self, attack_result: &AttackResult) -> (r: bool)
        ensures
            r == (attack_result.attack_roll > self.armour_class),
    {
        if attack_result.attack_roll > self.armour_class {
            return true;
        }
        false
    }

    /// Rolls this combatant's to-hit die once.
    pub fn make_attack(&self, source: &mut ChanceSource) -> (r: AttackResult)
        requires
            self@.to_hit >= 1,
        ensures
            1 <= r.attack_roll <= self@.to_hit,
            r._roll_string@ == self@.weapon,
            final(source).seeded == old(source).seeded,
            !old(source).seeded ==> final(source).state == old(source).state,
            old(source).seeded ==> r.attack_roll == spec_roll_n(
                1,
                self@.to_hit,
                old(source).state,
                0,
            ).0 && final(source).state == spec_roll_n(1, self@.to_hit, old(source).state, 0).1,
    {
        let res = roll_dice(1, self.to_hit, source);
        AttackResult { attack_roll: res.total as u8, _roll_string: self.weapon.clone() }
    }

    /// Rolls this combatant's weapon expression for damage. The weapon's
    /// total is folded into a single byte, as the action records carry it.
    pub fn do_some_damage(&self, source: &mut ChanceSource) -> (r: DamageResult)
        ensures
            final(source).seeded == old(source).seeded,
            !old(source).seeded ==> final(source).state == old(source).state,
            spec_admissible_damage(self@.weapon, r.damage),
            old(source).seeded ==> ({
                let t = spec_throw(spec_parse_request(self@.weapon), old(source).state, 0);
                r.damage == t.0 % 256 && final(source).state == t.1
            }),
    {
        let roll_request = parse_request(self.weapon.as_str()).unwrap();
        let total = throw_roll(&roll_request, source);
        let damage = (total % 256) as u8;
        proof {
            assert(damage == (total as int) % 256);
        }
        DamageResult { damage }
    }
}

impl BattleOrder {
    /// Rolls this slot's combatant's to-hit die once.
    pub fn make_attack(&self, source: &mut ChanceSource) -> (r: AttackResult)
        requires
            self@.character.to_hit >= 1,
        ensures
            1 <= r.attack_roll <= self@.character.to_hit,
            final(source).seeded == old(source).seeded,
            !old(source).seeded ==> final(source).state == old(source).state,
            old(source).seeded ==> r.attack_roll == spec_roll_n(
                1,
                self@.character.to_hit,
                old(source).state,
                0,
            ).0 && final(source).state == spec_roll_n(
                1,
                self@.character.to_hit,
                old(source).state,
                0,
            ).1,
    {
        self.character.make_attack(source)
    }

    /// The slot this combatant attacks, if any.
    pub fn get_target(&self, target_list: &[BattleOrder]) -> (r: Option<usize>)
        ensures
            ({
                let s = spec_select_target(order_views(target_list@), self@.character);
                &&& r is Some <==> s is Some
                &&& r matches Some(u) ==> s == Option::Some(u as int)
            }),
    {
        self.character.select_target(target_list)
    }

    /// True iff the attack beats this slot's combatant's armour class.
    pub fn is_attack_successful(&self, attack_result: &AttackResult) -> (r: bool)
        ensures
            r == (attack_result.attack_roll > self@.character.armour_class),
    {
        self.character.is_attack_successful(attack_result)
    }

    /// Rolls this slot's combatant's weapon for damage.
    pub fn get_damage(&self, source: &mut ChanceSource) -> (r: DamageResult)
        ensures
            final(source).seeded == old(source).seeded,
            !old(source).seeded ==> final(source).state == old(source).state,
            spec_admissible_damage(self@.character.weapon, r.damage),
            old(source).seeded ==> ({
                let t = spec_throw(spec_parse_request(self@.character.weapon), old(source).state, 0);
                r.damage == t.0 % 256 && final(source).state == t.1
            }),
    {
        self.character.do_some_damage(source)
    }

    /// Applies damage to this slot's combatant; only the health state
    /// changes.
    pub fn give_damage(&mut self, damage: u16) -> (r: DamageResult)
        ensures
            final(self)@ == (OrderV {
                character: CharV {
                    hs2: old(self)@.character.hs2.spec_update(damage),
                    ..old(self)@.character
                },
                ..old(self)@
            }),
            final(self)@.character.hs2.wf(),
            r.damage == damage % 256,
    {
        self.character = self.character.clone().take_damage(damage);
        DamageResult { damage: (damage % 256) as u8 }
    }
}

impl BattleOrderList {
    /// True iff the battle is decided: every conscious combatant left
    /// belongs to one team, or none is conscious at all.
    pub fn is_there_a_winner(&self) -> (r: bool)
        ensures
            r == spec_is_there_a_winner(order_views(self.battle_order_list@)),
    {
        let ghost slots = order_views(self.battle_order_list@);
        let mut alive_team: Option<Team> = None;
        let n = self.battle_order_list.len();
        let ghost first = spec_first_conscious(slots);
        proof {
            lemma_first_conscious_from_props(slots, 0);
        }
        for i in 0..n
            invariant
                n == self.battle_order_list@.len(),
                slots == order_views(self.battle_order_list@),
                first == spec_first_conscious(slots),
                alive_team is None ==> forall|j: int|
                    0 <= j < i ==> !spec_conscious((#[trigger] slots[j]).character),
                alive_team matches Some(t) ==> first matches Option::Some(f) && f < i && t
                    == slots[f].team,
                alive_team matches Some(t) ==> forall|j: int|
                    0 <= j < i && spec_conscious((#[trigger] slots[j]).character) ==> slots[j].team
                        == t,
        {
            let player = &self.battle_order_list[i];
            assert(slots[i as int] == self.battle_order_list@[i as int]@);
            if player.character.is_concious() {
                match alive_team {
                    Some(team) => {
                        if team != player.team {
                            proof {
                                lemma_first_conscious_from_props(slots, 0);
                                let f = first.unwrap();
                                assert(spec_conscious(slots[f].character));
                                assert(spec_conscious(slots[i as int].character));
                                assert(slots[f].team != slots[i as int].team);
                            }
                            return false;
                        }
                    },
                    None => {
                        proof {
                            lemma_first_conscious_from_props(slots, 0);
                            if first is Some {
                                let f = first.unwrap();
                                if f < i {
                                    assert(!spec_conscious(slots[f].character));
                                }
                                if i < f {
                                    assert(!spec_conscious(slots[i as int].character));
                                }
                            }
                        }
                        alive_team = Some(player.team);
                    },
                };
            }
        }
        proof {
            if alive_team is None {
                assert forall|i: int, j: int|
                    0 <= i < slots.len() && 0 <= j < slots.len() && spec_conscious(
                        (#[trigger] slots[i]).character,
                    ) && spec_conscious((#[trigger] slots[j]).character) implies slots[i].team
                    == slots[j].team by {}
            } else {
                let t = alive_team.unwrap();
                assert forall|i: int, j: int|
                    0 <= i < slots.len() && 0 <= j < slots.len() && spec_conscious(
                        (#[trigger] slots[i]).character,
                    ) && spec_conscious((#[trigger] slots[j]).character) implies slots[i].team
                    == slots[j].team by {
                    assert(slots[i].team == t);
                    assert(slots[j].team == t);
                }
            }
        }
        true
    }

    /// The first conscious combatant's slot: the winner once the battle
    /// is decided, or nothing after a mutual wipe.
    pub fn get_winner(&self) -> (r: Option<&BattleOrder>)
        ensures
            ({
                let slots = order_views(self.battle_order_list@);
                let f = spec_first_conscious(slots);
                &&& r is Some <==> f is Some
                &&& r matches Some(b) ==> b@ == slots[f.unwrap()]
            }),
    {
        let ghost slots = order_views(self.battle_order_list@);
        proof {
            lemma_first_conscious_from_props(slots, 0);
        }
        let n = self.battle_order_list.len();
        for i in 0..n
            invariant
                n == self.battle_order_list@.len(),
                slots == order_views(self.battle_order_list@),
                forall|j: int| 0 <= j < i ==> !spec_conscious((#[trigger] slots[j]).character),
        {
            let player = &self.battle_order_list[i];
            assert(slots[i as int] == self.battle_order_list@[i as int]@);
            if player.character.is_concious() {
                proof {
                    lemma_first_conscious_from_props(slots, 0);
                    let f = spec_first_conscious(slots).unwrap();
                    if f < i {
                        assert(!spec_conscious(slots[f].character));
                    }
                    if i < f {
                        assert(!spec_conscious(slots[i as int].character));
                    }
                }
                return Some(player);
            }
        }
        None
    }

    /// The combatant whose slot won initiative: the front of the sorted
    /// list.
    pub fn _get_initiative_winner(&self) -> (r: CharacterStruct)
        requires
            self.battle_order_list@.len() > 0,
        ensures
            r@ == order_views(self.battle_order_list@)[0].character,
    {
        self.battle_order_list[0].character.clone()
    }
}

/// `b` is `a` after some damage: every field but the health state is
/// unchanged.
pub open spec fn same_but_health(a: OrderV, b: OrderV) -> bool {
    b.initative_roll == a.initative_roll && b.team == a.team && b.character == (CharV {
        hs2: b.character.hs2,
        ..a.character
    })
}

/// What one damage roll of a combatant's weapon deals, folded into a
/// byte, and the generator state it leaves.
pub open spec fn spec_damage_roll(c: CharV, state: u64) -> (u8, u64) {
    let t = spec_throw(spec_parse_request(c.weapon), state, 0);
    ((t.0 % 256) as u8, t.1)
}

/// A damage value the weapon can actually deal, whatever the source: a
/// total within the weapon expression's range, folded into a byte.
pub open spec fn spec_admissible_damage(weapon: Seq<char>, dmg: u8) -> bool {
    exists|t: int|
        #![trigger t % 256]
        sat16i(spec_min_total(spec_parse_request(weapon))) <= t <= sat16i(
            spec_max_total(spec_parse_request(weapon)),
        ) && dmg == t % 256
}

/// What slot `i` does on its action, under a seeded source: the slots,
/// generator state, and recorded actions it leaves. An unconscious slot
/// does nothing; one without a target records a no-target miss; otherwise
/// the to-hit die rolls, and on a hit the weapon rolls and the target
/// takes the damage.
pub open spec fn spec_act(slots: Seq<OrderV>, state: u64, i: int) -> (
    Seq<OrderV>,
    u64,
    Seq<ActionResult>,
) {
    if !spec_conscious(slots[i].character) {
        (slots, state, Seq::<ActionResult>::empty())
    } else {
        match spec_select_target(slots, slots[i].character) {
            Option::None => (
                slots,
                state,
                seq![
                    ActionResult {
                        action_number: i as u16,
                        target: Option::None,
                        action_type: ActionType::NoTarget,
                        action_roll: 0,
                        action_result: ActionResultType::Miss,
                        action_damage: 0,
                    },
                ],
            ),
            Option::Some(t) => {
                let att = spec_roll_n(1, slots[i].character.to_hit, state, 0);
                let roll = att.0 as u8;
                if roll > slots[t].character.armour_class {
                    let dmg = spec_damage_roll(slots[i].character, att.1);
                    let hurt = OrderV {
                        character: CharV {
                            hs2: slots[t].character.hs2.spec_update(dmg.0 as u16),
                            ..slots[t].character
                        },
                        ..slots[t]
                    };
                    (
                        slots.update(t, hurt),
                        dmg.1,
                        seq![
                            ActionResult {
                                action_number: i as u16,
                                target: Option::Some(t as u16),
                                action_type: ActionType::Attack,
                                action_roll: roll,
                                action_result: ActionResultType::Hit,
                                action_damage: dmg.0 as u16,
                            },
                        ],
                    )
                } else {
                    (
                        slots,
                        att.1,
                        seq![
                            ActionResult {
                                action_number: i as u16,
                                target: Option::Some(t as u16),
                                action_type: ActionType::Attack,
                                action_roll: roll,
                                action_result: ActionResultType::Miss,
                                action_damage: 0,
                            },
                        ],
                    )
                }
            },
        }
    }
}

/// One whole turn from slot `i` on, under a seeded source: each slot in
/// initiative order acts against the list as the previous actions left
/// it.
pub open spec fn spec_turn_from(slots: Seq<OrderV>, state: u64, i: int) -> (
    Seq<OrderV>,
    u64,
    Seq<ActionResult>,
)
    decreases slots.len() - i,
    via spec_turn_from_decreases
{
    if i < 0 || i >= slots.len() {
        (slots, state, Seq::<ActionResult>::empty())
    } else {
        let step = spec_act(slots, state, i);
        let rest = spec_turn_from(step.0, step.1, i + 1);
        (rest.0, rest.1, step.2 + rest.2)
    }
}

#[via_fn]
proof fn spec_turn_from_decreases(slots: Seq<OrderV>, state: u64, i: int) {
    if 0 <= i < slots.len() {
        lemma_spec_act_len(slots, state, i);
    }
}

/// Acting never changes how many slots there are.
pub proof fn lemma_spec_act_len(slots: Seq<OrderV>, state: u64, i: int)
    requires
        0 <= i < slots.len(),
    ensures
        spec_act(slots, state, i).0.len() == slots.len(),
{
    lemma_select_target_from_props(slots, slots[i].character, 0);
}

/// The actions an action option records: none, or the one taken.
pub open spec fn action_seq(r: Option<ActionResult>) -> Seq<ActionResult> {
    match r {
        Option::Some(a) => seq![a],
        Option::None => Seq::<ActionResult>::empty(),
    }
}

/// Slot `t` with `dmg` damage applied to its combatant's health.
pub open spec fn spec_hurt(slot: OrderV, dmg: u16) -> OrderV {
    OrderV {
        character: CharV { hs2: slot.character.hs2.spec_update(dmg), ..slot.character },
        ..slot
    }
}

/// What one slot's action does, for any chance source. The action record
/// itself carries the rolled values; the relation constrains them to the
/// dice they came from. An unconscious slot does nothing and records
/// nothing; an actor without a target records a no-target miss and
/// changes nothing; otherwise the actor attacks the selected target, the
/// attack roll lies within its to-hit die, a hit is exactly a roll above
/// the target's armour class and applies an admissible weapon damage to
/// the target alone, and a miss changes nothing.
pub open spec fn act_step_rel(
    pre: Seq<OrderV>,
    post: Seq<OrderV>,
    acts: Seq<ActionResult>,
    i: int,
) -> bool {
    if !spec_conscious(pre[i].character) {
        post == pre && acts == Seq::<ActionResult>::empty()
    } else {
        match spec_select_target(pre, pre[i].character) {
            Option::None => post == pre && acts == seq![
                ActionResult {
                    action_number: i as u16,
                    target: Option::None,
                    action_type: ActionType::NoTarget,
                    action_roll: 0,
                    action_result: ActionResultType::Miss,
                    action_damage: 0,
                },
            ],
            Option::Some(t) => acts.len() == 1 && {
                let a = acts[0];
                &&& a.action_number == i as u16
                &&& a.target == Option::Some(t as u16)
                &&& a.action_type == ActionType::Attack
                &&& 1 <= a.action_roll <= pre[i].character.to_hit
                &&& if a.action_roll > pre[t].character.armour_class {
                    &&& a.action_result == ActionResultType::Hit
                    &&& a.action_damage <= 255
                    &&& spec_admissible_damage(pre[i].character.weapon, a.action_damage as u8)
                    &&& post == pre.update(t, spec_hurt(pre[t], a.action_damage))
                } else {
                    &&& a.action_result == ActionResultType::Miss
                    &&& a.action_damage == 0
                    &&& post == pre
                }
            },
        }
    }
}

/// A whole turn's worth of actions over slots `0..i`, for any chance
/// source: some chain of intermediate slot lists in which each slot in
/// order acted as `act_step_rel` says, the records concatenated in
/// initiative order — the last actor's records are the tail of `acts`
/// after the earlier slots' prefix.
pub open spec fn turn_rel_prefix(
    pre: Seq<OrderV>,
    post: Seq<OrderV>,
    acts: Seq<ActionResult>,
    i: int,
) -> bool
    decreases i,
{
    if i <= 0 {
        post == pre && acts == Seq::<ActionResult>::empty()
    } else {
        exists|mid: Seq<OrderV>, a1: Seq<ActionResult>|
            #![trigger act_step_rel(mid, post, acts.skip(a1.len() as int), i - 1)]
            turn_rel_prefix(pre, mid, a1, i - 1) && a1.len() <= acts.len() && a1 == acts.take(
                a1.len() as int,
            ) && act_step_rel(mid, post, acts.skip(a1.len() as int), i - 1)
    }
}

/// One full turn over the whole slot list, for any chance source.
pub open spec fn spec_turn_rel(pre: Seq<OrderV>, post: Seq<OrderV>, acts: Seq<ActionResult>) -> bool {
    turn_rel_prefix(pre, post, acts, pre.len() as int)
}

/// A whole battle's worth of turns, for any chance source: some chain of
/// slot lists in which every recorded turn ran as `spec_turn_rel` says,
/// in order, each starting from a state the win check had left undecided.
pub open spec fn spec_battle_rel(pre: Seq<OrderV>, post: Seq<OrderV>, turns: Seq<TurnV>) -> bool
    decreases turns.len(),
{
    if turns.len() == 0 {
        post == pre
    } else {
        exists|mid: Seq<OrderV>|
            #![trigger spec_turn_rel(mid, post, turns.last().action_results)]
            spec_battle_rel(pre, mid, turns.drop_last()) && !spec_is_there_a_winner(mid)
                && spec_turn_rel(mid, post, turns.last().action_results)
    }
}

/// One complete engine run: turns related as `spec_battle_rel` says,
/// stopping exactly when the win check passes or the turn counter caps —
/// a list decided at the start runs no turn, any other runs at least one.
pub open spec fn spec_engine_run(start: Seq<OrderV>, fin: Seq<OrderV>, log: Seq<TurnV>) -> bool {
    &&& spec_battle_rel(start, fin, log)
    &&& spec_is_there_a_winner(fin) || log.len() == 255
    &&& spec_is_there_a_winner(start) ==> log.len() == 0
    &&& !spec_is_there_a_winner(start) ==> log.len() >= 1
}

/// One more turn extends a battle's relation.
proof fn lemma_battle_rel_extend(
    pre: Seq<OrderV>,
    mid: Seq<OrderV>,
    post: Seq<OrderV>,
    turns: Seq<TurnV>,
    t: TurnV,
)
    requires
        spec_battle_rel(pre, mid, turns),
        !spec_is_there_a_winner(mid),
        spec_turn_rel(mid, post, t.action_results),
    ensures
        spec_battle_rel(pre, post, turns.push(t)),
{
    assert(turns.push(t).drop_last() =~= turns);
    assert(turns.push(t).last() == t);
    assert(spec_turn_rel(mid, post, turns.push(t).last().action_results));
}

/// One more slot acting extends a turn prefix by its records.
proof fn lemma_turn_rel_step(
    pre: Seq<OrderV>,
    mid: Seq<OrderV>,
    post: Seq<OrderV>,
    a1: Seq<ActionResult>,
    a2: Seq<ActionResult>,
    i: int,
)
    requires
        i >= 0,
        turn_rel_prefix(pre, mid, a1, i),
        act_step_rel(mid, post, a2, i),
    ensures
        turn_rel_prefix(pre, post, a1 + a2, i + 1),
{
    assert(turn_rel_prefix(pre, mid, a1, (i + 1) - 1));
    assert((a1 + a2).take(a1.len() as int) =~= a1);
    assert((a1 + a2).skip(a1.len() as int) =~= a2);
    assert(act_step_rel(mid, post, (a1 + a2).skip(a1.len() as int), (i + 1) - 1));
}

/// Lets slot `i` act: selects its target, resolves the attack, and
/// applies any damage in place.
fn act_slot(turn_order: &mut Vec<BattleOrder>, i: usize, source: &mut ChanceSource) -> (r:
    Option<ActionResult>)
    requires
        i < old(turn_order)@.len(),
        old(turn_order)@.len() <= 65535,
        slots_wf(order_views(old(turn_order)@)),
    ensures
        final(turn_order)@.len() == old(turn_order)@.len(),
        slots_wf(order_views(final(turn_order)@)),
        forall|j: int|
            0 <= j < old(turn_order)@.len() ==> same_but_health(
                #[trigger] order_views(old(turn_order)@)[j],
                order_views(final(turn_order)@)[j],
            ),
        act_step_rel(
            order_views(old(turn_order)@),
            order_views(final(turn_order)@),
            action_seq(r),
            i as int,
        ),
        forall|j: int|
            0 <= j < old(turn_order)@.len() ==> hs_le(
                order_views(final(turn_order)@)[j].character.hs2,
                (#[trigger] order_views(old(turn_order)@)[j]).character.hs2,
            ),
        final(source).seeded == old(source).seeded,
        !old(source).seeded ==> final(source).state == old(source).state,
        old(source).seeded ==> ({
            let step = spec_act(order_views(old(turn_order)@), old(source).state, i as int);
            order_views(final(turn_order)@) == step.0 && final(source).state == step.1
                && action_seq(r) == step.2
        }),
{
    let ghost slots = order_views(turn_order@);
    if !turn_order[i].character.is_concious() {
        assert(slots[i as int] == turn_order@[i as int]@);
        proof {
            assert(action_seq(Option::<ActionResult>::None) =~= Seq::<ActionResult>::empty());
        }
        return None;
    }
    assert(slots[i as int] == turn_order@[i as int]@);
    let target_opt = turn_order[i].get_target(turn_order.as_slice());
    proof {
        lemma_select_target_from_props(slots, slots[i as int].character, 0);
    }
    match target_opt {
        None => {
            let record = ActionResult {
                action_number: i as u16,
                target: None,
                action_type: ActionType::NoTarget,
                action_roll: 0,
                action_result: ActionResultType::Miss,
                action_damage: 0,
            };
            proof {
                assert(action_seq(Some(record)) =~= seq![record]);
            }
            Some(record)
        },
        Some(target) => {
            let a_res = turn_order[i].make_attack(source);
            assert(slots[target as int] == turn_order@[target as int]@);
            if turn_order[target].is_attack_successful(&a_res) {
                let d_res = turn_order[i].get_damage(source);
                let mut tgt = turn_order[target].clone();
                tgt.give_damage(d_res.damage as u16);
                let ghost pre = turn_order@;
                turn_order[target] = tgt;
                assert(order_views(turn_order@) =~= order_views(pre).update(
                    target as int,
                    tgt@,
                ));
                let record = ActionResult {
                    action_number: i as u16,
                    target: Some(target as u16),
                    action_type: ActionType::Attack,
                    action_roll: a_res.attack_roll,
                    action_result: ActionResultType::Hit,
                    action_damage: d_res.damage as u16,
                };
                proof {
                    assert(order_views(pre) == slots);
                    assert(tgt@ == spec_hurt(slots[target as int], d_res.damage as u16));
                    assert(record.action_damage as u8 == d_res.damage);
                    assert(action_seq(Some(record)) =~= seq![record]);
                    assert forall|j: int| 0 <= j < slots.len() implies hs_le(
                        order_views(turn_order@)[j].character.hs2,
                        (#[trigger] slots[j]).character.hs2,
                    ) by {
                        if j == target {
                            lemma_update_never_heals(
                                slots[j].character.hs2,
                                d_res.damage as u16,
                            );
                        }
                    }
                }
                Some(record)
            } else {
                let record = ActionResult {
                    action_number: i as u16,
                    target: Some(target as u16),
                    action_type: ActionType::Attack,
                    action_roll: a_res.attack_roll,
                    action_result: ActionResultType::Miss,
                    action_damage: 0,
                };
                proof {
                    assert(action_seq(Some(record)) =~= seq![record]);
                }
                Some(record)
            }
        },
    }
}

/// One whole battle from turn `turn` on, under a seeded source: turns
/// run until the win check after a full turn passes, or the turn counter
/// reaches its cap undecided.
pub open spec fn spec_run_battle_from(slots: Seq<OrderV>, state: u64, turn: u8) -> (
    Seq<OrderV>,
    u64,
    Seq<TurnV>,
    u8,
    bool,
)
    decreases 256 - turn,
{
    let t = spec_turn_from(slots, state, 0);
    let rec = TurnV { turn_number: turn, action_results: t.2 };
    if spec_is_there_a_winner(t.0) {
        (t.0, t.1, seq![rec], turn, true)
    } else if turn >= 255 {
        (t.0, t.1, seq![rec], turn, false)
    } else {
        let rest = spec_run_battle_from(t.0, t.1, (turn + 1) as u8);
        (rest.0, rest.1, seq![rec] + rest.2, rest.3, rest.4)
    }
}

/// What a whole battle leaves, under a seeded source: a list that is
/// already decided runs no turn at all; otherwise turns run from one.
pub open spec fn spec_battle_outcome(slots: Seq<OrderV>, state: u64) -> (
    Seq<OrderV>,
    u64,
    Seq<TurnV>,
    u8,
    bool,
) {
    if spec_is_there_a_winner(slots) {
        (slots, state, Seq::<TurnV>::empty(), 0, true)
    } else {
        spec_run_battle_from(slots, state, 1)
    }
}

impl BattleOrderList {
    /// Runs one full turn: each slot in initiative order, if conscious,
    /// selects a target and attacks; the turn's actions are appended to
    /// the battle record. Whatever the chance source, the turn satisfies
    /// `spec_turn_rel` — one record per slot conscious when reached, the
    /// hit rule on every attack, only targets hurt — and no combatant's
    /// health ever rises; with a seeded source the turn is pinned exactly.
    #[verifier::rlimit(100)]
    pub fn run_battle_turn(self, turn_number: u8, source: &mut ChanceSource) -> (r: Self)
        requires
            slots_wf(order_views(self.battle_order_list@)),
            self.battle_order_list@.len() <= 65535,
        ensures
            r.report_level == self.report_level,
            r.battle_order_list@.len() == self.battle_order_list@.len(),
            slots_wf(order_views(r.battle_order_list@)),
            forall|j: int|
                0 <= j < self.battle_order_list@.len() ==> same_but_health(
                    #[trigger] order_views(self.battle_order_list@)[j],
                    order_views(r.battle_order_list@)[j],
                ),
            r.battle_result@.battle_id == self.battle_result@.battle_id,
            r.battle_result@.turns_run == self.battle_result@.turns_run,
            r.battle_result@.winner == self.battle_result@.winner,
            r.battle_result@.initiative_winner == self.battle_result@.initiative_winner,
            r.battle_result@.turn_result.len() == self.battle_result@.turn_result.len() + 1,
            r.battle_result@.turn_result == self.battle_result@.turn_result.push(
                r.battle_result@.turn_result.last(),
            ),
            r.battle_result@.turn_result.last().turn_number == turn_number,
            spec_turn_rel(
                order_views(self.battle_order_list@),
                order_views(r.battle_order_list@),
                r.battle_result@.turn_result.last().action_results,
            ),
            forall|j: int|
                0 <= j < self.battle_order_list@.len() ==> hs_le(
                    order_views(r.battle_order_list@)[j].character.hs2,
                    (#[trigger] order_views(self.battle_order_list@)[j]).character.hs2,
                ),
            final(source).seeded == old(source).seeded,
            !old(source).seeded ==> final(source).state == old(source).state,
            old(source).seeded ==> ({
                let t = spec_turn_from(order_views(self.battle_order_list@), old(source).state, 0);
                &&& order_views(r.battle_order_list@) == t.0
                &&& final(source).state == t.1
                &&& r.battle_result@.turn_result == self.battle_result@.turn_result.push(
                    TurnV { turn_number, action_results: t.2 },
                )
            }),
    {
        let BattleOrderList { battle_order_list, report_level, battle_result } = self;
        let mut turn_order = battle_order_list;
        let mut battle_result = battle_result;
        let ghost v0 = order_views(turn_order@);
        let ghost s0 = source.state;
        let ghost full = spec_turn_from(v0, s0, 0);
        let n = turn_order.len();
        let mut turn_result = TurnResult { turn_number, action_results: Vec::new() };
        proof {
            assert(turn_result.action_results@ + full.2 =~= full.2);
            assert(turn_result.action_results@ =~= Seq::<ActionResult>::empty());
        }
        for i in 0..n
            invariant
                n == turn_order@.len(),
                n <= 65535,
                v0.len() == n,
                full == spec_turn_from(v0, s0, 0),
                slots_wf(order_views(turn_order@)),
                forall|j: int|
                    0 <= j < n ==> same_but_health(#[trigger] v0[j], order_views(turn_order@)[j]),
                turn_rel_prefix(v0, order_views(turn_order@), turn_result.action_results@, i as int),
                forall|j: int|
                    0 <= j < n ==> hs_le(
                        order_views(turn_order@)[j].character.hs2,
                        (#[trigger] v0[j]).character.hs2,
                    ),
                source.seeded == old(source).seeded,
                old(source).seeded ==> s0 == old(source).state,
                !old(source).seeded ==> source.state == old(source).state,
                turn_result.turn_number == turn_number,
                old(source).seeded ==> ({
                    let rest = spec_turn_from(order_views(turn_order@), source.state, i as int);
                    &&& rest.0 == full.0
                    &&& rest.1 == full.1
                    &&& turn_result.action_results@ + rest.2 == full.2
                }),
        {
            let ghost pre_views = order_views(turn_order@);
            let ghost pre_state = source.state;
            let ghost pre_actions = turn_result.action_results@;
            let act = act_slot(&mut turn_order, i, source);
            match act {
                Some(a) => turn_result.action_results.push(a),
                None => (),
            }
            proof {
                assert forall|j: int|
                    0 <= j < n implies same_but_health(
                        #[trigger] v0[j],
                        order_views(turn_order@)[j],
                    ) by {
                    assert(same_but_health(v0[j], pre_views[j]));
                    assert(same_but_health(pre_views[j], order_views(turn_order@)[j]));
                }
                assert forall|j: int|
                    0 <= j < n implies hs_le(
                        order_views(turn_order@)[j].character.hs2,
                        (#[trigger] v0[j]).character.hs2,
                    ) by {
                    assert(hs_le(order_views(turn_order@)[j].character.hs2,
                        pre_views[j].character.hs2));
                    assert(hs_le(pre_views[j].character.hs2, v0[j].character.hs2));
                }
                assert(turn_result.action_results@ =~= pre_actions + action_seq(act));
                lemma_turn_rel_step(
                    v0,
                    pre_views,
                    order_views(turn_order@),
                    pre_actions,
                    action_seq(act),
                    i as int,
                );
                if old(source).seeded {
                    let step = spec_act(pre_views, pre_state, i as int);
                    let rest = spec_turn_from(step.0, step.1, i + 1);
                    assert((pre_actions + step.2) + rest.2 =~= pre_actions + (step.2 + rest.2));
                }
            }
        }
        proof {
            if old(source).seeded {
                assert(spec_turn_from(order_views(turn_order@), source.state, n as int).2
                    =~= Seq::<ActionResult>::empty());
                assert(turn_result.action_results@ + Seq::<ActionResult>::empty()
                    =~= turn_result.action_results@);
            }
        }
        let ghost pre_log = battle_result@.turn_result;
        let ghost turn_v = turn_result@;
        battle_result.turn_result.push(turn_result);
        proof {
            assert(battle_result@.turn_result =~= pre_log.push(turn_v));
        }
        BattleOrderList { battle_order_list: turn_order, report_level, battle_result }
    }

    /// Runs a battle to its decision: full turns, each followed by the
    /// win check, until every conscious combatant shares one team or no
    /// one is conscious; a list that starts decided runs zero turns, any
    /// other runs at least one. The turn counter stops at its cap,
    /// leaving such a battle undecided with no winner. On decision the
    /// first conscious slot's combatant is recorded as the winner.
    /// Whatever the chance source, the recorded turns chain as
    /// `spec_battle_rel` says, numbered from one, and no combatant's
    /// health ever rises; with a seeded source the whole battle is pinned
    /// exactly.
    pub fn run_battle(self, battle_num: u32, source: &mut ChanceSource) -> (r: Self)
        requires
            slots_wf(order_views(self.battle_order_list@)),
            0 < self.battle_order_list@.len() <= 65535,
        ensures
            r.report_level == self.report_level,
            r.battle_order_list@.len() == self.battle_order_list@.len(),
            slots_wf(order_views(r.battle_order_list@)),
            forall|j: int|
                0 <= j < self.battle_order_list@.len() ==> same_but_health(
                    #[trigger] order_views(self.battle_order_list@)[j],
                    order_views(r.battle_order_list@)[j],
                ),
            r.battle_result@.battle_id == battle_num,
            r.battle_result@.initiative_winner == order_views(self.battle_order_list@)[0].team,
            r.battle_result@.turn_result.len() == r.battle_result@.turns_run as int,
            ({
                let fin = order_views(r.battle_order_list@);
                let decided = spec_is_there_a_winner(fin);
                &&& (decided && spec_first_conscious(fin) is Some ==> r.battle_result@.winner
                    == Option::Some(fin[spec_first_conscious(fin).unwrap()].character))
                &&& (decided && spec_first_conscious(fin) is None ==> r.battle_result@.winner
                    is None)
                &&& (!decided ==> r.battle_result@.winner is None && r.battle_result@.turns_run
                    == 255)
            }),
            spec_is_there_a_winner(order_views(self.battle_order_list@)) ==> (
            r.battle_result@.turns_run == 0 && order_views(r.battle_order_list@) == order_views(
                self.battle_order_list@,
            )),
            !spec_is_there_a_winner(order_views(self.battle_order_list@))
                ==> r.battle_result@.turns_run >= 1,
            spec_battle_rel(
                order_views(self.battle_order_list@),
                order_views(r.battle_order_list@),
                r.battle_result@.turn_result,
            ),
            forall|k: int|
                0 <= k < r.battle_result@.turn_result.len() ==> (
                #[trigger] r.battle_result@.turn_result[k]).turn_number == k + 1,
            forall|j: int|
                0 <= j < self.battle_order_list@.len() ==> hs_le(
                    order_views(r.battle_order_list@)[j].character.hs2,
                    (#[trigger] order_views(self.battle_order_list@)[j]).character.hs2,
                ),
            final(source).seeded == old(source).seeded,
            !old(source).seeded ==> final(source).state == old(source).state,
            old(source).seeded ==> ({
                let o = spec_battle_outcome(
                    order_views(self.battle_order_list@),
                    old(source).state,
                );
                &&& order_views(r.battle_order_list@) == o.0
                &&& final(source).state == o.1
                &&& r.battle_result@.turn_result == o.2
                &&& r.battle_result@.turns_run == o.3
                &&& spec_is_there_a_winner(order_views(r.battle_order_list@)) == o.4
            }),
    {
        let ghost v0 = order_views(self.battle_order_list@);
        let ghost s0 = source.state;
        let ghost full = spec_battle_outcome(v0, s0);
        let mut current = self;
        let initiative_team = current.battle_order_list[0].team;
        current.battle_result = BattleResult {
            battle_id: battle_num,
            turns_run: 0,
            winner: None,
            initiative_winner: initiative_team,
            turn_result: Vec::new(),
        };
        proof {
            assert(current.battle_result@.turn_result =~= Seq::<TurnV>::empty());
            assert(Seq::<TurnV>::empty() + full.2 =~= full.2);
            assert(order_views(current.battle_order_list@) == v0);
            assert(spec_battle_rel(v0, order_views(current.battle_order_list@),
                current.battle_result@.turn_result));
        }
        let mut turn_number: u8 = 0;
        let mut decided = current.is_there_a_winner();
        while !decided && turn_number < 255
            invariant
                v0.len() == current.battle_order_list@.len(),
                0 < v0.len() <= 65535,
                full == spec_battle_outcome(v0, s0),
                slots_wf(order_views(current.battle_order_list@)),
                forall|j: int|
                    0 <= j < v0.len() ==> same_but_health(
                        #[trigger] v0[j],
                        order_views(current.battle_order_list@)[j],
                    ),
                current.report_level == self.report_level,
                current.battle_result@.battle_id == battle_num,
                current.battle_result@.initiative_winner == v0[0].team,
                current.battle_result@.winner is None,
                current.battle_result@.turns_run == 0,
                current.battle_result@.turn_result.len() == turn_number as int,
                decided == spec_is_there_a_winner(order_views(current.battle_order_list@)),
                spec_is_there_a_winner(v0) ==> (turn_number == 0 && order_views(
                    current.battle_order_list@,
                ) == v0),
                turn_number == 0 ==> order_views(current.battle_order_list@) == v0,
                spec_battle_rel(v0, order_views(current.battle_order_list@),
                    current.battle_result@.turn_result),
                forall|k: int|
                    0 <= k < current.battle_result@.turn_result.len() ==> (
                    #[trigger] current.battle_result@.turn_result[k]).turn_number == k + 1,
                forall|j: int|
                    0 <= j < v0.len() ==> hs_le(
                        order_views(current.battle_order_list@)[j].character.hs2,
                        (#[trigger] v0[j]).character.hs2,
                    ),
                source.seeded == old(source).seeded,
                old(source).seeded ==> s0 == old(source).state,
                !old(source).seeded ==> source.state == old(source).state,
                turn_number <= 255,
                old(source).seeded ==> ({
                    if decided {
                        &&& order_views(current.battle_order_list@) == full.0
                        &&& source.state == full.1
                        &&& current.battle_result@.turn_result == full.2
                        &&& turn_number == full.3
                        &&& full.4
                    } else if turn_number < 255 {
                        let rest = spec_run_battle_from(
                            order_views(current.battle_order_list@),
                            source.state,
                            (turn_number + 1) as u8,
                        );
                        &&& rest.0 == full.0
                        &&& rest.1 == full.1
                        &&& current.battle_result@.turn_result + rest.2 == full.2
                        &&& rest.3 == full.3
                        &&& rest.4 == full.4
                    } else {
                        &&& order_views(current.battle_order_list@) == full.0
                        &&& source.state == full.1
                        &&& current.battle_result@.turn_result == full.2
                        &&& turn_number == full.3
                        &&& !full.4
                    }
                }),
            decreases 255 - turn_number,
        {
            let next_turn = turn_number + 1;
            let ghost pre_views = order_views(current.battle_order_list@);
            let ghost pre_state = source.state;
            let ghost pre_log = current.battle_result@.turn_result;
            current = current.run_battle_turn(next_turn, source);
            turn_number = next_turn;
            decided = current.is_there_a_winner();
            proof {
                assert forall|j: int|
                    0 <= j < v0.len() implies same_but_health(
                        #[trigger] v0[j],
                        order_views(current.battle_order_list@)[j],
                    ) by {
                    assert(same_but_health(v0[j], pre_views[j]));
                    assert(same_but_health(pre_views[j], order_views(current.battle_order_list@)[j]));
                }
                assert forall|j: int|
                    0 <= j < v0.len() implies hs_le(
                        order_views(current.battle_order_list@)[j].character.hs2,
                        (#[trigger] v0[j]).character.hs2,
                    ) by {
                    assert(hs_le(order_views(current.battle_order_list@)[j].character.hs2,
                        pre_views[j].character.hs2));
                    assert(hs_le(pre_views[j].character.hs2, v0[j].character.hs2));
                }
                let last_turn = current.battle_result@.turn_result.last();
                assert(current.battle_result@.turn_result == pre_log.push(last_turn));
                lemma_battle_rel_extend(
                    v0,
                    pre_views,
                    order_views(current.battle_order_list@),
                    pre_log,
                    last_turn,
                );
                assert forall|k: int|
                    0 <= k < current.battle_result@.turn_result.len() implies (
                    #[trigger] current.battle_result@.turn_result[k]).turn_number == k + 1 by {
                    if k < pre_log.len() {
                        assert(current.battle_result@.turn_result[k] == pre_log[k]);
                    }
                }
                if old(source).seeded {
                    let t = spec_turn_from(pre_views, pre_state, 0);
                    let rec = TurnV { turn_number: next_turn, action_results: t.2 };
                    assert(current.battle_result@.turn_result =~= pre_log + seq![rec]);
                    if !decided && next_turn < 255 {
                        let rest = spec_run_battle_from(t.0, t.1, (next_turn + 1) as u8);
                        assert((pre_log + seq![rec]) + rest.2 =~= pre_log + (seq![rec] + rest.2));
                    }
                }
            }
        }
        proof {
            if !spec_is_there_a_winner(v0) && turn_number == 0 {
                assert(order_views(current.battle_order_list@) == v0);
                assert(!decided);
            }
        }
        current.battle_result.turns_run = turn_number;
        if decided {
            let w = current.get_winner();
            match w {
                Some(b) => {
                    let c = b.character.clone();
                    current.battle_result.winner = Some(c);
                },
                None => {},
            }
        }
        current
    }
}

/// Law: a list of exactly one slot is already decided — with a single
/// combatant every conscious pair trivially shares a team — so a battle
/// over it reports a winner immediately, with zero turns run.
pub proof fn lemma_single_combatant_decided(slots: Seq<OrderV>)
    requires
        slots.len() == 1,
    ensures
        spec_is_there_a_winner(slots),
{
}

} // verus!
