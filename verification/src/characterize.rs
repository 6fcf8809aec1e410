//! The combatant model: the character sheet, its team, and the health state
//! machine that damage drives.

use vstd::prelude::*;

verus! {

/// Damage beyond this bound kills an incapacitated combatant outright.
pub const KO_THRESHOLD: u16 = 10;

/// The side a combatant fights for; equality partitions a roster into the
/// two opposing sides.
#[derive(Clone, Copy, Debug, PartialEq, Eq, Structural)]
pub enum Team {
    Heros,
    Villains,
}

impl Team {
    /// The label under which this team appears in emitted records.
    pub fn label(&self) -> (r: String)
        ensures
            self == Team::Heros ==> r@ == "Heros"@,
            self == Team::Villains ==> r@ == "Villans"@,
    {
        match self {
            Team::Heros => "Heros".to_owned(),
            Team::Villains => "Villans".to_owned(),
        }
    }
}

/// A combatant's health, as a three-state machine: `Dead` is absorbing,
/// `Ko` (incapacitated) can still be killed by heavy damage, and `Alive`
/// carries the remaining hit points.
#[derive(Clone, Copy, Debug, PartialEq, Eq, Structural)]
pub enum HealthState {
    Dead,
    Ko,
    Alive(u16),
}

/// The health state that a signed hit-point balance settles into: negative
/// is death, exactly zero is incapacitation, positive stays alive.
pub open spec fn spec_state_of(hit_points: int) -> HealthState {
    if hit_points < 0 {
        HealthState::Dead
    } else if hit_points == 0 {
        HealthState::Ko
    } else {
        HealthState::Alive(hit_points as u16)
    }
}

impl HealthState {
    /// `Alive(0)` is never constructed: zero hit points is `Ko`.
    pub open spec fn wf(self) -> bool {
        match self {
            HealthState::Alive(hit_points) => hit_points > 0,
            _ => true,
        }
    }

    /// The transition that one application of damage makes.
    pub open spec fn spec_update(self, damage: u16) -> HealthState {
        match self {
            HealthState::Dead => HealthState::Dead,
            HealthState::Ko => if damage > KO_THRESHOLD {
                HealthState::Dead
            } else {
                HealthState::Ko
            },
            HealthState::Alive(hit_points) => spec_state_of(hit_points - damage),
        }
    }

    /// Applies one round of damage to this state.
    pub fn update_health_state(self, modifier: u16) -> (r: HealthState)
        ensures
            r == self.spec_update(modifier),
            r.wf(),
    {
        match self {
            HealthState::Dead => HealthState::Dead,
            HealthState::Ko => if modifier > KO_THRESHOLD {
                HealthState::Dead
            } else {
                HealthState::Ko
            },
            HealthState::Alive(hit_points) => self.get_new_state_maybe(
                hit_points as i32 - modifier as i32,
            ),
        }
    }

    /// Settles a signed hit-point balance into a health state.
    pub fn get_new_state_maybe(self, integer_state: i32) -> (r: HealthState)
        requires
            integer_state <= u16::MAX,
        ensures
            r == spec_state_of(integer_state as int),
            r.wf(),
    {
        if integer_state < 0 {
            HealthState::Dead
        } else if integer_state == 0 {
            HealthState::Ko
        } else {
            HealthState::Alive(integer_state as u16)
        }
    }
}

/// The health state left after a whole sequence of damage applications.
pub open spec fn spec_apply_damage_seq(h: HealthState, damages: Seq<u16>) -> HealthState
    decreases damages.len(),
{
    if damages.len() == 0 {
        h
    } else {
        spec_apply_damage_seq(h.spec_update(damages[0]), damages.drop_first())
    }
}

/// Law: `Dead` is absorbing. Once a combatant's health state is `Dead`,
/// no damage sequence, of any length, changes it.
pub proof fn lemma_dead_is_absorbing(damages: Seq<u16>)
    ensures
        spec_apply_damage_seq(HealthState::Dead, damages) == HealthState::Dead,
    decreases damages.len(),
{
    if damages.len() > 0 {
        lemma_dead_is_absorbing(damages.drop_first());
    }
}

/// Health states ordered by how close to death they are: `Dead` below
/// `Ko` below `Alive`, and fewer hit points below more.
pub open spec fn hs_le(a: HealthState, b: HealthState) -> bool {
    match (a, b) {
        (HealthState::Dead, _) => true,
        (HealthState::Ko, HealthState::Dead) => false,
        (HealthState::Ko, _) => true,
        (HealthState::Alive(x), HealthState::Alive(y)) => x <= y,
        (HealthState::Alive(_), _) => false,
    }
}

/// Law: damage never heals. Whatever the amount, the state after one
/// application of damage is no healthier than before; in particular a
/// `Dead` combatant stays `Dead`.
pub proof fn lemma_update_never_heals(h: HealthState, damage: u16)
    ensures
        hs_le(h.spec_update(damage), h),
{
}

/// A character sheet: identity, defences, attack capability, and the
/// current health state.
#[derive(Debug, PartialEq, Eq)]
pub struct CharacterStruct {
    pub name: String,
    pub armour_class: u8,
    pub to_hit: u8,
    pub weapon: String,
    pub actions_per_round: u8,
    pub damage: u8,
    pub team: Team,
    pub hs2: HealthState,
}

/// The mathematical model of a character sheet: strings as character
/// sequences, everything else as it stands.
pub ghost struct CharV {
    pub name: Seq<char>,
    pub armour_class: u8,
    pub to_hit: u8,
    pub weapon: Seq<char>,
    pub actions_per_round: u8,
    pub damage: u8,
    pub team: Team,
    pub hs2: HealthState,
}

impl View for CharacterStruct {
    type V = CharV;

    open spec fn view(&self) -> CharV {
        CharV {
            name: self.name@,
            armour_class: self.armour_class,
            to_hit: self.to_hit,
            weapon: self.weapon@,
            actions_per_round: self.actions_per_round,
            damage: self.damage,
            team: self.team,
            hs2: self.hs2,
        }
    }
}

impl CharV {
    /// A usable sheet: the to-hit die has at least one side, and the health
    /// state is well formed.
    pub open spec fn wf(self) -> bool {
        self.to_hit >= 1 && self.hs2.wf()
    }
}

impl Clone for CharacterStruct {
    fn clone(&self) -> (r: Self)
        ensures
            r@ == self@,
    {
        CharacterStruct {
            name: self.name.clone(),
            armour_class: self.armour_class,
            to_hit: self.to_hit,
            weapon: self.weapon.clone(),
            actions_per_round: self.actions_per_round,
            damage: self.damage,
            team: self.team,
            hs2: self.hs2,
        }
    }
}

impl CharacterStruct {
    /// True exactly of a combatant still in the `Alive` state; only such a
    /// combatant may act.
    pub fn is_concious(&self) -> (r: bool)
        ensures
            r == self.hs2 is Alive,
    {
        match self.hs2 {
            HealthState::Dead | HealthState::Ko => false,
            HealthState::Alive(_) => true,
        }
    }

    /// Applies damage to this combatant's health state; every other field
    /// stays as it was.
    pub fn take_damage(self, damage: u16) -> (r: Self)
        ensures
            r@ == (CharV { hs2: self@.hs2.spec_update(damage), ..self@ }),
            r@.hs2.wf(),
    {
        let mut updated = self;
        updated.hs2 = updated.hs2.update_health_state(damage);
        updated
    }
}

/// The model of the demonstration roster that `get_players` returns.
pub open spec fn spec_demo_roster() -> Seq<CharV> {
    seq![
        CharV {
            name: "Hero"@,
            armour_class: 12,
            to_hit: 20,
            weapon: "1d6"@,
            actions_per_round: 1,
            damage: 6,
            team: Team::Heros,
            hs2: HealthState::Alive(10),
        },
        CharV {
            name: "Villan-A"@,
            armour_class: 10,
            to_hit: 20,
            weapon: "1d4"@,
            actions_per_round: 1,
            damage: 4,
            team: Team::Villains,
            hs2: HealthState::Alive(6),
        },
        CharV {
            name: "Villan-B"@,
            armour_class: 10,
            to_hit: 20,
            weapon: "1d4"@,
            actions_per_round: 1,
            damage: 4,
            team: Team::Villains,
            hs2: HealthState::Alive(6),
        },
    ]
}

/// The demonstration roster: one hero against two villains.
pub fn get_players() -> (r: Vec<CharacterStruct>)
    ensures
        r@.map_values(|c: CharacterStruct| c@) == spec_demo_roster(),
        forall|i: int| 0 <= i < r@.len() ==> #[trigger] r@[i]@.wf(),
{
    let player1 = CharacterStruct {
        name: "Hero".to_owned(),
        armour_class: 12,
        to_hit: 20,
        weapon: "1d6".to_owned(),
        actions_per_round: 1,
        damage: 6,
        team: Team::Heros,
        hs2: HealthState::Alive(10),
    };

    let player2 = CharacterStruct {
        name: "Villan-A".to_owned(),
        armour_class: 10,
        to_hit: 20,
        weapon: "1d4".to_owned(),
        actions_per_round: 1,
        damage: 4,
        team: Team::Villains,
        hs2: HealthState::Alive(6),
    };

    let player3 = CharacterStruct {
        name: "Villan-B".to_owned(),
        armour_class: 10,
        to_hit: 20,
        weapon: "1d4".to_owned(),
        actions_per_round: 1,
        damage: 4,
        team: Team::Villains,
        hs2: HealthState::Alive(6),
    };

    let player_vec = vec![player1, player2, player3];
    assert(player_vec@.map_values(|c: CharacterStruct| c@) =~= spec_demo_roster());
    player_vec
}

} // verus!
