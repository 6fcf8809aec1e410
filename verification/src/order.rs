//! Initiative: each roster member rolls one twenty-sided die, and the
//! roster is ordered by the roll, descending, ties keeping the roster's
//! relative order. The slot list that comes out of here is what one
//! battle is fought over.

use vstd::prelude::*;

use crate::chance::ChanceSource;
use crate::dice_thrower::spec_roll_n;
use crate::dice_thrower::roll_dice;
use crate::characterize::CharV;
use crate::characterize::CharacterStruct;
use crate::characterize::Team;
use crate::results::BattleResult;

verus! {

/// How much a run reports as it goes; the library computes the same
/// records whatever the level, and the caller decides what to print.
#[derive(Clone, Copy, Debug, PartialEq, Eq, Structural)]
pub enum ReportOutputLevel {
    NoReport,
    Summary,
    Accumulate,
}

/// One slot of a battle: a rolled initiative value and the combatant,
/// with its team, that holds it for this battle.
#[derive(Debug, PartialEq, Eq)]
pub struct BattleOrder {
    pub initative_roll: u8,
    pub character: CharacterStruct,
    pub team: Team,
}

/// The model of a battle slot.
pub ghost struct OrderV {
    pub initative_roll: u8,
    pub character: CharV,
    pub team: Team,
}

impl View for BattleOrder {
    type V = OrderV;

    open spec fn view(&self) -> OrderV {
        OrderV {
            initative_roll: self.initative_roll,
            character: self.character@,
            team: self.team,
        }
    }
}

impl Clone for BattleOrder {
    fn clone(&self) -> (r: Self)
        ensures
            r@ == self@,
    {
        BattleOrder {
            initative_roll: self.initative_roll,
            character: self.character.clone(),
            team: self.team,
        }
    }
}

impl OrderV {
    /// A usable slot: the combatant is well formed and the slot's team is
    /// the combatant's own.
    pub open spec fn wf(self) -> bool {
        self.character.wf() && self.team == self.character.team
    }
}

/// The models of a sequence of slots.
pub open spec fn order_views(s: Seq<BattleOrder>) -> Seq<OrderV> {
    s.map_values(|o: BattleOrder| o@)
}

/// The models of a roster.
pub open spec fn char_views(s: Seq<CharacterStruct>) -> Seq<CharV> {
    s.map_values(|c: CharacterStruct| c@)
}

/// Slots ordered by initiative, highest first.
pub open spec fn spec_sorted_desc(s: Seq<OrderV>) -> bool {
    forall|i: int, j: int|
        0 <= i < j < s.len() ==> #[trigger] s[i].initative_roll >= #[trigger] s[j].initative_roll
}

/// Where `x` goes in the descending list `s`: after every slot that rolled
/// at least as much.
pub open spec fn spec_insert_pos(x: OrderV, s: Seq<OrderV>) -> int
    decreases s.len(),
{
    if s.len() == 0 {
        0
    } else if s[0].initative_roll >= x.initative_roll {
        1 + spec_insert_pos(x, s.drop_first())
    } else {
        0
    }
}

/// `x` inserted into the descending list `s`, after every slot that
/// rolled at least as much: ties keep the earlier slot first.
pub open spec fn spec_insert_desc(x: OrderV, s: Seq<OrderV>) -> Seq<OrderV>
    decreases s.len(),
{
    if s.len() == 0 {
        seq![x]
    } else if s[0].initative_roll >= x.initative_roll {
        seq![s[0]] + spec_insert_desc(x, s.drop_first())
    } else {
        seq![x] + s
    }
}

/// The slots of `s` sorted by initiative, highest first, ties keeping
/// their order in `s`.
pub open spec fn spec_sort_desc(s: Seq<OrderV>) -> Seq<OrderV>
    decreases s.len(),
{
    if s.len() == 0 {
        Seq::empty()
    } else {
        spec_insert_desc(s.last(), spec_sort_desc(s.drop_last()))
    }
}

/// The slots of `s` that rolled exactly `v`, in their order in `s`.
pub open spec fn filter_roll(s: Seq<OrderV>, v: u8) -> Seq<OrderV>
    decreases s.len(),
{
    if s.len() == 0 {
        Seq::empty()
    } else if s[0].initative_roll == v {
        seq![s[0]] + filter_roll(s.drop_first(), v)
    } else {
        filter_roll(s.drop_first(), v)
    }
}

proof fn lemma_filter_roll_empty(v: u8)
    ensures
        filter_roll(Seq::<OrderV>::empty(), v) == Seq::<OrderV>::empty(),
{
}

proof fn lemma_filter_roll_singleton(x: OrderV, v: u8)
    ensures
        filter_roll(seq![x], v) == (if x.initative_roll == v {
            seq![x]
        } else {
            Seq::<OrderV>::empty()
        }),
{
    lemma_filter_roll_empty(v);
    assert(seq![x].drop_first() =~= Seq::<OrderV>::empty());
    if x.initative_roll == v {
        assert(seq![x] + Seq::<OrderV>::empty() =~= seq![x]);
    }
}

proof fn lemma_filter_roll_concat(a: Seq<OrderV>, b: Seq<OrderV>, v: u8)
    ensures
        filter_roll(a + b, v) == filter_roll(a, v) + filter_roll(b, v),
    decreases a.len(),
{
    if a.len() == 0 {
        assert(a + b =~= b);
        assert(filter_roll(a, v) + filter_roll(b, v) =~= filter_roll(b, v));
    } else {
        lemma_filter_roll_concat(a.drop_first(), b, v);
        assert((a + b).drop_first() =~= a.drop_first() + b);
        assert((a + b)[0] == a[0]);
        if a[0].initative_roll == v {
            assert(seq![a[0]] + (filter_roll(a.drop_first(), v) + filter_roll(b, v)) =~= (seq![
                a[0],
            ] + filter_roll(a.drop_first(), v)) + filter_roll(b, v));
        }
    }
}

proof fn lemma_filter_roll_none(s: Seq<OrderV>, v: u8)
    requires
        forall|i: int| 0 <= i < s.len() ==> s[i].initative_roll != v,
    ensures
        filter_roll(s, v) == Seq::<OrderV>::empty(),
    decreases s.len(),
{
    if s.len() > 0 {
        assert(forall|i: int| 0 <= i < s.drop_first().len() ==> s.drop_first()[i].initative_roll
            != v);
        lemma_filter_roll_none(s.drop_first(), v);
    }
}

/// The insertion position splits a sorted list: at least as large before
/// it, strictly smaller from it on.
proof fn lemma_insert_pos_props(x: OrderV, s: Seq<OrderV>)
    requires
        spec_sorted_desc(s),
    ensures
        0 <= spec_insert_pos(x, s) <= s.len(),
        forall|j: int| 0 <= j < spec_insert_pos(x, s) ==> s[j].initative_roll
            >= x.initative_roll,
        forall|j: int| spec_insert_pos(x, s) <= j < s.len() ==> s[j].initative_roll
            < x.initative_roll,
    decreases s.len(),
{
    if s.len() > 0 {
        let rest = s.drop_first();
        assert(forall|i: int| 0 <= i < rest.len() ==> rest[i] == s[i + 1]);
        assert forall|i: int, j: int| 0 <= i < j < rest.len() implies #[trigger] rest[i].initative_roll
            >= #[trigger] rest[j].initative_roll by {
            assert(s[i + 1].initative_roll >= s[j + 1].initative_roll);
        }
        lemma_insert_pos_props(x, rest);
        let p = spec_insert_pos(x, s);
        if s[0].initative_roll >= x.initative_roll {
            assert(p == 1 + spec_insert_pos(x, rest));
            assert forall|j: int| 0 <= j < p implies #[trigger] s[j].initative_roll
                >= x.initative_roll by {
                if j > 0 {
                    assert(s[j] == rest[j - 1]);
                }
            }
            assert forall|j: int| p <= j < s.len() implies #[trigger] s[j].initative_roll
                < x.initative_roll by {
                assert(s[j] == rest[j - 1]);
            }
        } else {
            assert(p == 0);
            assert forall|j: int| 0 <= j < s.len() implies #[trigger] s[j].initative_roll
                < x.initative_roll by {
                if j > 0 {
                    assert(s[0].initative_roll >= s[j].initative_roll);
                }
            }
        }
    }
}

/// Inserting at the insertion position is what `spec_insert_desc` does.
proof fn lemma_insert_desc_eq(x: OrderV, s: Seq<OrderV>)
    ensures
        0 <= spec_insert_pos(x, s) <= s.len(),
        spec_insert_desc(x, s) == s.insert(spec_insert_pos(x, s), x),
    decreases s.len(),
{
    if s.len() == 0 {
        assert(s.insert(0, x) =~= seq![x]);
    } else if s[0].initative_roll >= x.initative_roll {
        lemma_insert_desc_eq(x, s.drop_first());
        let p = spec_insert_pos(x, s.drop_first());
        assert(seq![s[0]] + s.drop_first().insert(p, x) =~= s.insert(p + 1, x));
    } else {
        assert(seq![x] + s =~= s.insert(0, x));
    }
}

/// What inserting one slot into a sorted list does: the list stays
/// sorted, gains exactly that slot, and the slots of each roll value
/// keep their order, the new one joining the back of its own value's
/// run.
proof fn lemma_insert_desc_props(x: OrderV, s: Seq<OrderV>)
    requires
        spec_sorted_desc(s),
    ensures
        spec_insert_desc(x, s).len() == s.len() + 1,
        spec_insert_desc(x, s).to_multiset() == s.to_multiset().insert(x),
        spec_sorted_desc(spec_insert_desc(x, s)),
        forall|v: u8| x.initative_roll == v ==> filter_roll(spec_insert_desc(x, s), v)
            == filter_roll(s, v) + seq![x],
        forall|v: u8| x.initative_roll != v ==> filter_roll(spec_insert_desc(x, s), v)
            == filter_roll(s, v),
{
    let p = spec_insert_pos(x, s);
    let t = spec_insert_desc(x, s);
    lemma_insert_pos_props(x, s);
    lemma_insert_desc_eq(x, s);
    assert(t =~= s.take(p) + seq![x] + s.skip(p));
    assert(s =~= s.take(p) + s.skip(p));
    assert(forall|i: int| 0 <= i < s.skip(p).len() ==> s.skip(p)[i] == s[p + i]);
    assert(forall|i: int| 0 <= i < s.take(p).len() ==> s.take(p)[i] == s[i]);

    // the multiset gains exactly x
    vstd::seq_lib::to_multiset_insert(s, p, x);

    // sortedness, slot by slot
    assert forall|i: int, j: int| 0 <= i < j < t.len() implies t[i].initative_roll
        >= t[j].initative_roll by {
        if i < p {
            assert(t[i] == s[i]);
        } else if i == p {
            assert(t[i] == x);
        } else {
            assert(t[i] == s[i - 1]);
        }
        if j < p {
            assert(t[j] == s[j]);
        } else if j == p {
            assert(t[j] == x);
        } else {
            assert(t[j] == s[j - 1]);
        }
    }

    // stability: the filters of each roll value
    assert forall|v: u8| x.initative_roll == v implies filter_roll(t, v) == filter_roll(s, v)
        + seq![x] by {
        lemma_filter_roll_concat(s.take(p) + seq![x], s.skip(p), v);
        lemma_filter_roll_concat(s.take(p), seq![x], v);
        lemma_filter_roll_concat(s.take(p), s.skip(p), v);
        lemma_filter_roll_singleton(x, v);
        assert(forall|i: int| 0 <= i < s.skip(p).len() ==> (#[trigger] s.skip(
            p,
        )[i]).initative_roll != v);
        lemma_filter_roll_none(s.skip(p), v);
        assert(filter_roll(t, v) =~= (filter_roll(s.take(p), v) + seq![x]) + filter_roll(
            s.skip(p),
            v,
        ));
        assert(filter_roll(s, v) =~= filter_roll(s.take(p), v) + filter_roll(s.skip(p), v));
        assert(filter_roll(s, v) =~= filter_roll(s.take(p), v));
        assert(filter_roll(t, v) =~= filter_roll(s, v) + seq![x]);
    }
    assert forall|v: u8| x.initative_roll != v implies filter_roll(t, v) == filter_roll(s, v) by {
        lemma_filter_roll_concat(s.take(p) + seq![x], s.skip(p), v);
        lemma_filter_roll_concat(s.take(p), seq![x], v);
        lemma_filter_roll_concat(s.take(p), s.skip(p), v);
        lemma_filter_roll_singleton(x, v);
        assert(filter_roll(t, v) =~= (filter_roll(s.take(p), v) + Seq::<OrderV>::empty())
            + filter_roll(s.skip(p), v));
        assert(filter_roll(s, v) =~= filter_roll(s.take(p), v) + filter_roll(s.skip(p), v));
        assert(filter_roll(t, v) =~= filter_roll(s, v));
    }
}

/// Law: sorting by initiative yields a permutation of the slots (the
/// multisets agree), ordered by roll descending, and slots that rolled
/// the same value keep their relative order.
pub proof fn lemma_sort_desc_properties(s: Seq<OrderV>)
    ensures
        spec_sort_desc(s).len() == s.len(),
        spec_sort_desc(s).to_multiset() == s.to_multiset(),
        spec_sorted_desc(spec_sort_desc(s)),
        forall|v: u8| #[trigger] filter_roll(spec_sort_desc(s), v) == filter_roll(s, v),
    decreases s.len(),
{
    broadcast use vstd::seq_lib::group_to_multiset_ensures;

    if s.len() == 0 {
    } else {
        let dl = s.drop_last();
        lemma_sort_desc_properties(dl);
        lemma_insert_desc_props(s.last(), spec_sort_desc(dl));
        assert(s =~= dl.push(s.last()));
        assert(spec_sort_desc(s) == spec_insert_desc(s.last(), spec_sort_desc(dl)));
        assert(spec_sort_desc(s).to_multiset() == s.to_multiset()) by {
            assert(spec_sort_desc(s).to_multiset() =~= spec_sort_desc(dl).to_multiset().insert(
                s.last(),
            ));
            assert(dl.push(s.last()).to_multiset() =~= dl.to_multiset().insert(s.last()));
            assert(s.to_multiset() =~= dl.to_multiset().insert(s.last()));
        }
        assert forall|v: u8| #[trigger] filter_roll(spec_sort_desc(s), v) == filter_roll(s, v) by {
            lemma_filter_roll_concat(dl, seq![s.last()], v);
            assert(s =~= dl + seq![s.last()]);
            lemma_filter_roll_singleton(s.last(), v);
            let ins = spec_insert_desc(s.last(), spec_sort_desc(dl));
            if s.last().initative_roll == v {
                assert(filter_roll(ins, v) == filter_roll(spec_sort_desc(dl), v) + seq![
                    s.last(),
                ]);
                assert(filter_roll(s, v) == filter_roll(dl, v) + seq![s.last()]);
            } else {
                assert(filter_roll(ins, v) == filter_roll(spec_sort_desc(dl), v));
                assert(filter_roll(s, v) =~= filter_roll(dl, v));
            }
        }
    }
}

/// The list one battle is fought over: the sorted slots, how much to
/// report, and the record the battle fills in as it runs.
#[derive(Debug, PartialEq, Eq)]
pub struct BattleOrderList {
    pub battle_order_list: Vec<BattleOrder>,
    pub report_level: ReportOutputLevel,
    pub battle_result: BattleResult,
}

/// The slots a seeded source rolls for a roster, one twenty-sided die
/// each, in roster order, and the generator state left afterwards.
pub open spec fn spec_roll_initiative(ps: Seq<CharV>, state: u64) -> (Seq<OrderV>, u64)
    decreases ps.len(),
{
    if ps.len() == 0 {
        (Seq::<OrderV>::empty(), state)
    } else {
        let roll = spec_roll_n(1, 20, state, 0);
        let slot = OrderV {
            initative_roll: roll.0 as u8,
            character: ps[0],
            team: ps[0].team,
        };
        let rest = spec_roll_initiative(ps.drop_first(), roll.1);
        (seq![slot] + rest.0, rest.1)
    }
}

/// What any initiative roll, seeded or not, leaves: each roster member in
/// its slot, with its own team, and a roll within the die's range.
pub open spec fn spec_rolled_from(rolled: Seq<OrderV>, ps: Seq<CharV>) -> bool {
    rolled.len() == ps.len() && forall|i: int|
        0 <= i < ps.len() ==> ((#[trigger] rolled[i]).character == ps[i] && rolled[i].team
            == ps[i].team && 1 <= rolled[i].initative_roll <= 20)
}

/// The model of a battle record before any battle has run.
pub open spec fn spec_empty_battle() -> crate::results::BattleV {
    crate::results::BattleV {
        battle_id: 0,
        turns_run: 0,
        winner: Option::None,
        initiative_winner: Team::Heros,
        turn_result: Seq::empty(),
    }
}

/// Puts `x` where it belongs in a descending list: after every slot that
/// rolled at least as much.
fn insert_sorted(sorted: &mut Vec<BattleOrder>, x: BattleOrder)
    requires
        spec_sorted_desc(order_views(old(sorted)@)),
    ensures
        order_views(final(sorted)@) == spec_insert_desc(x@, order_views(old(sorted)@)),
        spec_sorted_desc(order_views(final(sorted)@)),
{
    let ghost s = order_views(old(sorted)@);
    let n = sorted.len();
    let mut p: usize = 0;
    while p < n && sorted[p].initative_roll >= x.initative_roll
        invariant
            n == sorted@.len(),
            p <= n,
            sorted@ == old(sorted)@,
            s == order_views(sorted@),
            forall|j: int| 0 <= j < p ==> (#[trigger] s[j]).initative_roll >= x@.initative_roll,
        decreases n - p,
    {
        assert(s[p as int].initative_roll == sorted@[p as int].initative_roll);
        p = p + 1;
    }
    proof {
        lemma_insert_pos_props(x@, s);
        lemma_insert_desc_eq(x@, s);
        let q = spec_insert_pos(x@, s);
        if p < q {
            assert(s[p as int].initative_roll >= x@.initative_roll);
            assert(s[p as int].initative_roll == sorted@[p as int].initative_roll);
        }
        if q < p {
            assert(s[q].initative_roll >= x@.initative_roll);
            assert(s[q].initative_roll < x@.initative_roll);
        }
        assert(p == q);
        lemma_insert_desc_props(x@, s);
    }
    sorted.insert(p, x);
    assert(order_views(sorted@) =~= s.insert(p as int, x@));
}

/// Sorts slots by initiative, highest first, ties keeping their order.
fn sort_orders(list: &Vec<BattleOrder>) -> (r: Vec<BattleOrder>)
    ensures
        order_views(r@) == spec_sort_desc(order_views(list@)),
        spec_sorted_desc(order_views(r@)),
{
    let mut sorted: Vec<BattleOrder> = Vec::new();
    let n = list.len();
    let ghost full = order_views(list@);
    proof {
        assert(order_views(sorted@) =~= Seq::<OrderV>::empty());
        assert(full.take(0) =~= Seq::<OrderV>::empty());
    }
    for i in 0..n
        invariant
            n == list@.len(),
            full == order_views(list@),
            order_views(sorted@) == spec_sort_desc(full.take(i as int)),
            spec_sorted_desc(order_views(sorted@)),
    {
        let x = list[i].clone();
        proof {
            assert(full.take(i + 1).drop_last() =~= full.take(i as int));
            assert(full.take(i + 1).last() == full[i as int]);
            assert(full[i as int] == list@[i as int]@);
        }
        insert_sorted(&mut sorted, x);
    }
    proof {
        assert(full.take(n as int) =~= full);
    }
    sorted
}

/// Rolls one twenty-sided die per roster member, in roster order.
fn roll_initiative(players: &[CharacterStruct], source: &mut ChanceSource) -> (r: Vec<
    BattleOrder,
>)
    ensures
        final(source).seeded == old(source).seeded,
        !old(source).seeded ==> final(source).state == old(source).state,
        old(source).seeded ==> order_views(r@) == spec_roll_initiative(
            char_views(players@),
            old(source).state,
        ).0,
        old(source).seeded ==> final(source).state == spec_roll_initiative(
            char_views(players@),
            old(source).state,
        ).1,
        spec_rolled_from(order_views(r@), char_views(players@)),
{
    let mut rolled_vec: Vec<BattleOrder> = Vec::new();
    let n = players.len();
    let ghost ps = char_views(players@);
    let ghost rolled_full = spec_roll_initiative(ps, old(source).state);
    proof {
        assert(ps.skip(0) =~= ps);
    }
    for i in 0..n
        invariant
            n == players@.len(),
            ps == char_views(players@),
            rolled_vec@.len() == i,
            source.seeded == old(source).seeded,
            !old(source).seeded ==> source.state == old(source).state,
            forall|j: int|
                0 <= j < i ==> ((#[trigger] rolled_vec@[j])@.character == ps[j]
                    && rolled_vec@[j]@.team == ps[j].team && 1 <= rolled_vec@[j]@.initative_roll
                    <= 20),
            old(source).seeded ==> order_views(rolled_vec@) + spec_roll_initiative(
                ps.skip(i as int),
                source.state,
            ).0 == rolled_full.0,
            old(source).seeded ==> spec_roll_initiative(ps.skip(i as int), source.state).1
                == rolled_full.1,
    {
        let ghost pre_state = source.state;
        let roll_res = roll_dice(1, 20, source);
        let player = &players[i];
        let order = BattleOrder {
            initative_roll: roll_res.total as u8,
            character: player.clone(),
            team: player.team,
        };
        let ghost rv0 = rolled_vec@;
        rolled_vec.push(order);
        proof {
            assert(ps.skip(i as int).drop_first() =~= ps.skip(i + 1));
            assert(ps.skip(i as int)[0] == ps[i as int]);
            assert(order_views(rolled_vec@) =~= order_views(rv0) + seq![order@]);
            if old(source).seeded {
                assert(order@ == spec_roll_initiative(ps.skip(i as int), pre_state).0[0]);
                assert(order_views(rolled_vec@) + spec_roll_initiative(ps.skip(i + 1), source.state).0
                    =~= order_views(rv0) + spec_roll_initiative(ps.skip(i as int), pre_state).0);
            }
        }
    }
    proof {
        assert(ps.skip(n as int) =~= Seq::<CharV>::empty());
        if old(source).seeded {
            assert(order_views(rolled_vec@) + Seq::<OrderV>::empty() =~= order_views(rolled_vec@));
        }
    }
    rolled_vec
}

/// Rolls initiative for the roster and orders the slots by the roll,
/// highest first, ties keeping roster order. With a seeded source the
/// whole list is a function of the roster and the seed; with any source
/// the list is a sorted permutation of the roster's slots.
pub fn make_battle_order_list(
    players: &[CharacterStruct],
    report_level: &ReportOutputLevel,
    source: &mut ChanceSource,
) -> (r: BattleOrderList)
    ensures
        final(source).seeded == old(source).seeded,
        !old(source).seeded ==> final(source).state == old(source).state,
        old(source).seeded ==> order_views(r.battle_order_list@) == spec_sort_desc(
            spec_roll_initiative(char_views(players@), old(source).state).0,
        ),
        old(source).seeded ==> final(source).state == spec_roll_initiative(
            char_views(players@),
            old(source).state,
        ).1,
        exists|rolled: Seq<OrderV>|
            #[trigger] spec_rolled_from(rolled, char_views(players@)) && order_views(
                r.battle_order_list@,
            ) == spec_sort_desc(rolled),
        r.battle_order_list@.len() == players@.len(),
        spec_sorted_desc(order_views(r.battle_order_list@)),
        r.report_level == *report_level,
        r.battle_result@ == spec_empty_battle(),
{
    let rolled_vec = roll_initiative(players, source);
    let battle_order_list = sort_orders(&rolled_vec);
    proof {
        let w = order_views(rolled_vec@);
        assert(spec_rolled_from(w, char_views(players@)));
        lemma_sort_desc_properties(w);
    }
    let battle_result = BattleResult {
        battle_id: 0,
        turns_run: 0,
        winner: Option::None,
        initiative_winner: Team::Heros,
        turn_result: Vec::new(),
    };
    assert(battle_result@.turn_result =~= Seq::<crate::results::TurnV>::empty());
    BattleOrderList {
        battle_order_list,
        report_level: *report_level,
        battle_result,
    }
}

/// Every slot of a sorted roll of a well-formed roster is well formed:
/// sorting permutes the rolled slots, and each rolled slot carries one
/// roster member with its own team.
pub proof fn lemma_rolled_sorted_wf(rolled: Seq<OrderV>, ps: Seq<CharV>)
    requires
        spec_rolled_from(rolled, ps),
        forall|i: int| 0 <= i < ps.len() ==> (#[trigger] ps[i]).wf(),
    ensures
        forall|i: int| 0 <= i < spec_sort_desc(rolled).len() ==> (#[trigger] spec_sort_desc(
            rolled,
        )[i]).wf(),
{
    broadcast use vstd::seq_lib::group_to_multiset_ensures;

    lemma_sort_desc_properties(rolled);
    let sorted = spec_sort_desc(rolled);
    assert forall|i: int| 0 <= i < sorted.len() implies (#[trigger] sorted[i]).wf() by {
        assert(sorted.contains(sorted[i]));
        assert(sorted.to_multiset().count(sorted[i]) > 0);
        assert(rolled.to_multiset().count(sorted[i]) > 0);
        assert(rolled.contains(sorted[i]));
        let j = choose|j: int| 0 <= j < rolled.len() && rolled[j] == sorted[i];
        assert(rolled[j].character == ps[j]);
    }
}

} // verus!
