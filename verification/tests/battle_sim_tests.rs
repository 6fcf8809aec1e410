use battle_sim::aggregate::BattleResultCollection;
use battle_sim::aggregate::WinnerLabel;
use battle_sim::battle::AttackResult;
use battle_sim::chance::ChanceSource;
use battle_sim::characterize::get_players;
use battle_sim::characterize::CharacterStruct;
use battle_sim::characterize::HealthState;
use battle_sim::characterize::Team;
use battle_sim::dice_thrower::parse_request;
use battle_sim::dice_thrower::throw_roll;
use battle_sim::dice_thrower::DiceThrowDescription;
use battle_sim::dice_thrower::DiceThrowModifier;
use battle_sim::dice_thrower::ModifierOperators;
use battle_sim::dice_thrower::RequestToken;
use battle_sim::order::make_battle_order_list;
use battle_sim::order::ReportOutputLevel;
use battle_sim::results::ActionResult;
use battle_sim::results::ActionResultType;
use battle_sim::results::ActionType;
use battle_sim::results::BattleResult;
use battle_sim::results::TurnResult;
use battle_sim::runner::battle;

#[test]
fn test_make_battle_order_list() {
    let players = get_players();
    let mut source = ChanceSource::seeded(1);
    let test_list = make_battle_order_list(&players, &ReportOutputLevel::Summary, &mut source);
    assert_ne!(test_list.battle_order_list.len(), 0, "no list");
}

#[test]
fn test_order_of_make_battler_order_list() {
    let players = get_players();
    let mut source = ChanceSource::seeded(1);
    let test_list = make_battle_order_list(&players, &ReportOutputLevel::Summary, &mut source);
    assert_eq!(
        test_list.battle_order_list[0].initative_roll > test_list.battle_order_list[1].initative_roll,
        true,
        "list not ordered"
    );
}

#[test]
fn get_players_test() {
    let list = get_players();
    assert_ne!(list.len(), 0, "Character get fail")
}

#[test]
fn select_target_test() {
    let players = get_players();
    let mut source = ChanceSource::seeded(1);
    let test_list = make_battle_order_list(&players, &ReportOutputLevel::Summary, &mut source);
    let target = test_list.battle_order_list[0]
        .character
        .select_target(&test_list.battle_order_list);

    assert_ne!(target, Some(0), "select_target selected self");
    match target {
        Some(index) => assert_eq!(
            test_list.battle_order_list[index].character.is_concious(),
            true
        ),
        None => (),
    }
}

#[test]
fn is_concious_test() {
    let players = get_players();

    let mut actor = players[0].clone();
    assert_eq!(actor.is_concious(), true);

    actor.hs2 = HealthState::Ko;
    assert_eq!(actor.is_concious(), false);

    actor.hs2 = HealthState::Dead;
    assert_eq!(actor.is_concious(), false);
}

#[test]
fn take_damage_test() {
    let players = get_players();
    let mut actor = players[0].clone();
    let original_health_state = actor.hs2;

    actor = actor.take_damage(5);
    assert_ne!(original_health_state, actor.hs2);
}

#[test]
fn is_winner_test() {
    let players = get_players();
    let mut source = ChanceSource::seeded(1);
    let order_list = make_battle_order_list(&players, &ReportOutputLevel::Summary, &mut source);

    assert_eq!(order_list.is_there_a_winner(), false);

    let one_list = vec![players[0].clone()];
    let one_order_list = make_battle_order_list(&one_list, &ReportOutputLevel::Summary, &mut source);

    assert_eq!(one_order_list.is_there_a_winner(), true);
}

#[test]
fn is_attack_successful() {
    let players = get_players();
    let successful_attack = AttackResult {
        attack_roll: 20,
        _roll_string: "1d12".to_string(),
    };
    let failure_attack = AttackResult {
        attack_roll: 1,
        _roll_string: "1d12".to_string(),
    };

    assert_eq!(players[0].is_attack_successful(&successful_attack), true);
    assert_eq!(players[0].is_attack_successful(&failure_attack), false);
}

#[test]
fn health_state_transitions() {
    assert_eq!(HealthState::Alive(10).update_health_state(5), HealthState::Alive(5));
    assert_eq!(HealthState::Alive(5).update_health_state(5), HealthState::Ko);
    assert_eq!(HealthState::Alive(3).update_health_state(5), HealthState::Dead);
    assert_eq!(HealthState::Ko.update_health_state(10), HealthState::Ko);
    assert_eq!(HealthState::Ko.update_health_state(11), HealthState::Dead);
    assert_eq!(HealthState::Dead.update_health_state(0), HealthState::Dead);
}

#[test]
fn dead_stays_dead_under_any_damage() {
    let mut state = HealthState::Alive(1);
    state = state.update_health_state(50);
    assert_eq!(state, HealthState::Dead);
    for damage in [0u16, 1, 10, 11, 255, 65535] {
        state = state.update_health_state(damage);
        assert_eq!(state, HealthState::Dead);
    }
}

#[test]
fn parse_request_reads_terms() {
    let req = parse_request("1d6").unwrap();
    assert_eq!(
        req.request_list,
        vec![RequestToken::Dice(DiceThrowDescription {
            number_of_dice: 1,
            number_of_die_sides: 6,
        })]
    );

    let req = parse_request("d20").unwrap();
    assert_eq!(
        req.request_list,
        vec![RequestToken::Dice(DiceThrowDescription {
            number_of_dice: 1,
            number_of_die_sides: 20,
        })]
    );

    let req = parse_request("2+1d4").unwrap();
    assert_eq!(
        req.request_list,
        vec![
            RequestToken::Modifier(DiceThrowModifier {
                operator: ModifierOperators::Add,
                value: 2,
            }),
            RequestToken::Dice(DiceThrowDescription {
                number_of_dice: 1,
                number_of_die_sides: 4,
            }),
        ]
    );

    let req = parse_request(" 1 d 6 ").unwrap();
    assert_eq!(
        req.request_list,
        vec![RequestToken::Dice(DiceThrowDescription {
            number_of_dice: 1,
            number_of_die_sides: 6,
        })]
    );
}

#[test]
fn parse_request_flags_bad_terms() {
    assert_eq!(parse_request("xd6").unwrap().request_list, vec![RequestToken::Error]);
    assert_eq!(parse_request("1d0").unwrap().request_list, vec![RequestToken::Error]);
    assert_eq!(parse_request("").unwrap().request_list, vec![RequestToken::Error]);
    assert_eq!(parse_request("300").unwrap().request_list, vec![RequestToken::Error]);
    assert_eq!(parse_request("1d6d3").unwrap().request_list, vec![RequestToken::Error]);
    assert_eq!(
        parse_request("1d6+bogus").unwrap().request_list,
        vec![
            RequestToken::Dice(DiceThrowDescription {
                number_of_dice: 1,
                number_of_die_sides: 6,
            }),
            RequestToken::Error,
        ]
    );
}

#[test]
fn throw_roll_seeded_is_exact() {
    let req = parse_request("2d6+3").unwrap();
    let mut source = ChanceSource::seeded(42);
    let total = throw_roll(&req, &mut source);
    assert_eq!(total, 11);
}

#[test]
fn throw_roll_stays_in_range() {
    let req = parse_request("2d6+3").unwrap();
    let mut source = ChanceSource::system();
    for _ in 0..50 {
        let total = throw_roll(&req, &mut source);
        assert!(5 <= total && total <= 15);
    }
}

#[test]
fn system_rolls_cover_the_range() {
    let mut source = ChanceSource::system();
    assert_eq!(source.roll(1), 1);
    let mut seen_one = false;
    let mut seen_two = false;
    for _ in 0..200 {
        match source.roll(2) {
            1 => seen_one = true,
            2 => seen_two = true,
            other => panic!("roll of a two-sided die came out as {}", other),
        }
    }
    assert!(seen_one && seen_two);
}

#[test]
fn team_labels() {
    assert_eq!(Team::Heros.label(), "Heros");
    assert_eq!(Team::Villains.label(), "Villans");
}

#[test]
fn same_seed_same_battle_records() {
    let run = |seed: u64| -> BattleResult {
        let players = get_players();
        let mut source = ChanceSource::seeded(seed);
        let list = make_battle_order_list(&players, &ReportOutputLevel::NoReport, &mut source);
        let finished = list.run_battle(7, &mut source);
        finished.battle_result
    };
    let first = run(99);
    let second = run(99);
    assert_eq!(first, second);

    let other = run(100);
    assert_eq!(other, run(100));
}

#[test]
fn scenario_single_battle_ends_with_a_winner() {
    let players = get_players();
    let mut source = ChanceSource::seeded(1);
    let list = make_battle_order_list(&players, &ReportOutputLevel::NoReport, &mut source);
    let finished = list.run_battle(0, &mut source);
    assert!(finished.is_there_a_winner());
    let record = finished.battle_result;
    assert!(record.turns_run >= 1 && record.turns_run <= 20);
    assert_eq!(record.turn_result.len(), record.turns_run as usize);
    assert!(!record.turn_result.is_empty());
    assert!(!record.turn_result[0].action_results.is_empty());
    let winner = record.winner.expect("a decided battle names its winner");
    assert_eq!(winner.team, Team::Heros);
    assert_eq!(winner.name, "Hero");
}

#[test]
fn scenario_thousand_battles_aggregate() {
    let players = get_players();
    let mut source = ChanceSource::seeded(5);
    let (collection, flushes) =
        battle(&players, 1000, 3, &ReportOutputLevel::NoReport, &mut source);

    assert!(flushes.is_empty());
    assert_eq!(collection.battle_count, 1000);
    let summary = collection.summarize().expect("battles were absorbed");
    assert_eq!(summary.battle_count, 1000);
    assert_eq!(summary.arena_id, 3);

    let accumulation = collection.accumulate_summary().expect("histogram exists");
    assert_eq!(accumulation.number_of_battles, 1000);
    let count_sum: u64 = accumulation
        .accumulation
        .iter()
        .map(|entry| entry.count as u64)
        .sum();
    assert_eq!(count_sum, 1000);
}

#[test]
fn runner_flushes_at_the_trigger() {
    let players = get_players();
    let mut source = ChanceSource::seeded(11);
    let count = battle_sim::runner::WRITE_TO_FILE_TRIGGER + 2;
    let (collection, flushes) =
        battle(&players, count, 1, &ReportOutputLevel::NoReport, &mut source);

    assert_eq!(flushes.len(), 1);
    assert_eq!(flushes[0].0.battle_count, battle_sim::runner::WRITE_TO_FILE_TRIGGER);
    assert_eq!(flushes[0].1.number_of_battles, battle_sim::runner::WRITE_TO_FILE_TRIGGER);
    assert_eq!(collection.battle_count, 2);
    let flushed_histogram_total: u64 = flushes[0]
        .1
        .accumulation
        .iter()
        .map(|entry| entry.count as u64)
        .sum();
    assert_eq!(flushed_histogram_total, battle_sim::runner::WRITE_TO_FILE_TRIGGER as u64);
}

#[test]
fn single_combatant_reports_winner_with_zero_turns() {
    let players = get_players();
    let one_list = vec![players[0].clone()];
    let mut source = ChanceSource::seeded(1);
    let list = make_battle_order_list(&one_list, &ReportOutputLevel::NoReport, &mut source);

    assert_eq!(list.is_there_a_winner(), true);

    let finished = list.run_battle(0, &mut source);
    assert_eq!(finished.battle_result.turns_run, 0);
    assert!(finished.battle_result.turn_result.is_empty());
    let winner = finished.battle_result.winner.expect("the lone combatant wins");
    assert_eq!(winner.name, "Hero");
}

#[test]
fn aggregator_sums_batches() {
    let mut collection = BattleResultCollection::new(9);
    for (id, turns, team) in [(0u32, 2u8, Team::Heros), (1, 3, Team::Heros), (2, 5, Team::Villains)] {
        let record = BattleResult {
            battle_id: id,
            turns_run: turns,
            winner: Some(CharacterStruct {
                name: "x".to_string(),
                armour_class: 10,
                to_hit: 20,
                weapon: "1d4".to_string(),
                actions_per_round: 1,
                damage: 4,
                team,
                hs2: HealthState::Alive(1),
            }),
            initiative_winner: Team::Heros,
            turn_result: Vec::new(),
        };
        collection.absorb(&record);
    }
    let summary = collection.summarize().unwrap();
    assert_eq!(summary.battle_count, 3);
    assert_eq!(summary.total_turns_run, 10);
    assert_eq!(summary.average_turns_run, 3);
    assert_eq!(summary.max_turns_run, 5);

    let accumulation = collection.accumulate_summary().unwrap();
    assert_eq!(accumulation.accumulation.len(), 3);
    let marked = accumulation
        .accumulation
        .iter()
        .find(|entry| entry.turns_run == 2)
        .unwrap();
    assert_eq!(
        marked.winner,
        WinnerLabel::Winner { team: Team::Heros, held_initiative: true }
    );
    let unmarked = accumulation
        .accumulation
        .iter()
        .find(|entry| entry.turns_run == 5)
        .unwrap();
    assert_eq!(
        unmarked.winner,
        WinnerLabel::Winner { team: Team::Villains, held_initiative: false }
    );
}

#[test]
fn aggregator_histogram_merges_equal_keys() {
    let mut collection = BattleResultCollection::new(0);
    for id in 0..4u32 {
        let record = BattleResult {
            battle_id: id,
            turns_run: 7,
            winner: None,
            initiative_winner: Team::Heros,
            turn_result: Vec::new(),
        };
        collection.absorb(&record);
    }
    let accumulation = collection.accumulate_summary().unwrap();
    assert_eq!(accumulation.accumulation.len(), 1);
    assert_eq!(accumulation.accumulation[0].count, 4);
    assert_eq!(accumulation.accumulation[0].winner, WinnerLabel::NoWinner);
}

#[test]
fn empty_aggregator_has_no_summary() {
    let collection = BattleResultCollection::new(0);
    assert!(collection.summarize().is_none());
}

#[test]
fn flush_and_reset_clears_the_batch() {
    let mut collection = BattleResultCollection::new(2);
    let record = BattleResult {
        battle_id: 0,
        turns_run: 4,
        winner: None,
        initiative_winner: Team::Villains,
        turn_result: Vec::new(),
    };
    collection.absorb(&record);
    let (summary, accumulation) = collection.flush_and_reset();
    assert_eq!(summary.battle_count, 1);
    assert_eq!(summary.total_turns_run, 4);
    assert_eq!(accumulation.number_of_battles, 1);
    assert_eq!(collection.battle_count, 0);
    assert!(collection.accumulation.is_empty());
    assert!(collection.summarize().is_none());
}

#[test]
fn give_damage_applies_full_amount_and_reports_low_byte() {
    let players = get_players();
    let mut source = ChanceSource::seeded(1);
    let list = make_battle_order_list(&players, &ReportOutputLevel::NoReport, &mut source);
    let mut slot = list.battle_order_list[0].clone();
    let result = slot.give_damage(1000);
    assert_eq!(result.damage, (1000 % 256) as u8);
    assert_eq!(slot.character.hs2, HealthState::Dead);
}

#[test]
fn turn_summary_adds_up() {
    let hit = ActionResult {
        action_number: 0,
        target: Some(1),
        action_type: ActionType::Attack,
        action_roll: 15,
        action_result: ActionResultType::Hit,
        action_damage: 6,
    };
    let miss = ActionResult {
        action_number: 1,
        target: Some(0),
        action_type: ActionType::Attack,
        action_roll: 3,
        action_result: ActionResultType::Miss,
        action_damage: 0,
    };
    let turn = TurnResult { turn_number: 1, action_results: vec![hit, miss, hit] };
    let summary = turn.summarize().unwrap();
    assert_eq!(summary.action_count, 3);
    assert_eq!(summary.number_of_hits, 2);
    assert_eq!(summary.damage_done, 12);
}

#[test]
fn battle_summary_reads_the_record() {
    let record = BattleResult {
        battle_id: 17,
        turns_run: 9,
        winner: None,
        initiative_winner: Team::Heros,
        turn_result: Vec::new(),
    };
    let summary = record.summarize().unwrap();
    assert_eq!(summary.battle_id, 17);
    assert_eq!(summary.turns_run, 9);
    assert_eq!(summary.winning_team, None);
    assert_eq!(summary.initiative_winner, Team::Heros);
}
