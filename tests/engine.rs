use monopoly_server::action::{Action, Broadcast, BuyPropertyData, DiceRollData, PayRentData, Payload, PlayerAction, PlayerGoTileData, PlayerPayTaxData};
use monopoly_server::board::{
    calculate_utility_cost, count_railroads_owned, find_jail, get_rent_railroad, go_board,
    jail_board, rent_at, standard_board, PropertyLevel, Tile,
};
use monopoly_server::dice::roll_die;
use monopoly_server::game::{Game, Phase, Player};

fn player(id: u128, name: &str, money: u32, position: usize) -> Player {
    Player {
        id,
        name: name.to_owned(),
        money,
        position,
        is_in_jail: false,
        jail_turns: 0,
        is_bankrupt: false,
    }
}

fn game_with(players: Vec<Player>, board: Vec<Tile>) -> Game {
    Game { id: 99, players, board, current_turn: 0, player_turn: 0, phase: Phase::AwaitingRoll }
}

fn property(cost: u32, base_rent: u32, owner: Option<u128>) -> Tile {
    Tile::Property {
        name: "Test Street".to_owned(),
        costs: vec![cost],
        rents: vec![base_rent, 50, 150, 450, 625, 750],
        level: PropertyLevel::Base,
        owner,
    }
}

/// Ten tiles: Go first, an ordinary property at 7, free parking elsewhere.
fn scenario_board() -> Vec<Tile> {
    let mut b = vec![Tile::Go { amount: 200 }];
    for _ in 1..7 {
        b.push(Tile::FreeParking);
    }
    b.push(property(100, 10, None));
    b.push(Tile::FreeParking);
    b.push(Tile::FreeParking);
    b
}

fn is_turn_of(b: &Broadcast, id: u128) -> bool {
    b.action == Action::PlayerTurn && matches!(b.payload, Payload::PlayerId(p) if p == id)
}

#[test]
fn test_roll_dice() {
    let mut game = game_with(vec![player(1, "TestPlayer", 1500, 0)], standard_board());
    let mut out = Vec::new();
    let (d1, d2, departed) = game.handle_action(1, Action::Roll, &mut out);
    assert!(!departed);
    assert!((1..=6).contains(&d1) && (1..=6).contains(&d2));
    assert_eq!(game.players[0].position, (d1 + d2) as usize);
    assert_ne!(game.players[0].position, 0);
    assert_eq!(out[0].action, Action::Roll);
    assert!(matches!(out[0].payload, Payload::Dice(DiceRollData { dice1, dice2 }) if dice1 == d1 && dice2 == d2));
}

#[test]
fn test_roll_dice_in_jail() {
    let mut jailed = player(1, "JailedPlayer", 1500, 10);
    jailed.is_in_jail = true;
    jailed.jail_turns = 3;
    let mut game = game_with(vec![jailed], standard_board());
    let mut out = Vec::new();
    let (roll1, roll2, _) = game.handle_action(1, Action::Roll, &mut out);
    if roll1 == roll2 {
        assert!(!game.players[0].is_in_jail);
        assert_eq!(out[0].action, Action::FreeFromJail);
    } else {
        assert!(game.players[0].is_in_jail);
        assert_eq!(game.players[0].jail_turns, 2);
        assert_eq!(game.players[0].position, 10);
    }
    assert!(!out.is_empty());
}

#[test]
fn test_buy_property() {
    let mut game = game_with(vec![player(7, "Buyer", 1500, 1)], standard_board());
    game.phase = Phase::AwaitingPurchaseDecision;
    let initial_money = game.players[0].money;
    let mut out = Vec::new();
    game.handle_action(7, Action::BuyProperty, &mut out);
    assert!(game.players[0].money < initial_money);
    assert_eq!(game.players[0].money, 1440);
    if let Tile::Property { owner, .. } = &game.board[1] {
        assert_eq!(*owner, Some(7));
    } else {
        panic!("Expected property at position 1");
    }
    assert_eq!(out[0].action, Action::BuyProperty);
    assert!(matches!(out[0].payload, Payload::Purchase(BuyPropertyData { position: 1, player: 7 })));
}

#[test]
fn test_advance_turn() {
    let mut game = game_with(vec![player(1, "Player1", 1500, 0), player(2, "Player2", 1500, 0)], standard_board());
    let mut out = Vec::new();
    game.advance_turn(&mut out);
    assert_eq!(game.player_turn, 1);
    game.advance_turn(&mut out);
    assert_eq!(game.player_turn, 0);
    assert_eq!(game.current_turn, 2);
    assert!(is_turn_of(&out[0], 2) && is_turn_of(&out[1], 1));
}

#[test]
fn test_advance_turn_with_bankrupt_player() {
    let mut bankrupt = player(2, "BankruptPlayer", 0, 0);
    bankrupt.is_bankrupt = true;
    let mut game = game_with(
        vec![player(1, "Player1", 1500, 0), bankrupt, player(3, "Player3", 1500, 0)],
        standard_board(),
    );
    let mut out = Vec::new();
    game.advance_turn(&mut out);
    assert_eq!(game.player_turn, 2);
    assert_eq!(game.phase, Phase::AwaitingRoll);
}

#[test]
fn advance_turn_declares_last_solvent_player_winner() {
    let mut bankrupt = player(2, "Gone", 0, 0);
    bankrupt.is_bankrupt = true;
    let mut game = game_with(vec![player(1, "Winner", 1500, 0), bankrupt], standard_board());
    let mut out = Vec::new();
    game.advance_turn(&mut out);
    assert_eq!(game.phase, Phase::GameOver);
    assert_eq!(out.len(), 1);
    assert_eq!(out[0].action, Action::GameOver);
    assert!(matches!(out[0].payload, Payload::PlayerId(1)));
    let mut more = Vec::new();
    game.handle_action_with(1, Action::Roll, 3, 4, &mut more);
    assert!(more.is_empty());
    assert_eq!(game.players[0].position, 0);
}

#[test]
fn scenario_buy_then_pay_rent() {
    let mut game = game_with(vec![player(10, "A", 1500, 0), player(20, "B", 1500, 0)], scenario_board());
    let mut out = Vec::new();
    game.handle_action_with(10, Action::Roll, 3, 4, &mut out);
    assert_eq!(game.players[0].position, 7);
    assert_eq!(game.phase, Phase::AwaitingPurchaseDecision);
    assert!(matches!(out[1].payload, Payload::Position(7)));
    assert_eq!(out[2].action, Action::AskBuyProperty);
    assert!(matches!(out[2].payload, Payload::Purchase(BuyPropertyData { position: 7, player: 10 })));
    out.clear();
    game.handle_action_with(10, Action::BuyProperty, 1, 1, &mut out);
    assert_eq!(game.players[0].money, 1400);
    assert_eq!(game.board[7].owner(), Some(10));
    assert_eq!(game.player_turn, 1);
    assert!(is_turn_of(&out[1], 20));

    out.clear();
    game.handle_action_with(20, Action::Roll, 3, 4, &mut out);
    assert_eq!(game.players[1].position, 7);
    assert_eq!(game.players[1].money, 1490);
    assert_eq!(game.players[0].money, 1410);
    assert_eq!(out[2].action, Action::PayRent);
    assert!(matches!(out[2].payload, Payload::Rent(PayRentData { rent: 10, owner: 10, player: 20 })));
    assert_eq!(game.player_turn, 0);
    assert!(is_turn_of(&out[3], 10));
}

#[test]
fn skip_leaves_tile_unowned() {
    let mut game = game_with(vec![player(10, "A", 1500, 0), player(20, "B", 1500, 0)], scenario_board());
    let mut out = Vec::new();
    game.handle_action_with(10, Action::Roll, 3, 4, &mut out);
    out.clear();
    game.handle_action_with(10, Action::SkipBuyProperty, 1, 1, &mut out);
    assert_eq!(game.board[7].owner(), None);
    assert_eq!(game.players[0].money, 1500);
    assert_eq!(out[0].action, Action::SkipBuyProperty);
    assert!(is_turn_of(&out[1], 20));
}

#[test]
fn scenario_jail_countdown_runs_out() {
    let mut jailed = player(1, "Jailed", 1500, 0);
    jailed.is_in_jail = true;
    jailed.jail_turns = 1;
    let mut game = game_with(vec![jailed, player(2, "Other", 1500, 0)], scenario_board());
    let mut out = Vec::new();
    game.handle_action_with(1, Action::Roll, 1, 2, &mut out);
    assert!(!game.players[0].is_in_jail);
    assert_eq!(game.players[0].jail_turns, 0);
    assert_eq!(game.players[0].position, 0);
    assert_eq!(game.player_turn, 1);
    game.handle_action_with(2, Action::Roll, 1, 2, &mut out);
    game.handle_action_with(1, Action::Roll, 1, 2, &mut out);
    assert_eq!(game.players[0].position, 3);
}

#[test]
fn three_failed_jail_rolls_free_the_player() {
    let mut jailed = player(1, "Jailed", 1500, 0);
    jailed.is_in_jail = true;
    jailed.jail_turns = 3;
    let mut game = game_with(vec![jailed, player(2, "Other", 1500, 0)], go_board());
    let mut out = Vec::new();
    for round in 0..3 {
        game.handle_action_with(1, Action::Roll, 1, 2, &mut out);
        assert_eq!(game.players[0].position, 0);
        assert_eq!(game.players[0].is_in_jail, round < 2);
        game.handle_action_with(2, Action::Roll, 1, 2, &mut out);
    }
    assert_eq!(game.players[0].jail_turns, 0);
}

#[test]
fn doubles_free_a_jailed_player_whatever_the_countdown() {
    let mut jailed = player(1, "Jailed", 1500, 0);
    jailed.is_in_jail = true;
    jailed.jail_turns = 3;
    let mut game = game_with(vec![jailed, player(2, "Other", 1500, 0)], scenario_board());
    let mut out = Vec::new();
    game.handle_action_with(1, Action::Roll, 2, 2, &mut out);
    assert!(!game.players[0].is_in_jail);
    assert_eq!(game.players[0].position, 4);
    assert_eq!(out[0].action, Action::FreeFromJail);
    assert_eq!(out[2].action, Action::Move);
}

#[test]
fn go_to_jail_sends_player_to_jail_tile() {
    let mut game = game_with(vec![player(1, "A", 1500, 0), player(2, "B", 1500, 0)], jail_board());
    let mut out = Vec::new();
    game.handle_action_with(1, Action::Roll, 2, 1, &mut out);
    assert_eq!(game.players[0].position, 0);
    assert!(game.players[0].is_in_jail);
    assert_eq!(game.players[0].jail_turns, 3);
    assert_eq!(out[2].action, Action::GoToJail);
    assert_eq!(find_jail(&game.board), Some(0));
}

#[test]
fn go_tile_credits_its_amount() {
    let mut game = game_with(vec![player(1, "A", 1500, 0), player(2, "B", 1500, 0)], go_board());
    let mut out = Vec::new();
    game.handle_action_with(1, Action::Roll, 1, 1, &mut out);
    assert_eq!(game.players[0].position, 2);
    assert_eq!(game.players[0].money, 1800);
    assert!(matches!(out[2].payload, Payload::GoCredit(PlayerGoTileData { player: 1, amount: 300 })));
}


#[test]
fn tax_is_paid_or_bankrupts() {
    let board = vec![Tile::Go { amount: 200 }, Tile::FreeParking, Tile::Tax { price: 200 }, Tile::LuxuryTax { price: 100 }];
    let mut game = game_with(vec![player(1, "A", 1500, 0), player(2, "B", 150, 0), player(3, "C", 50, 0)], board);
    let mut out = Vec::new();
    game.handle_action_with(1, Action::Roll, 1, 1, &mut out);
    assert_eq!(game.players[0].money, 1300);
    assert!(matches!(out[2].payload, Payload::Tax(PlayerPayTaxData { player: 1, amount: 200 })));
    out.clear();
    game.handle_action_with(2, Action::Roll, 1, 1, &mut out);
    assert!(game.players[1].is_bankrupt);
    assert_eq!(game.players[1].money, 0);
    assert_eq!(out[2].action, Action::PlayerBankrupt);
    assert!(is_turn_of(&out[3], 3));
    out.clear();
    game.handle_action_with(3, Action::Roll, 1, 2, &mut out);
    assert!(game.players[2].is_bankrupt);
    assert_eq!(game.players[2].money, 0);
    assert_eq!(game.phase, Phase::GameOver);
    assert!(matches!(out.last().unwrap().payload, Payload::PlayerId(1)));
}

#[test]
fn unaffordable_rent_bankrupts_without_paying_owner() {
    let board = vec![Tile::Go { amount: 200 }, Tile::FreeParking, property(100, 30, Some(1))];
    let mut game = game_with(vec![player(2, "Tenant", 20, 0), player(1, "Owner", 500, 1)], board);
    let mut out = Vec::new();
    game.handle_action_with(2, Action::Roll, 1, 1, &mut out);
    assert!(game.players[0].is_bankrupt);
    assert_eq!(game.players[0].money, 0);
    assert_eq!(game.players[1].money, 500);
    assert_eq!(game.phase, Phase::GameOver);
}

#[test]
fn utility_rent_scales_with_utilities_held() {
    let one = vec![Tile::Utility { cost: 150, owner: Some(5) }, Tile::Utility { cost: 150, owner: None }];
    let two = vec![Tile::Utility { cost: 150, owner: Some(5) }, Tile::Utility { cost: 150, owner: Some(5) }];
    assert_eq!(calculate_utility_cost(7, Some(5), &one), 28);
    assert_eq!(calculate_utility_cost(7, Some(5), &two), 70);
    assert_eq!(calculate_utility_cost(7, None, &two), 0);
    assert_eq!(rent_at(&two, 1, 9), 90);
}

#[test]
fn railroad_rent_follows_railroads_held() {
    let rr = |owner| Tile::Railroad { owner, cost: 200, rents: vec![0, 25, 50, 100, 200] };
    let board = vec![rr(Some(3)), rr(Some(3)), rr(Some(4)), rr(None)];
    assert_eq!(count_railroads_owned(&board, 3), 2);
    assert_eq!(get_rent_railroad(&vec![0, 25, 50, 100, 200], Some(3), &board), 50);
    assert_eq!(rent_at(&board, 2, 5), 25);
    assert_eq!(rent_at(&board, 3, 5), 0);
}

#[test]
fn rent_transfer_conserves_money() {
    let board = vec![Tile::Go { amount: 200 }, Tile::FreeParking, property(100, 30, Some(1))];
    let mut game = game_with(vec![player(2, "Tenant", 700, 0), player(1, "Owner", 500, 1)], board);
    let before = game.players[0].money + game.players[1].money;
    let mut out = Vec::new();
    game.handle_action_with(2, Action::Roll, 1, 1, &mut out);
    assert_eq!(game.players[0].money, 670);
    assert_eq!(game.players[1].money, 530);
    assert_eq!(game.players[0].money + game.players[1].money, before);
}

#[test]
fn buying_an_owned_tile_changes_nothing() {
    let board = vec![Tile::Go { amount: 200 }, property(100, 10, Some(2))];
    let mut game = game_with(vec![player(1, "A", 1500, 1), player(2, "B", 1500, 0)], board);
    game.phase = Phase::AwaitingPurchaseDecision;
    let mut out = Vec::new();
    game.buy_property(1, &mut out);
    assert_eq!(game.players[0].money, 1500);
    assert_eq!(game.board[1].owner(), Some(2));
    assert_eq!(game.player_turn, 1);
}

#[test]
fn actions_out_of_turn_are_ignored() {
    let mut game = game_with(vec![player(1, "A", 1500, 0), player(2, "B", 1500, 0)], scenario_board());
    let mut out = Vec::new();
    game.handle_action_with(2, Action::Roll, 3, 4, &mut out);
    game.handle_action_with(1, Action::BuyProperty, 3, 4, &mut out);
    game.handle_action_with(1, Action::Identify, 3, 4, &mut out);
    assert!(out.is_empty());
    assert_eq!(game.players[0].position, 0);
    assert_eq!(game.players[1].position, 0);
    assert_eq!(game.player_turn, 0);
}

#[test]
fn buy_all_grants_unowned_properties_only() {
    let board = vec![Tile::Go { amount: 200 }, property(100, 10, Some(2)), property(60, 2, None), Tile::Utility { cost: 150, owner: None }];
    let mut game = game_with(vec![player(1, "A", 1500, 0), player(2, "B", 1500, 0)], board);
    let mut out = Vec::new();
    game.handle_action_with(1, Action::BuyAll, 1, 1, &mut out);
    assert_eq!(game.board[1].owner(), Some(2));
    assert_eq!(game.board[2].owner(), Some(1));
    assert_eq!(game.board[3].owner(), None);
    assert_eq!(game.players[0].money, 1500);
}

#[test]
fn dice_stay_between_one_and_six() {
    for _ in 0..200 {
        let d = roll_die();
        assert!((1..=6).contains(&d));
    }
}

#[test]
fn move_wraps_around_the_board() {
    let mut game = game_with(vec![player(1, "A", 1500, 38), player(2, "B", 1500, 0)], standard_board());
    let mut out = Vec::new();
    game.handle_action_with(1, Action::Roll, 2, 3, &mut out);
    assert_eq!(game.players[0].position, 3);
}

#[test]
fn standard_board_layout() {
    let b = standard_board();
    assert_eq!(b.len(), 40);
    assert_eq!(find_jail(&b), Some(10));
    assert!(matches!(b[30], Tile::GoToJail));
    assert_eq!(b[39].cost(), 400);
    assert!(b.iter().all(|t| t.owner().is_none()));
    let _ = PlayerAction { action_type: Action::Roll, data: None };
}

#[test]
fn rent_owed_to_a_departed_owner_is_reported() {
    let board = vec![Tile::Go { amount: 200 }, Tile::FreeParking, property(100, 30, Some(42))];
    let mut game = game_with(vec![player(2, "Tenant", 700, 0), player(1, "Other", 500, 1)], board);
    let mut out = Vec::new();
    assert!(game.handle_action_with(2, Action::Roll, 1, 1, &mut out));
    assert_eq!(game.players[0].money, 700);
    assert_eq!(game.player_turn, 1);
    assert!(!game.handle_action_with(1, Action::Roll, 1, 2, &mut out));
}

#[test]
fn standard_board_single_player_first_roll_moves_by_the_dice() {
    let b = standard_board();
    assert!(matches!(b[0], Tile::Go { amount: 200 }));
    assert!(matches!(b[1], Tile::Property { .. }));
    assert_eq!(b[1].cost(), 60);
    assert!(matches!(b[10], Tile::Jail));
    assert_eq!(b.iter().filter(|t| matches!(t, Tile::GoToJail)).count(), 1);
}

#[test]
fn landing_on_ones_own_tile_offers_nothing() {
    let board = vec![Tile::Go { amount: 200 }, Tile::FreeParking, property(100, 30, Some(1))];
    let mut game = game_with(vec![player(1, "Owner", 1500, 0), player(2, "Other", 1500, 1)], board);
    let mut out = Vec::new();
    game.handle_action_with(1, Action::Roll, 1, 1, &mut out);
    assert_eq!(game.players[0].position, 2);
    assert_eq!(game.players[0].money, 1500);
    assert_eq!(game.phase, Phase::AwaitingRoll);
    assert!(out.iter().all(|b| b.action != Action::AskBuyProperty));
    assert_eq!(game.player_turn, 1);
    assert!(is_turn_of(&out[2], 2));
}
