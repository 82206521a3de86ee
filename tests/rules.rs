use solitaire::card::{
    add_score, get_atlas_index, get_score, num_turn_to_waste, CardInfo, CardSuit, CardType, GameDifficulty,
    GameState, MoveStep, Position,
};
use solitaire::cardlist::CardList;
use solitaire::deck::{new_deck_order, shuffled_deck};
use solitaire::game::{is_game_clear, StackInfo};
use solitaire::layout::{calc_pile_position, foundation_position, pile_drop_area};
use solitaire::session::{next_state, on_click_new_game, on_move_one_step, GameEvent, Sound};

fn blank(entity: u64, suit: CardSuit, number: u32, card_type: CardType, order: i32, facedown: bool) -> CardInfo {
    CardInfo {
        entity,
        card_suit: suit,
        card_number: number,
        card_type,
        order,
        facedown,
        prev_position: Position { x: 0, y: 0, z: 0 },
        dst_position: Position { x: 0, y: 0, z: 0 },
        clickable: !facedown,
        dragging: false,
    }
}

/// A full deck, every card in the stock, with identity equal to its place.
fn stocked() -> CardList {
    let entities: Vec<u64> = (0..52).collect();
    let mut list = CardList::new_game(&entities);
    let deck = new_deck_order();
    list.prepare(&deck);
    list
}

fn place_of(list: &CardList, suit: CardSuit, number: u32) -> usize {
    list.0.iter().position(|c| c.card_suit == suit && c.card_number == number).unwrap()
}

fn put(list: &mut CardList, suit: CardSuit, number: u32, card_type: CardType, order: i32, facedown: bool) -> u64 {
    let i = place_of(list, suit, number);
    list.0[i].card_type = card_type;
    list.0[i].order = order;
    list.0[i].facedown = facedown;
    list.0[i].clickable = !facedown;
    list.0[i].entity
}

#[test]
fn pile_rule_king_on_empty_pile() {
    let list = stocked();
    let king = blank(100, CardSuit::Spade, 13, CardType::Waste, 0, false);
    let queen = blank(101, CardSuit::Spade, 12, CardType::Waste, 0, false);
    assert_eq!(list.can_stack_pile(0, &king), Some(0));
    assert_eq!(list.can_stack_pile(0, &queen), None);
}

#[test]
fn pile_rule_colour_and_rank() {
    let mut list = stocked();
    put(&mut list, CardSuit::Club, 4, CardType::Pile(2), 0, true);
    put(&mut list, CardSuit::Spade, 8, CardType::Pile(2), 1, false);
    let red_seven = blank(100, CardSuit::Heart, 7, CardType::Waste, 0, false);
    let black_seven = blank(101, CardSuit::Club, 7, CardType::Waste, 0, false);
    let red_six = blank(102, CardSuit::Diamond, 6, CardType::Waste, 0, false);
    let red_nine = blank(103, CardSuit::Diamond, 9, CardType::Waste, 0, false);
    assert_eq!(list.can_stack_pile(2, &red_seven), Some(2));
    assert_eq!(list.can_stack_pile(2, &black_seven), None);
    assert_eq!(list.can_stack_pile(2, &red_six), None);
    assert_eq!(list.can_stack_pile(2, &red_nine), None);
}

#[test]
fn pile_rule_rank_edges() {
    let mut list = stocked();
    put(&mut list, CardSuit::Heart, 2, CardType::Pile(4), 0, false);
    let black_ace = blank(100, CardSuit::Spade, 1, CardType::Waste, 0, false);
    let red_ace = blank(101, CardSuit::Diamond, 1, CardType::Waste, 0, false);
    assert_eq!(list.can_stack_pile(4, &black_ace), Some(1));
    assert_eq!(list.can_stack_pile(4, &red_ace), None);
    let mut list2 = stocked();
    put(&mut list2, CardSuit::Heart, 1, CardType::Pile(4), 0, false);
    let king = blank(102, CardSuit::Club, 13, CardType::Waste, 0, false);
    assert_eq!(list2.can_stack_pile(4, &king), None);
}

#[test]
fn foundation_rule() {
    let mut list = stocked();
    let ace = blank(100, CardSuit::Heart, 1, CardType::Waste, 0, false);
    let two = blank(101, CardSuit::Heart, 2, CardType::Waste, 0, false);
    assert!(list.can_stack_foundation(&ace));
    assert!(!list.can_stack_foundation(&two));
    put(&mut list, CardSuit::Heart, 1, CardType::Foundation(CardSuit::Heart), 1, false);
    put(&mut list, CardSuit::Heart, 2, CardType::Foundation(CardSuit::Heart), 2, false);
    put(&mut list, CardSuit::Heart, 3, CardType::Foundation(CardSuit::Heart), 3, false);
    let four = blank(102, CardSuit::Heart, 4, CardType::Waste, 0, false);
    let five = blank(103, CardSuit::Heart, 5, CardType::Waste, 0, false);
    let other_ace = blank(104, CardSuit::Club, 1, CardType::Waste, 0, false);
    assert!(list.can_stack_foundation(&four));
    assert!(!list.can_stack_foundation(&five));
    assert!(list.can_stack_foundation(&other_ace));
}

#[test]
fn run_moves_together() {
    let mut list = stocked();
    put(&mut list, CardSuit::Club, 13, CardType::Pile(0), 0, true);
    let nine = put(&mut list, CardSuit::Spade, 9, CardType::Pile(0), 1, false);
    put(&mut list, CardSuit::Heart, 8, CardType::Pile(0), 2, false);
    put(&mut list, CardSuit::Club, 7, CardType::Pile(0), 3, false);
    put(&mut list, CardSuit::Diamond, 6, CardType::Pile(0), 4, false);
    put(&mut list, CardSuit::Heart, 10, CardType::Pile(1), 0, false);
    let nine_card = list.0[place_of(&list, CardSuit::Spade, 9)];
    assert_eq!(list.can_stack_pile(1, &nine_card), Some(1));
    let out = list.stack(&StackInfo { target: nine, dst: CardType::Pile(1), order: 1 }, GameDifficulty::Easy);
    assert_eq!(out.step, Some(MoveStep::PileToPile));
    for (suit, number, order) in [
        (CardSuit::Spade, 9, 1),
        (CardSuit::Heart, 8, 2),
        (CardSuit::Club, 7, 3),
        (CardSuit::Diamond, 6, 4),
    ] {
        let c = list.0[place_of(&list, suit, number)];
        assert_eq!(c.card_type, CardType::Pile(1));
        assert_eq!(c.order, order);
    }
    let king = list.0[place_of(&list, CardSuit::Club, 13)];
    assert_eq!(king.card_type, CardType::Pile(0));
    assert!(!king.facedown);
    assert!(king.clickable);
    assert!(out.revealed);
    assert_eq!(list.num_faceup(1), 5);
    assert_eq!(list.num_facedown(0), 0);
}

#[test]
fn refused_run_goes_back() {
    let mut list = stocked();
    let nine = put(&mut list, CardSuit::Spade, 9, CardType::Pile(0), 0, false);
    put(&mut list, CardSuit::Heart, 8, CardType::Pile(0), 1, false);
    put(&mut list, CardSuit::Club, 7, CardType::Pile(0), 2, false);
    put(&mut list, CardSuit::Diamond, 6, CardType::Pile(0), 3, false);
    for (suit, number) in [(CardSuit::Spade, 9), (CardSuit::Heart, 8), (CardSuit::Club, 7), (CardSuit::Diamond, 6)] {
        let i = place_of(&list, suit, number);
        list.0[i].prev_position = Position { x: 5, y: number as i32, z: 1 };
        list.0[i].dst_position = Position { x: 300, y: 300, z: 100 };
    }
    let out = list.stack(&StackInfo { target: nine, dst: CardType::Pile(3), order: 0 }, GameDifficulty::Easy);
    assert_eq!(out.step, None);
    assert!(!out.revealed);
    for (suit, number, order) in [
        (CardSuit::Spade, 9, 0),
        (CardSuit::Heart, 8, 1),
        (CardSuit::Club, 7, 2),
        (CardSuit::Diamond, 6, 3),
    ] {
        let c = list.0[place_of(&list, suit, number)];
        assert_eq!(c.card_type, CardType::Pile(0));
        assert_eq!(c.order, order);
        assert_eq!(c.dst_position, Position { x: 5, y: number as i32, z: 1 });
    }
}

#[test]
fn reveal_turns_next_card() {
    let mut list = stocked();
    put(&mut list, CardSuit::Club, 5, CardType::Pile(6), 0, true);
    let queen = put(&mut list, CardSuit::Heart, 12, CardType::Pile(6), 1, false);
    let out = list.stack(&StackInfo { target: queen, dst: CardType::Pile(2), order: 0 }, GameDifficulty::Easy);
    assert_eq!(out.step, None);
    put(&mut list, CardSuit::Spade, 13, CardType::Pile(2), 0, false);
    let out = list.stack(&StackInfo { target: queen, dst: CardType::Pile(2), order: 1 }, GameDifficulty::Easy);
    assert_eq!(out.step, Some(MoveStep::PileToPile));
    assert!(out.revealed);
    let five = list.0[place_of(&list, CardSuit::Club, 5)];
    assert!(!five.facedown);
    assert!(five.clickable);
    assert_eq!(get_score(MoveStep::FaceupPile), 5);
    assert_eq!(get_score(out.step.unwrap()) + get_score(MoveStep::FaceupPile), 5);
}

#[test]
fn waste_to_foundation_and_back() {
    let mut list = stocked();
    let ace = put(&mut list, CardSuit::Diamond, 1, CardType::Waste, 0, false);
    let out = list.stack(
        &StackInfo { target: ace, dst: CardType::Foundation(CardSuit::Diamond), order: 1 },
        GameDifficulty::Easy,
    );
    assert_eq!(out.step, Some(MoveStep::WasteToFoundation));
    assert!(!out.cleared);
    let c = list.0[place_of(&list, CardSuit::Diamond, 1)];
    assert_eq!(c.card_type, CardType::Foundation(CardSuit::Diamond));
    assert_eq!(c.order, 1);
    assert_eq!(c.dst_position, foundation_position(CardSuit::Diamond, 1));
    let two = put(&mut list, CardSuit::Club, 2, CardType::Pile(5), 0, false);
    let out = list.stack(&StackInfo { target: ace, dst: CardType::Pile(5), order: 1 }, GameDifficulty::Easy);
    assert_eq!(out.step, Some(MoveStep::FoundationToPile));
    assert_eq!(get_score(MoveStep::FoundationToPile), -15);
    let c = list.0[place_of(&list, CardSuit::Diamond, 1)];
    assert_eq!(c.card_type, CardType::Pile(5));
    assert_eq!(c.order, 1);
    let _ = two;
}

#[test]
fn unknown_card_is_ignored() {
    let mut list = stocked();
    let before: Vec<CardType> = list.0.iter().map(|c| c.card_type).collect();
    let out = list.stack(&StackInfo { target: 999, dst: CardType::Pile(0), order: 0 }, GameDifficulty::Easy);
    assert_eq!(out.step, None);
    let after: Vec<CardType> = list.0.iter().map(|c| c.card_type).collect();
    assert_eq!(before, after);
}

#[test]
fn deal_fills_tableau() {
    let mut list = stocked();
    list.deal();
    for p in 0..7u32 {
        assert_eq!(list.num_facedown(p) + list.num_faceup(p), p + 1);
        assert_eq!(list.num_faceup(p), 1);
        let cards = list.get_pile_cards(p).unwrap();
        assert_eq!(cards.len() as u32, p + 1);
        for (o, c) in cards.iter().enumerate() {
            assert_eq!(c.order, o as i32);
            assert_eq!(c.facedown, o as u32 != p);
            assert_eq!(c.clickable, o as u32 == p);
        }
    }
    let stock = list.0.iter().filter(|c| c.card_type == CardType::Stock).count();
    assert_eq!(stock, 24);
}

#[test]
fn deal_layout() {
    let mut list = stocked();
    list.deal();
    let last = list.0[27];
    assert_eq!(last.card_type, CardType::Pile(6));
    assert_eq!(last.dst_position, calc_pile_position(6, 6, 6, 1));
    assert_eq!(last.dst_position, Position { x: 191, y: 62 - 96, z: 6 });
}

#[test]
fn easy_click_draws_one() {
    let mut list = stocked();
    list.deal();
    let first_stock = list.0[28].entity;
    let action = list.on_click_card(first_stock, GameDifficulty::Easy);
    assert_eq!(action, solitaire::input::ClickAction::Drew);
    let waste: Vec<&CardInfo> = list.0.iter().filter(|c| c.card_type == CardType::Waste).collect();
    assert_eq!(waste.len(), 1);
    assert_eq!(waste[0].entity, first_stock);
    assert!(!waste[0].facedown);
    assert!(waste[0].clickable);
    assert_eq!(get_score(MoveStep::StockToWaste), 0);
    let stock = list.0.iter().filter(|c| c.card_type == CardType::Stock).count();
    assert_eq!(stock, 23);
}

#[test]
fn hard_draws_then_recycle() {
    let mut list = stocked();
    list.deal();
    for _ in 0..3 {
        assert!(list.on_click_stock(GameDifficulty::Hard));
    }
    let waste: Vec<u64> = list.0.iter().filter(|c| c.card_type == CardType::Waste).map(|c| c.entity).collect();
    assert_eq!(waste.len(), 9);
    let shown: Vec<&CardInfo> = list.0.iter().filter(|c| c.card_type == CardType::Waste && c.clickable).collect();
    assert_eq!(shown.len(), 1);
    assert_eq!(shown[0].entity, waste[8]);
    assert!(list.on_click_stock_base());
    assert_eq!(get_score(MoveStep::WasteToStock), -100);
    for (k, e) in waste.iter().enumerate() {
        let c = list.0.iter().find(|c| c.entity == *e).unwrap();
        assert_eq!(c.card_type, CardType::Stock);
        assert!(c.facedown);
        assert!(c.clickable);
        assert_eq!(c.order, k as i32);
    }
    assert_eq!(list.0.iter().filter(|c| c.card_type == CardType::Waste).count(), 0);
    assert!(!list.on_click_stock_base());
}

#[test]
fn waste_fan_orders() {
    let mut list = stocked();
    list.deal();
    assert!(list.on_click_stock(GameDifficulty::Hard));
    let orders: Vec<i32> = list.0.iter().filter(|c| c.card_type == CardType::Waste).map(|c| c.order).collect();
    assert_eq!(orders, vec![0, 1, 2]);
    assert!(list.on_click_stock(GameDifficulty::Hard));
    let waste: Vec<(i32, bool)> =
        list.0.iter().filter(|c| c.card_type == CardType::Waste).map(|c| (c.order, c.clickable)).collect();
    assert_eq!(waste, vec![(0, false), (1, false), (2, false), (0, false), (1, false), (2, true)]);
    let z: Vec<i32> = list.0.iter().filter(|c| c.card_type == CardType::Waste).map(|c| c.dst_position.z).collect();
    assert!(z[3] > z[2] && z[4] > z[3] && z[5] > z[4]);
}

#[test]
fn empty_stock_draws_nothing() {
    let mut list = stocked();
    for c in list.0.iter_mut() {
        c.card_type = CardType::Waste;
    }
    assert!(!list.on_click_stock(GameDifficulty::Easy));
}

#[test]
fn fill_waste_shows_newest_three() {
    let mut list = stocked();
    for i in 0..5 {
        list.0[i].card_type = CardType::Waste;
        list.0[i].clickable = true;
    }
    list.fill_waste();
    let w: Vec<(i32, bool, i32)> =
        list.0[0..5].iter().map(|c| (c.order, c.clickable, c.dst_position.y)).collect();
    assert_eq!(w[2], (0, false, 1));
    assert_eq!(w[3], (1, false, -15));
    assert_eq!(w[4], (2, true, -31));
}

#[test]
fn win_detection() {
    let mut list = stocked();
    for c in list.0.iter_mut() {
        c.card_type = CardType::Pile(0);
        c.facedown = false;
    }
    assert!(is_game_clear(&list.0, 1));
    assert!(is_game_clear(&list.0, 3));
    list.0[0].card_type = CardType::Waste;
    assert!(is_game_clear(&list.0, 3));
    list.0[1].card_type = CardType::Waste;
    assert!(!is_game_clear(&list.0, 3));
    assert!(is_game_clear(&list.0, 1));
    list.0[2].card_type = CardType::Waste;
    list.0[3].card_type = CardType::Waste;
    assert!(!is_game_clear(&list.0, 1));
    let mut with_stock = stocked();
    for c in with_stock.0.iter_mut().skip(1) {
        c.card_type = CardType::Foundation(c.card_suit);
    }
    assert!(!is_game_clear(&with_stock.0, 1));
    let mut with_down = stocked();
    for c in with_down.0.iter_mut() {
        c.card_type = CardType::Pile(3);
        c.facedown = false;
    }
    with_down.0[7].facedown = true;
    assert!(!is_game_clear(&with_down.0, 1));
}

#[test]
fn clear_sends_cards_home() {
    let mut list = stocked();
    list.game_clear();
    for c in list.0.iter() {
        assert_eq!(c.card_type, CardType::Foundation(c.card_suit));
        assert_eq!(c.order, c.card_number as i32);
    }
    for suit in [CardSuit::Heart, CardSuit::Diamond, CardSuit::Club, CardSuit::Spade] {
        let f = list.get_foundation_cards(suit).unwrap();
        let ranks: Vec<u32> = f.iter().map(|c| c.card_number).collect();
        assert_eq!(ranks, (1..=13).collect::<Vec<u32>>());
    }
}

#[test]
fn last_card_home_wins() {
    let mut list = stocked();
    let mut king = 0;
    for c in list.0.iter_mut() {
        c.card_type = CardType::Foundation(c.card_suit);
        c.order = c.card_number as i32;
        c.facedown = false;
        if c.card_suit == CardSuit::Club && c.card_number == 13 {
            c.card_type = CardType::Waste;
            c.order = 0;
            king = c.entity;
        }
    }
    let out = list.stack(
        &StackInfo { target: king, dst: CardType::Foundation(CardSuit::Club), order: 13 },
        GameDifficulty::Hard,
    );
    assert_eq!(out.step, Some(MoveStep::WasteToFoundation));
    assert!(out.cleared);
}

#[test]
fn pile_position_with_room() {
    assert_eq!(calc_pile_position(0, 3, 2, 3), Position { x: -193, y: 14, z: 3 });
    assert_eq!(calc_pile_position(3, 0, 0, 1), Position { x: -1, y: 62, z: 0 });
}

#[test]
fn pile_position_shrinks_facedown_first() {
    assert_eq!(calc_pile_position(1, 8, 6, 7), Position { x: -129, y: -36, z: 8 });
}

#[test]
fn pile_position_shrinks_faceup_too() {
    assert_eq!(calc_pile_position(2, 17, 6, 12), Position { x: -65, y: -117, z: 17 });
}

#[test]
fn drop_areas() {
    let a = pile_drop_area(0);
    assert_eq!((a.min_x, a.min_y, a.max_x, a.max_y), (-212, -144, -174, 88));
}

#[test]
fn atlas_cells() {
    assert_eq!(get_atlas_index(CardSuit::Heart, 1), Some(26));
    assert_eq!(get_atlas_index(CardSuit::Diamond, 13), Some(51));
    assert_eq!(get_atlas_index(CardSuit::Club, 5), Some(17));
    assert_eq!(get_atlas_index(CardSuit::Spade, 1), Some(0));
    assert_eq!(get_atlas_index(CardSuit::Spade, 14), None);
    assert_eq!(get_atlas_index(CardSuit::Heart, 0), None);
}

#[test]
fn score_table_and_floor() {
    assert_eq!(get_score(MoveStep::WasteToPile), 5);
    assert_eq!(get_score(MoveStep::WasteToFoundation), 10);
    assert_eq!(get_score(MoveStep::PileToPile), 0);
    assert_eq!(get_score(MoveStep::PileToFoundation), 15);
    assert_eq!(add_score(50, -100), 0);
    assert_eq!(add_score(150, -100), 50);
    assert_eq!(add_score(0, 15), 15);
}

#[test]
fn draw_counts() {
    assert_eq!(num_turn_to_waste(GameDifficulty::Easy), 1);
    assert_eq!(num_turn_to_waste(GameDifficulty::Hard), 3);
}

#[test]
fn shuffle_keeps_the_deck() {
    let d = shuffled_deck();
    let mut sorted = d.clone();
    let key = |x: &(CardSuit, u32)| {
        let s = match x.0 {
            CardSuit::Heart => 0,
            CardSuit::Diamond => 1,
            CardSuit::Club => 2,
            CardSuit::Spade => 3,
        };
        s * 13 + x.1
    };
    sorted.sort_by_key(key);
    assert_eq!(sorted, new_deck_order());
    let d2 = shuffled_deck();
    assert!(d != new_deck_order() || d2 != new_deck_order());
}

#[test]
fn prepare_takes_deck_in_order() {
    let list = stocked();
    let first = list.0[0];
    assert_eq!((first.card_suit, first.card_number), (CardSuit::Heart, 1));
    assert_eq!((list.0[51].card_suit, list.0[51].card_number), (CardSuit::Spade, 13));
    assert_eq!(first.card_type, CardType::Stock);
    assert!(first.facedown);
    assert_eq!(list.0[51].order, 51);
}

#[test]
fn click_sends_ace_home() {
    let mut list = stocked();
    let ace = put(&mut list, CardSuit::Spade, 1, CardType::Waste, 0, false);
    let action = list.on_click_card(ace, GameDifficulty::Easy);
    assert_eq!(
        action,
        solitaire::input::ClickAction::Request(StackInfo {
            target: ace,
            dst: CardType::Foundation(CardSuit::Spade),
            order: 1
        })
    );
}

#[test]
fn drop_outside_returns_card() {
    let mut list = stocked();
    let queen = put(&mut list, CardSuit::Heart, 12, CardType::Pile(1), 0, false);
    let i = place_of(&list, CardSuit::Heart, 12);
    list.on_drag_start(queen);
    assert_eq!(list.0[i].prev_position, list.0[i].dst_position);
    list.set_dst_position(i, Position { x: 40, y: 40, z: 100 });
    list.set_dragging(i);
    let hits = vec![false; 7];
    assert_eq!(list.on_drag_end(queen, false, &hits), None);
    assert_eq!(list.0[i].dst_position, list.0[i].prev_position);
    assert!(!list.0[i].dragging);
}

#[test]
fn drop_on_pile_asks_to_move() {
    let mut list = stocked();
    let queen = put(&mut list, CardSuit::Heart, 12, CardType::Pile(1), 0, false);
    put(&mut list, CardSuit::Club, 13, CardType::Pile(4), 0, false);
    let mut hits = vec![false; 7];
    hits[4] = true;
    assert_eq!(
        list.on_drag_end(queen, false, &hits),
        Some(StackInfo { target: queen, dst: CardType::Pile(4), order: 1 })
    );
}

#[test]
fn phases() {
    assert_eq!(next_state(GameEvent::Load), GameState::SelectDifficulty);
    assert_eq!(next_state(GameEvent::DifficultySelect), GameState::Prepare);
    assert_eq!(next_state(GameEvent::Prepare), GameState::Deal);
    assert_eq!(next_state(GameEvent::Deal), GameState::Play);
    assert_eq!(next_state(GameEvent::NewGame), GameState::NewGame);
    assert_eq!(next_state(GameEvent::CancelNewGame), GameState::Play);
    assert_eq!(next_state(GameEvent::GameClear), GameState::GameClear);
    assert!(on_click_new_game(GameState::Play));
    assert!(!on_click_new_game(GameState::Deal));
}

#[test]
fn sounds() {
    assert_eq!(on_move_one_step(MoveStep::WasteToStock), Some(Sound::MoveToStock));
    assert_eq!(on_move_one_step(MoveStep::PileToPile), Some(Sound::MoveCard));
    assert_eq!(on_move_one_step(MoveStep::FaceupPile), None);
}

#[test]
fn connected_cards() {
    let mut list = stocked();
    let nine = put(&mut list, CardSuit::Spade, 9, CardType::Pile(0), 0, false);
    put(&mut list, CardSuit::Heart, 8, CardType::Pile(0), 1, false);
    put(&mut list, CardSuit::Club, 7, CardType::Pile(0), 2, false);
    let up = list.get_connected_cards(nine).unwrap();
    assert_eq!(up.len(), 2);
    let places = list.get_connected_cards_mut(nine).unwrap();
    assert_eq!(places.len(), 2);
    let seven = list.0[place_of(&list, CardSuit::Club, 7)].entity;
    assert!(list.get_connected_cards(seven).is_none());
    assert!(list.get(nine).is_some());
    assert!(list.get(999).is_none());
}

#[test]
fn turn_and_waste_places() {
    let mut list = stocked();
    list.deal();
    assert_eq!(list.get_turn_cards_mut(3), Some(vec![28, 29, 30]));
    assert_eq!(list.get_turn_cards_mut(0), None);
    assert_eq!(list.get_waste_cards_mut(), None);
    assert!(list.on_click_stock(GameDifficulty::Easy));
    assert_eq!(list.get_waste_cards_mut(), Some(vec![28]));
    assert_eq!(list.get_turn_cards_mut(1), Some(vec![29]));
}

#[test]
fn pile_cards_come_sorted() {
    let mut list = stocked();
    put(&mut list, CardSuit::Diamond, 4, CardType::Pile(3), 2, false);
    put(&mut list, CardSuit::Spade, 6, CardType::Pile(3), 0, true);
    put(&mut list, CardSuit::Club, 5, CardType::Pile(3), 1, false);
    let cards = list.get_pile_cards(3).unwrap();
    let orders: Vec<i32> = cards.iter().map(|c| c.order).collect();
    assert_eq!(orders, vec![0, 1, 2]);
    assert_eq!(cards[2].card_number, 4);
    assert!(list.get_pile_cards(5).is_none());
    assert!(list.get_foundation_cards(CardSuit::Club).is_none());
    let red_three = blank(100, CardSuit::Heart, 3, CardType::Waste, 0, false);
    assert_eq!(list.can_stack_pile(3, &red_three), None);
    let black_three = blank(101, CardSuit::Club, 3, CardType::Waste, 0, false);
    assert_eq!(list.can_stack_pile(3, &black_three), Some(3));
}

#[test]
fn foundation_top_leaves_first() {
    let mut list = stocked();
    let ace = put(&mut list, CardSuit::Spade, 1, CardType::Foundation(CardSuit::Spade), 1, false);
    put(&mut list, CardSuit::Spade, 2, CardType::Foundation(CardSuit::Spade), 2, false);
    put(&mut list, CardSuit::Heart, 2, CardType::Pile(0), 0, false);
    let out = list.stack(&StackInfo { target: ace, dst: CardType::Pile(0), order: 1 }, GameDifficulty::Easy);
    assert_eq!(out.step, None);
}

#[test]
fn covered_card_cannot_go_home() {
    let mut list = stocked();
    let ace = put(&mut list, CardSuit::Club, 1, CardType::Pile(2), 0, false);
    put(&mut list, CardSuit::Heart, 13, CardType::Pile(2), 1, false);
    let out = list.stack(
        &StackInfo { target: ace, dst: CardType::Foundation(CardSuit::Club), order: 1 },
        GameDifficulty::Easy,
    );
    assert_eq!(out.step, None);
    let c = list.0[place_of(&list, CardSuit::Club, 1)];
    assert_eq!(c.card_type, CardType::Pile(2));
}

#[test]
fn short_deck_fills_front() {
    let entities: Vec<u64> = (0..52).collect();
    let mut list = CardList::new_game(&entities);
    let deck = vec![(CardSuit::Club, 9), (CardSuit::Heart, 4)];
    list.prepare(&deck);
    assert_eq!((list.0[0].card_suit, list.0[0].card_number), (CardSuit::Club, 9));
    assert_eq!((list.0[1].card_suit, list.0[1].card_number), (CardSuit::Heart, 4));
    assert_eq!(list.0[1].order, 1);
    assert!(list.0[1].clickable);
    assert!(!list.0[2].clickable);
}

#[test]
fn waste_newest_is_the_one_to_pick() {
    let mut list = stocked();
    list.deal();
    for _ in 0..2 {
        assert!(list.on_click_stock(GameDifficulty::Easy));
    }
    let newest = list.0[29].entity;
    let older = list.0[28].entity;
    assert!(list.0[29].clickable);
    assert!(!list.0[28].clickable);
    let action = list.on_click_card(older, GameDifficulty::Easy);
    assert_eq!(action, solitaire::input::ClickAction::Ignore);
    let _ = newest;
}

#[test]
fn drawn_card_is_the_one_to_pick() {
    let mut list = stocked();
    list.0[51].card_type = CardType::Waste;
    list.0[51].facedown = false;
    list.0[51].clickable = true;
    assert!(list.on_click_stock(GameDifficulty::Easy));
    assert_eq!(list.0[0].card_type, CardType::Waste);
    assert!(list.0[0].clickable);
    assert!(!list.0[0].facedown);
    assert_eq!(list.0[0].order, 1);
    assert!(!list.0[51].clickable);
    assert_eq!(list.0[51].order, 0);
    let clickable = list.0.iter().filter(|c| c.card_type == CardType::Waste && c.clickable).count();
    assert_eq!(clickable, 1);
}

#[test]
fn easy_draws_fill_the_fan() {
    let mut list = stocked();
    list.deal();
    for _ in 0..4 {
        assert!(list.on_click_stock(GameDifficulty::Easy));
    }
    let waste: Vec<(i32, bool)> =
        list.0.iter().filter(|c| c.card_type == CardType::Waste).map(|c| (c.order, c.clickable)).collect();
    assert_eq!(waste, vec![(0, false), (0, false), (1, false), (2, true)]);
}
