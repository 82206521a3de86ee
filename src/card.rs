//! Cards, zones, positions and the scoring table.
use vstd::prelude::*;

verus! {

/// Number of suits, and of foundations.
pub const NUM_SUIT: usize = 4;

/// Number of tableau piles.
pub const NUM_PILES: usize = 7;

/// Number of cards in the deck.
pub const NUM_CARDS: usize = 52;

/// Largest number of waste cards laid out at once.
pub const MAX_WASTES: u32 = 3;

/// Draw depth given to a card that is being dragged or sent on a move.
pub const DRAG_CARD_Z: i32 = 100;

/// Sprite sheet cell of a card's back.
pub const ATLAS_INDEX_FACEDOWN: usize = 52;

/// Sprite sheet cell of the empty stock pile.
pub const ATLAS_INDEX_STOCK_BASE: usize = 57;

#[derive(Clone, Copy, Debug, PartialEq, Eq, Structural)]
pub enum CardSuit {
    Heart,
    Diamond,
    Club,
    Spade,
}

/// The zone a card lies in: the stock, the waste, a tableau pile or a
/// foundation.
#[derive(Clone, Copy, Debug, PartialEq, Eq, Structural)]
pub enum CardType {
    Stock,
    Waste,
    Pile(u32),
    Foundation(CardSuit),
}

/// A point of the play field; `z` is the draw order.
#[derive(Clone, Copy, Debug, PartialEq, Eq, Structural)]
pub struct Position {
    pub x: i32,
    pub y: i32,
    pub z: i32,
}

/// Everything the game knows of one card.
#[derive(Clone, Copy, Debug)]
pub struct CardInfo {
    /// Identity of the card, stable for the whole process.
    pub entity: u64,
    pub card_suit: CardSuit,
    /// Rank, 1 (ace) to 13 (king).
    pub card_number: u32,
    pub card_type: CardType,
    /// Place within the zone.
    pub order: i32,
    pub facedown: bool,
    /// Where the card was before it was picked up.
    pub prev_position: Position,
    /// Where the card belongs.
    pub dst_position: Position,
    pub clickable: bool,
    pub dragging: bool,
}

/// Identity of a card not yet given one.
pub const NO_ENTITY: u64 = u64::MAX;

impl Default for CardInfo {
    /// An ace of hearts face down in the stock, with no identity.
    fn default() -> (r: CardInfo)
        ensures
            r == (CardInfo {
                entity: NO_ENTITY,
                card_suit: CardSuit::Heart,
                card_number: 1,
                card_type: CardType::Stock,
                order: 0,
                facedown: true,
                prev_position: Position { x: 0, y: 0, z: 0 },
                dst_position: Position { x: 0, y: 0, z: 0 },
                clickable: false,
                dragging: false,
            }),
    {
        CardInfo {
            entity: NO_ENTITY,
            card_suit: CardSuit::Heart,
            card_number: 1,
            card_type: CardType::Stock,
            order: 0,
            facedown: true,
            prev_position: Position { x: 0, y: 0, z: 0 },
            dst_position: Position { x: 0, y: 0, z: 0 },
            clickable: false,
            dragging: false,
        }
    }
}

#[derive(Clone, Copy, Debug, PartialEq, Eq, Structural)]
pub enum GameState {
    Loading,
    SelectDifficulty,
    Prepare,
    Deal,
    Play,
    NewGame,
    GameClear,
}

/// The shape of a move, as told to scoring and sound.
#[derive(Clone, Copy, Debug, PartialEq, Eq, Structural)]
pub enum MoveStep {
    StockToWaste,
    WasteToStock,
    WasteToPile,
    WasteToFoundation,
    PileToPile,
    PileToFoundation,
    FoundationToPile,
    FaceupPile,
}

#[derive(Clone, Copy, Debug, PartialEq, Eq, Structural)]
pub enum GameDifficulty {
    Easy,
    Hard,
}

/// A move was carried out.
#[derive(Clone, Copy, Debug, PartialEq, Eq, Structural)]
pub struct MoveOneStepEvent(pub MoveStep);

/// The score changes by the amount held.
#[derive(Clone, Copy, Debug, PartialEq, Eq, Structural)]
pub struct AddScoreEvent(pub i32);

/// Every card has reached its foundation.
#[derive(Clone, Copy, Debug, PartialEq, Eq, Structural)]
pub struct GameClearEvent;

pub open spec fn is_red(s: CardSuit) -> bool {
    s == CardSuit::Heart || s == CardSuit::Diamond
}

pub open spec fn suit_index_spec(s: CardSuit) -> int {
    match s {
        CardSuit::Heart => 0,
        CardSuit::Diamond => 1,
        CardSuit::Club => 2,
        CardSuit::Spade => 3,
    }
}

/// Index of a suit's foundation.
pub fn suit_index(s: CardSuit) -> (r: usize)
    ensures
        r as int == suit_index_spec(s),
        r < NUM_SUIT,
{
    match s {
        CardSuit::Heart => 0,
        CardSuit::Diamond => 1,
        CardSuit::Club => 2,
        CardSuit::Spade => 3,
    }
}

/// The four suits, in the order in which a new deck holds them.
pub open spec fn suit_of_index(k: int) -> CardSuit {
    if k == 0 {
        CardSuit::Heart
    } else if k == 1 {
        CardSuit::Diamond
    } else if k == 2 {
        CardSuit::Club
    } else {
        CardSuit::Spade
    }
}

pub open spec fn score_spec(step: MoveStep) -> int {
    match step {
        MoveStep::StockToWaste => 0,
        MoveStep::WasteToStock => -100,
        MoveStep::WasteToPile => 5,
        MoveStep::WasteToFoundation => 10,
        MoveStep::PileToPile => 0,
        MoveStep::PileToFoundation => 15,
        MoveStep::FoundationToPile => -15,
        MoveStep::FaceupPile => 5,
    }
}

/// Points that a move of the given shape is worth.
pub fn get_score(step: MoveStep) -> (r: i32)
    ensures
        r as int == score_spec(step),
{
    match step {
        MoveStep::StockToWaste => 0,
        MoveStep::WasteToStock => -100,
        MoveStep::WasteToPile => 5,
        MoveStep::WasteToFoundation => 10,
        MoveStep::PileToPile => 0,
        MoveStep::PileToFoundation => 15,
        MoveStep::FoundationToPile => -15,
        MoveStep::FaceupPile => 5,
    }
}

pub open spec fn add_score_spec(score: int, delta: int) -> int {
    if score + delta < 0 {
        0
    } else {
        score + delta
    }
}

/// The running score after a change: never below zero.
pub fn add_score(score: i32, delta: i32) -> (r: i32)
    requires
        score + delta <= i32::MAX,
    ensures
        r as int == add_score_spec(score as int, delta as int),
{
    let s = score as i64 + delta as i64;
    if s < 0 {
        0
    } else {
        s as i32
    }
}

pub open spec fn turn_spec(d: GameDifficulty) -> u32 {
    match d {
        GameDifficulty::Easy => 1,
        GameDifficulty::Hard => 3,
    }
}

/// How many cards one click on the stock draws.
pub fn num_turn_to_waste(difficulty: GameDifficulty) -> (r: u32)
    ensures
        r == turn_spec(difficulty),
{
    if difficulty == GameDifficulty::Easy {
        1
    } else {
        3
    }
}

pub open spec fn atlas_index_spec(suit: CardSuit, number: u32) -> Option<usize> {
    if 1 <= number <= 13 {
        let base: int = match suit {
            CardSuit::Heart => 26,
            CardSuit::Diamond => 39,
            CardSuit::Club => 13,
            CardSuit::Spade => 0,
        };
        Some((base + number - 1) as usize)
    } else {
        None
    }
}

/// Sprite sheet cell of a card's face: a row of thirteen per suit.
pub fn get_atlas_index(suit: CardSuit, number: u32) -> (r: Option<usize>)
    ensures
        r == atlas_index_spec(suit, number),
{
    if number < 1 || number > 13 {
        return None;
    }
    let base: usize = match suit {
        CardSuit::Heart => 26,
        CardSuit::Diamond => 39,
        CardSuit::Club => 13,
        CardSuit::Spade => 0,
    };
    Some(base + number as usize - 1)
}

} // verus!
