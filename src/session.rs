//! The phases of a session and the notices that moves send out.
use vstd::prelude::*;
use crate::card::{GameState, MoveStep};

verus! {

/// What moves a session from one phase to the next.
#[derive(Clone, Copy, Debug, PartialEq, Eq, Structural)]
pub enum GameEvent {
    /// The assets are loaded.
    Load,
    /// A difficulty was chosen.
    DifficultySelect,
    /// The deck is shuffled into the stock.
    Prepare,
    /// The tableau is dealt.
    Deal,
    /// A new game was asked for.
    NewGame,
    /// The player went back to the game in progress.
    CancelNewGame,
    /// The game is won.
    GameClear,
}

pub open spec fn next_state_spec(e: GameEvent) -> GameState {
    match e {
        GameEvent::Load => GameState::SelectDifficulty,
        GameEvent::DifficultySelect => GameState::Prepare,
        GameEvent::Prepare => GameState::Deal,
        GameEvent::Deal => GameState::Play,
        GameEvent::NewGame => GameState::NewGame,
        GameEvent::CancelNewGame => GameState::Play,
        GameEvent::GameClear => GameState::GameClear,
    }
}

/// The phase that an event leads to.
pub fn next_state(e: GameEvent) -> (r: GameState)
    ensures
        r == next_state_spec(e),
{
    match e {
        GameEvent::Load => GameState::SelectDifficulty,
        GameEvent::DifficultySelect => GameState::Prepare,
        GameEvent::Prepare => GameState::Deal,
        GameEvent::Deal => GameState::Play,
        GameEvent::NewGame => GameState::NewGame,
        GameEvent::CancelNewGame => GameState::Play,
        GameEvent::GameClear => GameState::GameClear,
    }
}

/// Whether a click on "new game" starts one: only during play.
pub fn on_click_new_game(state: GameState) -> (r: bool)
    ensures
        r == (state == GameState::Play),
{
    state == GameState::Play
}

/// The sounds that moves make.
#[derive(Clone, Copy, Debug, PartialEq, Eq, Structural)]
pub enum Sound {
    MoveCard,
    MoveToStock,
}

pub open spec fn sound_spec(step: MoveStep) -> Option<Sound> {
    match step {
        MoveStep::WasteToStock => Some(Sound::MoveToStock),
        MoveStep::FaceupPile => None,
        _ => Some(Sound::MoveCard),
    }
}

/// The sound a move makes: the waste going back to the stock has its own,
/// a card turned up in place makes none, every other move the same one.
pub fn on_move_one_step(step: MoveStep) -> (r: Option<Sound>)
    ensures
        r == sound_spec(step),
{
    match step {
        MoveStep::WasteToStock => Some(Sound::MoveToStock),
        MoveStep::StockToWaste | MoveStep::WasteToPile | MoveStep::WasteToFoundation | MoveStep::PileToPile
        | MoveStep::PileToFoundation | MoveStep::FoundationToPile => Some(Sound::MoveCard),
        MoveStep::FaceupPile => None,
    }
}

} // verus!
