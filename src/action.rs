//! The protocol's vocabulary: action kinds, inbound messages and the
//! payloads the server broadcasts.

use vstd::prelude::*;

verus! {

/// The tag of every protocol message.
#[derive(Debug, Clone, Copy, PartialEq, Eq, Structural)]
pub enum Action {
    GameStart,
    PlayerTurn,
    Identify,
    Roll,
    TimeToPlay,
    PayRent,
    AskBuyProperty,
    BuyProperty,
    SkipBuyProperty,
    Move,
    Invalid,
    BuyAll,
    GoToJail,
    PlayerGoTile,
    FreeFromJail,
    PayTax,
    PlayerBankrupt,
    GameOver,
}

/// One message on the wire: an action tag and an optional text payload.
#[derive(Debug, Clone)]
pub struct PlayerAction {
    pub action_type: Action,
    pub data: Option<String>,
}

/// Rent paid by `player` to `owner`.
#[derive(Debug, Clone, Copy, PartialEq, Eq, Structural)]
pub struct PayRentData {
    pub rent: u32,
    pub owner: u128,
    pub player: u128,
}

/// A purchase offer or confirmation for the tile at `position`.
#[derive(Debug, Clone, Copy, PartialEq, Eq, Structural)]
pub struct BuyPropertyData {
    pub position: usize,
    pub player: u128,
}

/// A credit received on a Go tile.
#[derive(Debug, Clone, Copy, PartialEq, Eq, Structural)]
pub struct PlayerGoTileData {
    pub player: u128,
    pub amount: u32,
}

/// The two dice of a roll.
#[derive(Debug, Clone, Copy, PartialEq, Eq, Structural)]
pub struct DiceRollData {
    pub dice1: u8,
    pub dice2: u8,
}

/// A participant as announced at match start.
#[derive(Debug, Clone)]
pub struct PlayerIdentifyData {
    pub id: u128,
    pub name: String,
}

/// Tax paid by `player`.
#[derive(Debug, Clone, Copy, PartialEq, Eq, Structural)]
pub struct PlayerPayTaxData {
    pub player: u128,
    pub amount: u32,
}

/// The data carried by a broadcast, before it is encoded for the wire.
#[derive(Debug, Clone)]
pub enum Payload {
    Empty,
    PlayerId(u128),
    Position(usize),
    Dice(DiceRollData),
    Rent(PayRentData),
    Purchase(BuyPropertyData),
    GoCredit(PlayerGoTileData),
    Tax(PlayerPayTaxData),
    Roster(Vec<PlayerIdentifyData>),
}

/// A message for every participant of a match.
#[derive(Debug, Clone)]
pub struct Broadcast {
    pub action: Action,
    pub payload: Payload,
}

pub open spec fn msg(action: Action, payload: Payload) -> Broadcast {
    Broadcast { action, payload }
}

impl Broadcast {
    pub fn new(action: Action, payload: Payload) -> (r: Broadcast)
        ensures
            r == msg(action, payload),
    {
        Broadcast { action, payload }
    }
}

} // verus!
