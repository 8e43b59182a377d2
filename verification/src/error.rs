//! Why a call of the contract fails.

use vstd::prelude::*;

verus! {

/// The reasons for which a call is refused. The first group are the errors
/// that the contract returns to its caller; the second group are the points
/// at which the contract aborts the call (a failed arithmetic check, a draw
/// from an empty deck, a missing random seed or a missing entry). Either way
/// nothing that the call computed is stored.
#[derive(PartialEq, Eq, Structural, Debug)]
pub enum ContractError {
    /// "not authorized"
    NotAuthorized,
    /// "invalid snip"
    InvalidSnip,
    /// "above max bet"
    AboveMaxBet,
    /// "invalid bet"
    InvalidBet,
    /// "invalid amount"
    InvalidAmount,
    /// "no game state"
    NoGameState,
    /// "invalid phase"
    InvalidPhase,
    /// "invalid_phase" (the spelling used when the left hand of a split is hit)
    InvalidSplitPhase,
    /// "invalid action"
    InvalidAction,
    /// "invalid split amount"
    InvalidSplitAmount,
    /// "cannot split"
    CannotSplit,
    /// "only can double down on 10 or 11"
    DoubleDownNotAllowed,
    /// "unknown error"
    UnknownError,
    /// "must wait until drawing end"
    DrawingNotOver,
    /// Abort: an arithmetic result does not fit its integer type.
    Overflow,
    /// Abort: the block carries no random seed of at least four bytes.
    MissingRandom,
    /// Abort: a card is drawn from an empty deck.
    EmptyDeck,
    /// Abort: a raffle is drawn with no entries.
    NoEntries,
    /// Abort: a hand lacks the card that a split reads.
    MissingCard,
    /// Abort: the winning ticket of a raffle is not on record.
    MissingTicket,
}

} // verus!
