//! What the contract keeps between calls.

use vstd::prelude::*;
use crate::msg::BetMsg;

verus! {

/// The house: its limits, its token and its funds.
pub struct State {
    /// The largest amount accepted for one bet.
    pub max_bet: u128,
    /// The address of the SNIP-20 token that the contract plays with.
    pub known_snip: String,
    /// The code hash of that token.
    pub snip_hash: String,
    /// The token's decimals.
    pub decimal: u128,
    /// The funds that the admin has deposited and not withdrawn.
    pub vault: u128,
    /// The prize of the current raffle; each bet adds a fiftieth of its amount.
    pub jackpot: u128,
    /// The prize of the next raffle, fed by ticket sales.
    pub next_jackpot: u128,
    /// The number of tickets sold for the current raffle.
    pub entries: u32,
    /// The winning ticket of the last raffle.
    pub winner: u32,
    /// When the current raffle ends, in nanoseconds since the epoch.
    pub drawing_end: u64,
    /// When the last raffle ended, in nanoseconds since the epoch.
    pub last_drawing: u64,
}

/// Who administers the contract, and the funds credited to the admin.
pub struct Admin {
    pub admin: String,
    pub vault: u128,
}

/// The last roulette spin of a player.
pub struct LastSpin {
    pub winning_number: u32,
    pub bets: Vec<BetMsg>,
    pub winnings: u128,
}

/// A playing card: its suit, its value in points (an ace counts 11), its
/// face ("ace", "number", "jack", "king" or "queen") and its position in a
/// fresh deck.
pub struct Card {
    pub suit: String,
    pub number: u32,
    pub face: String,
    pub id: u32,
}

/// The blackjack game of one player.
pub struct Blackjack {
    /// The phase: "ready", "deal", "play", "insurance", "splitL" or "splitR".
    pub action: String,
    pub dealer: Vec<Card>,
    pub player: Vec<Card>,
    /// The right hand after a split.
    pub split: Vec<Card>,
    /// The state of the left hand of a split: "nosplit", "inprogress", "loss" or "stand".
    pub split_result: String,
    pub deck: Vec<Card>,
    pub wager: u128,
    /// The result of the last finished game, or "in progress".
    pub result: String,
    pub winnings: u128,
}

/// A card with its texts as character sequences.
#[verifier::ext_equal]
pub struct CardView {
    pub suit: Seq<char>,
    pub number: u32,
    pub face: Seq<char>,
    pub id: u32,
}

impl View for Card {
    type V = CardView;

    open spec fn view(&self) -> CardView {
        CardView { suit: self.suit@, number: self.number, face: self.face@, id: self.id }
    }
}

/// The cards of a hand or deck, as views.
pub open spec fn hand(cards: Seq<Card>) -> Seq<CardView> {
    cards.map_values(|c: Card| c@)
}

#[verifier::ext_equal]
pub struct BlackjackView {
    pub action: Seq<char>,
    pub dealer: Seq<CardView>,
    pub player: Seq<CardView>,
    pub split: Seq<CardView>,
    pub split_result: Seq<char>,
    pub deck: Seq<CardView>,
    pub wager: u128,
    pub result: Seq<char>,
    pub winnings: u128,
}

impl View for Blackjack {
    type V = BlackjackView;

    open spec fn view(&self) -> BlackjackView {
        BlackjackView {
            action: self.action@,
            dealer: hand(self.dealer@),
            player: hand(self.player@),
            split: hand(self.split@),
            split_result: self.split_result@,
            deck: hand(self.deck@),
            wager: self.wager,
            result: self.result@,
            winnings: self.winnings,
        }
    }
}

} // verus!
