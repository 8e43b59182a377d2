//! The deck of cards, drawing from it, the block's random seed, and the
//! admin's deposits.

use vstd::prelude::*;
use crate::error::ContractError;
use crate::state::{Admin, Card, CardView, hand};
use crate::text::text;

verus! {

/// The suit of the card at position `i` of a fresh deck.
pub open spec fn suit_name(i: int) -> Seq<char> {
    if i / 13 == 0 {
        "clubs"@
    } else if i / 13 == 1 {
        "diamonds"@
    } else if i / 13 == 2 {
        "hearts"@
    } else {
        "spades"@
    }
}

/// The face of the card at position `i` of a fresh deck: each suit runs ace,
/// two to ten, jack, king, queen.
pub open spec fn face_name(i: int) -> Seq<char> {
    if i % 13 == 0 {
        "ace"@
    } else if i % 13 <= 9 {
        "number"@
    } else if i % 13 == 10 {
        "jack"@
    } else if i % 13 == 11 {
        "king"@
    } else {
        "queen"@
    }
}

/// The points of the card at position `i` of a fresh deck.
pub open spec fn card_points(i: int) -> int {
    if i % 13 == 0 {
        11
    } else if i % 13 <= 9 {
        i % 13 + 1
    } else {
        10
    }
}

/// The card at position `i` of a fresh deck.
pub open spec fn standard_card_view(i: int) -> CardView {
    CardView { suit: suit_name(i), number: card_points(i) as u32, face: face_name(i), id: i as u32 }
}

/// A fresh deck: the 52 cards in order.
pub open spec fn fresh_deck() -> Seq<CardView> {
    Seq::new(52, |i: int| standard_card_view(i))
}

fn standard_card(i: u32) -> (c: Card)
    requires
        i < 52,
    ensures
        c@ == standard_card_view(i as int),
{
    let suit = if i / 13 == 0 {
        text("clubs")
    } else if i / 13 == 1 {
        text("diamonds")
    } else if i / 13 == 2 {
        text("hearts")
    } else {
        text("spades")
    };
    let r = i % 13;
    let face = if r == 0 {
        text("ace")
    } else if r <= 9 {
        text("number")
    } else if r == 10 {
        text("jack")
    } else if r == 11 {
        text("king")
    } else {
        text("queen")
    };
    let number = if r == 0 {
        11
    } else if r <= 9 {
        r + 1
    } else {
        10
    };
    Card { suit, number, face, id: i }
}

/// A fresh deck of 52 cards: clubs, diamonds, hearts, spades, each running
/// ace (11 points), two to ten, jack, king, queen (10 points each); a card's
/// id is its position.
pub fn try_get_deck() -> (deck: Vec<Card>)
    ensures
        hand(deck@) == fresh_deck(),
{
    let mut deck: Vec<Card> = Vec::new();
    let mut i: u32 = 0;
    while i < 52
        invariant
            i <= 52,
            deck@.len() == i,
            forall|j: int| 0 <= j < i ==> #[trigger] deck@[j]@ == standard_card_view(j),
        decreases 52 - i,
    {
        let c = standard_card(i);
        deck.push(c);
        i = i + 1;
    }
    proof {
        assert(hand(deck@) =~= fresh_deck());
    }
    deck
}

/// The number that a random seed yields: its first four bytes, little-endian.
pub open spec fn seed_word(bytes: Seq<u8>) -> int {
    bytes[0] + 256 * bytes[1] + 65536 * bytes[2] + 16777216 * bytes[3]
}

/// The number drawn from the block's random seed, if the block carries a
/// seed of at least four bytes.
pub open spec fn random_of(random: Option<Vec<u8>>) -> Option<u32> {
    match random {
        Some(b) => if b@.len() >= 4 {
            Some(seed_word(b@) as u32)
        } else {
            None
        },
        None => None,
    }
}

/// The number drawn from the block's random seed, if the block carries a
/// seed of at least four bytes: `u32::from_le_bytes` of its first four bytes.
pub fn random_word(random: &Option<Vec<u8>>) -> (r: Option<u32>)
    ensures
        r == random_of(*random),
        r matches Some(w) ==> w == seed_word(random->0@),
{
    match random {
        Some(b) => {
            if b.len() >= 4 {
                let w: u32 = b[0] as u32 + 256 * (b[1] as u32) + 65536 * (b[2] as u32) + 16777216 * (
                b[3] as u32);
                Some(w)
            } else {
                None
            }
        },
        None => None,
    }
}

/// The position at which a draw with random number `random` takes a card
/// from a deck of `len` cards.
pub open spec fn draw_index(random: u32, len: nat) -> int {
    random as int % len as int
}

/// Draws the card at position `random % deck.len()`: returns it and the deck
/// without it.
pub fn try_draw_card(random: u32, deck: Vec<Card>) -> (r: (Card, Vec<Card>))
    requires
        0 < deck@.len() <= u32::MAX,
    ensures
        r.0 == deck@[draw_index(random, deck@.len())],
        r.1@ == deck@.remove(draw_index(random, deck@.len())),
        hand(r.1@) == hand(deck@).remove(draw_index(random, deck@.len())),
{
    let mut stock = deck;
    let spin = random % (stock.len() as u32);
    let card = stock.remove(spin as usize);
    proof {
        assert(hand(stock@) =~= hand(deck@).remove(draw_index(random, deck@.len())));
    }
    (card, stock)
}

/// Credits a deposit to the admin's vault.
pub fn deposit_receive(admin: Admin, amount: u128) -> (r: Result<Admin, ContractError>)
    ensures
        admin.vault + amount > u128::MAX ==> r == Err::<Admin, ContractError>(ContractError::Overflow),
        admin.vault + amount <= u128::MAX ==> (r matches Ok(a) && a.admin == admin.admin && a.vault
            == admin.vault + amount),
{
    let mut admin = admin;
    match admin.vault.checked_add(amount) {
        Some(v) => {
            admin.vault = v;
            Ok(admin)
        },
        None => Err(ContractError::Overflow),
    }
}

} // verus!
