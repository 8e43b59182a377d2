//! Blackjack: scoring hands, the dealer's play, and the game's phases.

use vstd::prelude::*;
use crate::error::ContractError;
use crate::state::{State, Card, CardView, Blackjack, BlackjackView, hand};
use crate::msg::{Response, ResponseView, MessageView, transfer_view, transfer_message};
use crate::text::{
    join_decimal, join_numbers, decimal, text, is_text, decimal_string, split_on, parse_all,
    lemma_split_join, lemma_parse_decimal,
};
use crate::operations::{draw_index, try_draw_card, try_get_deck, fresh_deck, random_of, random_word};

verus! {

/// The sum of the cards' points.
pub open spec fn points_sum(cards: Seq<CardView>) -> int
    decreases cards.len(),
{
    if cards.len() == 0 {
        0
    } else {
        points_sum(cards.drop_last()) + cards.last().number
    }
}

/// The number of cards worth 11 points (aces not yet counted low).
pub open spec fn ace_count(cards: Seq<CardView>) -> int
    decreases cards.len(),
{
    if cards.len() == 0 {
        0
    } else {
        ace_count(cards.drop_last()) + if cards.last().number == 11 {
            1int
        } else {
            0int
        }
    }
}

/// How many aces must count 1 instead of 11 to bring `sum` to 21 or less.
pub open spec fn aces_needed(sum: int) -> int {
    if sum <= 21 {
        0
    } else {
        (sum - 12) / 10
    }
}

/// The smaller of two integers.
pub open spec fn min(a: int, b: int) -> int {
    if a <= b {
        a
    } else {
        b
    }
}

/// The value of a hand: the sum of its points, where as many aces as are
/// needed to stay at 21 or below (and as there are) count 1 instead of 11.
pub open spec fn point_total(cards: Seq<CardView>) -> int {
    points_sum(cards) - 10 * min(ace_count(cards), aces_needed(points_sum(cards)))
}

/// The value of a hand, or `None` where adding up its points overflows.
pub open spec fn point_total_of(cards: Seq<CardView>) -> Option<u32> {
    if points_sum(cards) <= u32::MAX {
        Some(point_total(cards) as u32)
    } else {
        None
    }
}

/// Adding the card at position `i` to the first `i` cards adds its points,
/// and one ace where it is worth 11.
proof fn lemma_sums_take(cards: Seq<CardView>, i: int)
    requires
        0 <= i < cards.len(),
    ensures
        points_sum(cards.take(i + 1)) == points_sum(cards.take(i)) + cards[i].number,
        ace_count(cards.take(i + 1)) == ace_count(cards.take(i)) + if cards[i].number == 11 {
            1int
        } else {
            0int
        },
{
    assert(cards.take(i + 1).drop_last() =~= cards.take(i));
}

/// Sums of points are never negative, and a hand has no more aces than cards.
proof fn lemma_sums_nonneg(cards: Seq<CardView>)
    ensures
        points_sum(cards) >= 0,
        0 <= ace_count(cards) <= cards.len(),
    decreases cards.len(),
{
    if cards.len() > 0 {
        lemma_sums_nonneg(cards.drop_last());
    }
}

/// A longer prefix of a hand holds at least as many aces.
proof fn lemma_ace_count_prefix(cards: Seq<CardView>, i: int, j: int)
    requires
        0 <= i <= j <= cards.len(),
    ensures
        ace_count(cards.take(i)) <= ace_count(cards.take(j)),
    decreases j - i,
{
    if i < j {
        lemma_ace_count_prefix(cards, i, j - 1);
        lemma_sums_take(cards, j - 1);
    }
}

/// A prefix of a hand is worth no more points than the whole hand.
proof fn lemma_sums_prefix_le(cards: Seq<CardView>, i: int)
    requires
        0 <= i <= cards.len(),
    ensures
        points_sum(cards.take(i)) <= points_sum(cards),
    decreases cards.len() - i,
{
    if i < cards.len() {
        lemma_sums_prefix_le(cards, i + 1);
        lemma_sums_take(cards, i);
        lemma_sums_nonneg(cards.take(i));
    } else {
        assert(cards.take(i) =~= cards);
    }
}

/// `aces_needed(sum)` is the least number of tens that brings `sum` to 21 or below.
proof fn lemma_needed_bounds(sum: int)
    ensures
        aces_needed(sum) >= 0,
        sum - 10 * aces_needed(sum) <= 21,
        sum > 21 ==> sum - 10 * (aces_needed(sum) - 1) > 21,
        sum > 21 ==> sum - 10 * aces_needed(sum) >= 12,
{
    if sum > 21 {
        let need = (sum - 12) / 10;
        assert(need * 10 <= sum - 12 && sum - 12 < need * 10 + 10) by (nonlinear_arith)
            requires
                sum > 21,
                need == (sum - 12) / 10,
        ;
    }
}

/// A hand's value lies between 0 and the sum of its points.
proof fn lemma_point_total_bounds(cards: Seq<CardView>)
    ensures
        0 <= point_total(cards) <= points_sum(cards),
{
    lemma_sums_nonneg(cards);
    lemma_needed_bounds(points_sum(cards));
}

/// The value of a hand, or `None` where adding up its points overflows.
pub fn point_total_checked(cards: &Vec<Card>) -> (r: Option<u32>)
    ensures
        r == point_total_of(hand(cards@)),
{
    let ghost h = hand(cards@);
    let mut i: usize = 0;
    let mut sum: u32 = 0;
    while i < cards.len()
        invariant
            i <= cards.len(),
            h == hand(cards@),
            sum == points_sum(h.take(i as int)),
        decreases cards.len() - i,
    {
        proof {
            lemma_sums_take(h, i as int);
        }
        match sum.checked_add(cards[i].number) {
            Some(s) => sum = s,
            None => {
                proof {
                    lemma_sums_prefix_le(h, i + 1);
                }
                return None;
            },
        }
        i = i + 1;
    }
    proof {
        assert(h.take(cards.len() as int) =~= h);
    }
    let s = sum;
    let ghost need = aces_needed(s as int);
    let mut total = sum;
    i = 0;
    while i < cards.len() && total > 21
        invariant
            i <= cards.len(),
            h == hand(cards@),
            s == points_sum(h),
            need == aces_needed(s as int),
            total == s - 10 * min(ace_count(h.take(i as int)), need),
        decreases cards.len() - i,
    {
        proof {
            lemma_sums_take(h, i as int);
        }
        if cards[i].number == 11 {
            total = total - 10;
        }
        i = i + 1;
    }
    proof {
        lemma_ace_count_prefix(h, i as int, cards.len() as int);
        lemma_sums_nonneg(h.take(i as int));
        assert(h.take(cards.len() as int) =~= h);
        lemma_needed_bounds(s as int);
        lemma_point_total_bounds(h);
    }
    Some(total)
}

/// The value of a hand: the sum of its cards' points, where aces count 1
/// instead of 11, in the order of the hand, while the total is above 21.
pub fn bj_find_point_total(cards: &Vec<Card>) -> (total: u32)
    requires
        points_sum(hand(cards@)) <= u32::MAX,
    ensures
        total == point_total(hand(cards@)),
{
    proof {
        lemma_point_total_bounds(hand(cards@));
    }
    point_total_checked(cards).unwrap()
}

/// The ids of the cards, in order.
pub open spec fn card_ids(cards: Seq<CardView>) -> Seq<int> {
    cards.map_values(|c: CardView| c.id as int)
}

/// The text that reports a hand: its cards' ids in decimal, separated by commas.
pub open spec fn ids_text(cards: Seq<CardView>) -> Seq<char> {
    join_decimal(card_ids(cards), ","@)
}

/// The ids of the cards, in order, in decimal, separated by commas.
pub fn bj_return_id_string(cards: &Vec<Card>) -> (s: String)
    ensures
        s@ == ids_text(hand(cards@)),
{
    let mut ids: Vec<u32> = Vec::new();
    let mut i: usize = 0;
    while i < cards.len()
        invariant
            i <= cards.len(),
            ids@.len() == i,
            forall|j: int| 0 <= j < i ==> ids@[j] == cards@[j].id,
        decreases cards.len() - i,
    {
        ids.push(cards[i].id);
        i = i + 1;
    }
    proof {
        assert(ids@.map_values(|x: u32| x as int) =~= card_ids(hand(cards@)));
    }
    join_numbers(&ids, ",")
}

/// Counts aces low, in the order of the hand, from position `i` on, while
/// the total is above 21: each such ace becomes a card of 1 point.
pub open spec fn soften(total: int, cards: Seq<CardView>, i: int) -> (int, Seq<CardView>)
    decreases cards.len() - i,
{
    if i < 0 || i >= cards.len() || total <= 21 {
        (total, cards)
    } else if cards[i].number == 11 {
        soften(total - 10, cards.update(i, CardView { number: 1, ..cards[i] }), i + 1)
    } else {
        soften(total, cards, i + 1)
    }
}

/// The dealer's play from a hand worth `total`: below 17 the dealer draws
/// (with the block's random number) and adds the card's points, and when
/// that passes 21 turns aces low as `soften` does. The result is the final
/// total, hand and deck, or why the play aborts.
pub open spec fn dealer_loop(
    random: Option<u32>,
    total: int,
    cards: Seq<CardView>,
    deck: Seq<CardView>,
) -> Result<(u32, Seq<CardView>, Seq<CardView>), ContractError>
    decreases deck.len(),
{
    if total >= 17 {
        Ok((total as u32, cards, deck))
    } else {
        match random {
            None => Err(ContractError::MissingRandom),
            Some(r) => if deck.len() == 0 {
                Err(ContractError::EmptyDeck)
            } else {
                let idx = draw_index(r, deck.len());
                let c = deck[idx];
                let t = total + c.number;
                if t > u32::MAX {
                    Err(ContractError::Overflow)
                } else {
                    let (t2, cards2) = soften(t, cards.push(c), 0);
                    dealer_loop(random, t2, cards2, deck.remove(idx))
                }
            },
        }
    }
}

/// The dealer's play from hand `cards`, starting from the hand's value.
pub open spec fn resolve_dealer(random: Option<u32>, cards: Seq<CardView>, deck: Seq<CardView>) -> Result<
    (u32, Seq<CardView>, Seq<CardView>),
    ContractError,
> {
    match point_total_of(cards) {
        None => Err(ContractError::Overflow),
        Some(t) => dealer_loop(random, t as int, cards, deck),
    }
}

pub open spec fn dealer_view(r: Result<(u32, Vec<Card>, Vec<Card>), ContractError>) -> Result<
    (u32, Seq<CardView>, Seq<CardView>),
    ContractError,
> {
    match r {
        Ok((t, c, d)) => Ok((t, hand(c@), hand(d@))),
        Err(e) => Err(e),
    }
}

/// The dealer's play, as `resolve_dealer` states it.
pub fn resolve_dealer_checked(random: Option<u32>, cards: Vec<Card>, deck: Vec<Card>) -> (r: Result<
    (u32, Vec<Card>, Vec<Card>),
    ContractError,
>)
    requires
        deck@.len() <= u32::MAX,
    ensures
        dealer_view(r) == resolve_dealer(random, hand(cards@), hand(deck@)),
        r matches Ok((_, _, d)) ==> d@.len() <= deck@.len(),
{
    let start = match point_total_checked(&cards) {
        Some(t) => t,
        None => return Err(ContractError::Overflow),
    };
    proof {
        lemma_point_total_bounds(hand(cards@));
    }
    let ghost goal = resolve_dealer(random, hand(cards@), hand(deck@));
    let mut total = start;
    let mut held = cards;
    let mut stock = deck;
    while total < 17
        invariant
            stock@.len() <= deck@.len() <= u32::MAX,
            goal == resolve_dealer(random, hand(cards@), hand(deck@)),
            dealer_loop(random, total as int, hand(held@), hand(stock@)) == goal,
        decreases stock@.len(),
    {
        let r = match random {
            Some(r) => r,
            None => return Err(ContractError::MissingRandom),
        };
        if stock.len() == 0 {
            return Err(ContractError::EmptyDeck);
        }
        let ghost idx = draw_index(r, stock@.len());
        let ghost before = hand(held@);
        let (c, d) = try_draw_card(r, stock);
        stock = d;
        let n = c.number;
        held.push(c);
        proof {
            assert(hand(held@) =~= before.push(c@));
        }
        total = match total.checked_add(n) {
            Some(t) => t,
            None => return Err(ContractError::Overflow),
        };
        let ghost t0 = total as int;
        let ghost c0 = hand(held@);
        let mut i: usize = 0;
        while i < held.len() && total > 21
            invariant
                i <= held.len(),
                soften(total as int, hand(held@), i as int) == soften(t0, c0, 0),
            decreases held.len() - i,
        {
            let ghost prev = hand(held@);
            if held[i].number == 11 {
                held[i].number = 1;
                total = total - 10;
                proof {
                    assert(hand(held@) =~= prev.update(i as int, CardView { number: 1, ..prev[i as int] }));
                }
            }
            i = i + 1;
        }
    }
    Ok((total, held, stock))
}

/// The dealer's play: draws while the hand is worth less than 17, counting
/// aces low when it passes 21; returns the final total, hand and deck.
pub fn bj_resolve_dealer(random: u32, cards: Vec<Card>, deck: Vec<Card>) -> (r: (u32, Vec<Card>, Vec<Card>))
    requires
        deck@.len() <= u32::MAX,
        resolve_dealer(Some(random), hand(cards@), hand(deck@)) is Ok,
    ensures
        resolve_dealer(Some(random), hand(cards@), hand(deck@)) == Ok::<
            (u32, Seq<CardView>, Seq<CardView>),
            ContractError,
        >((r.0, hand(r.1@), hand(r.2@))),
{
    let r = resolve_dealer_checked(Some(random), cards, deck);
    match r {
        Ok(v) => v,
        Err(_) => {
            proof {
                assert(false);
            }
            (0, Vec::new(), Vec::new())
        }
    }
}


/// Drawing a card with the block's random number: the card at position
/// `random % deck.len()`, and the deck without it.
pub open spec fn draw(random: Option<u32>, deck: Seq<CardView>) -> Result<
    (CardView, Seq<CardView>),
    ContractError,
> {
    match random {
        None => Err(ContractError::MissingRandom),
        Some(r) => if deck.len() == 0 {
            Err(ContractError::EmptyDeck)
        } else {
            Ok((deck[draw_index(r, deck.len())], deck.remove(draw_index(r, deck.len()))))
        },
    }
}

/// The value of a hand, or the abort of an overflowing sum.
pub open spec fn total_of(cards: Seq<CardView>) -> Result<u32, ContractError> {
    match point_total_of(cards) {
        Some(t) => Ok(t),
        None => Err(ContractError::Overflow),
    }
}

/// An amount of tokens, or the abort of an amount that does not fit.
pub open spec fn amount_of(v: int) -> Result<u128, ContractError> {
    if 0 <= v <= u128::MAX {
        Ok(v as u128)
    } else {
        Err(ContractError::Overflow)
    }
}

/// The response with the given messages and attributes.
pub open spec fn reply(messages: Seq<MessageView>, attributes: Seq<(Seq<char>, Seq<char>)>) -> ResponseView {
    ResponseView { messages, attributes }
}

/// The payout message to `to`, where `amount` is not zero.
pub open spec fn payout(state: State, to: Seq<char>, amount: u128) -> Seq<MessageView> {
    if amount > 0 {
        seq![transfer_view(state, to, amount)]
    } else {
        Seq::empty()
    }
}

/// The game of a player who has not played before.
pub open spec fn fresh_game() -> BlackjackView {
    BlackjackView {
        action: "ready"@,
        dealer: Seq::empty(),
        player: Seq::empty(),
        split: Seq::empty(),
        split_result: "nosplit"@,
        deck: Seq::empty(),
        wager: 0,
        result: "in progress"@,
        winnings: 0,
    }
}

pub open spec fn game_view(r: Result<(Blackjack, Response), ContractError>) -> Result<
    (BlackjackView, ResponseView),
    ContractError,
> {
    match r {
        Ok((b, resp)) => Ok((b@, resp@)),
        Err(e) => Err(e),
    }
}

fn take_cards(v: &mut Vec<Card>) -> (r: Vec<Card>)
    ensures
        r == *old(v),
        final(v)@ == Seq::<Card>::empty(),
{
    let mut taken: Vec<Card> = Vec::new();
    std::mem::swap(&mut taken, v);
    taken
}

fn draw_card(random: Option<u32>, deck: Vec<Card>) -> (r: Result<(Card, Vec<Card>), ContractError>)
    requires
        deck@.len() <= u32::MAX,
    ensures
        r matches Ok((c, d)) ==> draw(random, hand(deck@)) == Ok::<
            (CardView, Seq<CardView>),
            ContractError,
        >((c@, hand(d@))) && d@.len() < deck@.len(),
        r matches Err(e) ==> draw(random, hand(deck@)) == Err::<(CardView, Seq<CardView>), ContractError>(e),
{
    match random {
        None => Err(ContractError::MissingRandom),
        Some(w) => {
            if deck.len() == 0 {
                Err(ContractError::EmptyDeck)
            } else {
                let (c, d) = try_draw_card(w, deck);
                Ok((c, d))
            }
        },
    }
}

fn total_of_hand(cards: &Vec<Card>) -> (r: Result<u32, ContractError>)
    ensures
        r == total_of(hand(cards@)),
{
    match point_total_checked(cards) {
        Some(t) => Ok(t),
        None => Err(ContractError::Overflow),
    }
}

/// The cards of a new game dealt with random number `w` from a fresh deck:
/// two to the player and two to the dealer, alternately, and what is left.
pub open spec fn dealt(w: u32) -> (Seq<CardView>, Seq<CardView>, Seq<CardView>) {
    let d0 = fresh_deck();
    let d1 = d0.remove(draw_index(w, 52));
    let d2 = d1.remove(draw_index(w, 51));
    let d3 = d2.remove(draw_index(w, 50));
    (
        seq![d0[draw_index(w, 52)], d2[draw_index(w, 50)]],
        seq![d1[draw_index(w, 51)], d3[draw_index(w, 49)]],
        d3.remove(draw_index(w, 49)),
    )
}

/// Dealing a new game: a fresh deck, two cards to the player and two to the
/// dealer, alternately. An ace or a ten-point card showing for the dealer
/// offers insurance; a player's blackjack ends the game at once, paying the
/// wager back (a push against a dealer's blackjack) or two and a half times it.
pub open spec fn deal_spec(state: State, bj: BlackjackView, from: Seq<char>, amount: u128, random: Option<u32>) -> Result<
    (BlackjackView, ResponseView),
    ContractError,
> {
    if bj.action != "ready"@ {
        Err(ContractError::InvalidPhase)
    } else {
        match random {
            None => Err(ContractError::MissingRandom),
            Some(w) => deal_outcome(state, bj, from, amount, dealt(w)),
        }
    }
}

/// The game after dealing `cards` (player's hand, dealer's hand, deck).
pub open spec fn deal_outcome(
    state: State,
    bj: BlackjackView,
    from: Seq<char>,
    amount: u128,
    cards: (Seq<CardView>, Seq<CardView>, Seq<CardView>),
) -> Result<(BlackjackView, ResponseView), ContractError> {
    let (player, dealer, deck) = cards;
    let shown = dealer[1];
    let msg = if shown.number == 10 || shown.number == 11 {
        "insurance"@
    } else {
        "deal"@
    };
    let blackjack = point_total(player) == 21;
    let base = BlackjackView {
        action: if blackjack {
            "ready"@
        } else {
            msg
        },
        dealer,
        player,
        split: Seq::empty(),
        split_result: "nosplit"@,
        deck,
        wager: amount,
        result: "in progress"@,
        winnings: bj.winnings,
    };
    if !blackjack {
        Ok(
            (
                base,
                reply(
                    Seq::empty(),
                    seq![
                        ("player_cards"@, ids_text(player)),
                        ("dealer_cards"@, decimal(shown.id as nat)),
                        ("result"@, msg),
                    ],
                ),
            ),
        )
    } else {
        let push = point_total(dealer) == 21;
        let res = if push {
            "push"@
        } else {
            "blackjack"@
        };
        let won = if push {
            amount as int
        } else {
            amount * 5 / 2
        };
        if !push && amount * 5 > u128::MAX {
            Err(ContractError::Overflow)
        } else if won == 0 {
            Ok(
                (
                    base,
                    reply(
                        Seq::empty(),
                        seq![
                            ("player_cards"@, ids_text(player)),
                            ("dealer_cards"@, decimal(shown.id as nat)),
                            ("result"@, res),
                        ],
                    ),
                ),
            )
        } else {
            Ok(
                (
                    BlackjackView { result: res, winnings: won as u128, ..base },
                    reply(
                        seq![transfer_view(state, from, won as u128)],
                        seq![
                            ("player_cards"@, ids_text(player)),
                            ("dealer_cards"@, ids_text(dealer)),
                            ("result"@, res),
                        ],
                    ),
                ),
            )
        }
    }
}

fn deal_cards(random: Option<u32>) -> (r: Result<(Vec<Card>, Vec<Card>, Vec<Card>), ContractError>)
    ensures
        random is None ==> r == Err::<(Vec<Card>, Vec<Card>, Vec<Card>), ContractError>(
            ContractError::MissingRandom,
        ),
        random matches Some(w) ==> (r matches Ok((p, d, k)) && (hand(p@), hand(d@), hand(k@)) == dealt(
            w,
        )),
        r matches Ok((p, d, k)) ==> p@.len() == 2 && d@.len() == 2 && k@.len() == 48,
{
    let w = match random {
        Some(w) => w,
        None => return Err(ContractError::MissingRandom),
    };
    let deck = try_get_deck();
    assert(deck@.len() == hand(deck@).len());
    let (c1, deck) = try_draw_card(w, deck);
    let (c2, deck) = try_draw_card(w, deck);
    let (c3, deck) = try_draw_card(w, deck);
    let (c4, deck) = try_draw_card(w, deck);
    let mut player: Vec<Card> = Vec::new();
    player.push(c1);
    player.push(c3);
    let mut dealer: Vec<Card> = Vec::new();
    dealer.push(c2);
    dealer.push(c4);
    proof {
        assert(hand(player@) =~= dealt(w).0);
        assert(hand(dealer@) =~= dealt(w).1);
    }
    Ok((player, dealer, deck))
}

/// The cards of a fresh deck are worth at most 11 points each.
proof fn lemma_fresh_deck_small(w: u32)
    ensures
        forall|i: int| 0 <= i < 2 ==> #[trigger] dealt(w).0[i].number <= 11,
        forall|i: int| 0 <= i < 2 ==> #[trigger] dealt(w).1[i].number <= 11,
{
    let d0 = fresh_deck();
    assert(forall|i: int| 0 <= i < 52 ==> #[trigger] d0[i].number <= 11);
}

#[verifier::rlimit(40)]
fn deal(state: &State, bj: Blackjack, from: &String, amount: u128, random: Option<u32>) -> (r: Result<
    (Blackjack, Response),
    ContractError,
>)
    ensures
        game_view(r) == deal_spec(*state, bj@, from@, amount, random),
{
    let mut game = bj;
    if !is_text(&game.action, "ready") {
        return Err(ContractError::InvalidPhase);
    }
    let (player, dealer, deck) = deal_cards(random)?;
    let ghost w = random->0;
    proof {
        lemma_fresh_deck_small(w);
        lemma_small_hand_total(hand(player@));
        lemma_small_hand_total(hand(dealer@));
    }
    let shown = dealer[1].id;
    let insurance = dealer[1].number == 10 || dealer[1].number == 11;
    game.player = player;
    game.dealer = dealer;
    game.split = Vec::new();
    game.split_result = text("nosplit");
    game.result = text("in progress");
    let mut send_dealer = decimal_string(shown as u128);
    game.action = text("deal");
    game.deck = deck;
    game.wager = amount;
    let mut result = text("deal");
    if insurance {
        result = text("insurance");
        game.action = text("insurance");
    }
    let mut winnings: u128 = 0;
    let player_total = bj_find_point_total(&game.player);
    if player_total == 21 {
        game.action = text("ready");
        let dealer_total = bj_find_point_total(&game.dealer);
        if dealer_total == 21 {
            winnings = game.wager;
            result = text("push");
        } else {
            winnings = match game.wager.checked_mul(5) {
                Some(v) => v / 2,
                None => return Err(ContractError::Overflow),
            };
            result = text("blackjack");
        }
    }
    let send_player = bj_return_id_string(&game.player);
    let mut response = Response::new();
    if winnings == 0 {
        response.add_attribute("player_cards", send_player);
        response.add_attribute("dealer_cards", send_dealer);
        response.add_attribute("result", result);
        proof {
            assert(hand(game.split@) =~= Seq::<CardView>::empty());
            assert(response@.attributes =~= seq![
                ("player_cards"@, send_player@),
                ("dealer_cards"@, send_dealer@),
                ("result"@, result@),
            ]);
        }
        Ok((game, response))
    } else {
        game.result = result.clone();
        game.winnings = winnings;
        send_dealer = bj_return_id_string(&game.dealer);
        response.add_message(transfer_message(state, from.clone(), winnings));
        response.add_attribute("player_cards", send_player);
        response.add_attribute("dealer_cards", send_dealer);
        response.add_attribute("result", result);
        proof {
            assert(hand(game.split@) =~= Seq::<CardView>::empty());
            assert(response@.messages =~= seq![transfer_view(*state, from@, winnings)]);
            assert(response@.attributes =~= seq![
                ("player_cards"@, send_player@),
                ("dealer_cards"@, send_dealer@),
                ("result"@, result@),
            ]);
        }
        Ok((game, response))
    }
}

/// A hand of cards worth at most 11 points each adds up without overflow.
proof fn lemma_small_hand_total(cards: Seq<CardView>)
    requires
        cards.len() <= 52,
        forall|i: int| 0 <= i < cards.len() ==> #[trigger] cards[i].number <= 11,
    ensures
        points_sum(cards) <= 11 * cards.len(),
    decreases cards.len(),
{
    if cards.len() > 0 {
        lemma_small_hand_total(cards.drop_last());
    }
}


/// Splitting a pair: the second card of the hand starts the right hand, and
/// each hand gets a new card; the left hand plays first.
pub open spec fn split_spec(bj: BlackjackView, amount: u128, random: Option<u32>) -> Result<
    (BlackjackView, ResponseView),
    ContractError,
> {
    if amount != bj.wager {
        Err(ContractError::InvalidSplitAmount)
    } else if bj.action != "deal"@ {
        Err(ContractError::InvalidPhase)
    } else if bj.player.len() < 2 {
        Err(ContractError::MissingCard)
    } else if bj.player[0].number != bj.player[1].number {
        Err(ContractError::CannotSplit)
    } else {
        match draw(random, bj.deck) {
            Err(e) => Err(e),
            Ok((c1, d1)) => match draw(random, d1) {
                Err(e) => Err(e),
                Ok((c2, d2)) => {
                    let left = bj.player.remove(1).push(c1);
                    let right = bj.split.push(bj.player[1]).push(c2);
                    Ok(
                        (
                            BlackjackView {
                                action: "splitL"@,
                                player: left,
                                split: right,
                                split_result: "inprogress"@,
                                deck: d2,
                                ..bj
                            },
                            reply(
                                Seq::empty(),
                                seq![("left_split"@, ids_text(left)), ("right_split"@, ids_text(right))],
                            ),
                        ),
                    )
                },
            },
        }
    }
}

fn split(bj: Blackjack, amount: u128, random: Option<u32>) -> (r: Result<(Blackjack, Response), ContractError>)
    requires
        bj.deck@.len() <= u32::MAX,
    ensures
        game_view(r) == split_spec(bj@, amount, random),
{
    let mut game = bj;
    if amount != game.wager {
        return Err(ContractError::InvalidSplitAmount);
    }
    if !is_text(&game.action, "deal") {
        return Err(ContractError::InvalidPhase);
    }
    if game.player.len() < 2 {
        return Err(ContractError::MissingCard);
    }
    if game.player[0].number != game.player[1].number {
        return Err(ContractError::CannotSplit);
    }
    let ghost p0 = hand(game.player@);
    let ghost s0 = hand(game.split@);
    let second = game.player.remove(1);
    game.split.push(second);
    proof {
        assert(hand(game.player@) =~= p0.remove(1));
        assert(hand(game.split@) =~= s0.push(p0[1]));
    }
    let deck = take_cards(&mut game.deck);
    let (c1, deck) = draw_card(random, deck)?;
    let ghost l0 = hand(game.player@);
    game.player.push(c1);
    let (c2, deck) = draw_card(random, deck)?;
    let ghost r0 = hand(game.split@);
    game.split.push(c2);
    proof {
        assert(hand(game.player@) =~= l0.push(c1@));
        assert(hand(game.split@) =~= r0.push(c2@));
    }
    let send_left = bj_return_id_string(&game.player);
    let send_right = bj_return_id_string(&game.split);
    game.deck = deck;
    game.action = text("splitL");
    game.split_result = text("inprogress");
    let mut response = Response::new();
    response.add_attribute("left_split", send_left);
    response.add_attribute("right_split", send_right);
    proof {
        assert(response@.attributes =~= seq![("left_split"@, send_left@), ("right_split"@, send_right@)]);
    }
    Ok((game, response))
}

/// Where the dealer ends at `dealer` against a hand worth `player`: 2 when
/// the dealer busts or is beaten, 0 when the dealer is higher, 1 on a tie.
pub open spec fn versus(dealer: u32, player: u32) -> int {
    if dealer > 21 || dealer < player {
        2
    } else if dealer > player {
        0
    } else {
        1
    }
}

fn versus_exec(dealer: u32, player: u32) -> (r: u8)
    ensures
        r == versus(dealer, player),
{
    if dealer > 21 {
        2
    } else if dealer < player {
        2
    } else if dealer > player {
        0
    } else {
        1
    }
}

/// Doubling down on a hand worth 10 or 11: one more card, then the dealer
/// plays; a win pays four times the wager, a push twice.
pub open spec fn double_down_spec(
    state: State,
    bj: BlackjackView,
    from: Seq<char>,
    amount: u128,
    random: Option<u32>,
) -> Result<(BlackjackView, ResponseView), ContractError> {
    if amount != bj.wager {
        Err(ContractError::InvalidAmount)
    } else if bj.action != "deal"@ {
        Err(ContractError::InvalidPhase)
    } else {
        match total_of(bj.player) {
            Err(e) => Err(e),
            Ok(pt) => if pt != 10 && pt != 11 {
                Err(ContractError::DoubleDownNotAllowed)
            } else {
                match draw(random, bj.deck) {
                    Err(e) => Err(e),
                    Ok((c, d1)) => {
                        let player = bj.player.push(c);
                        match total_of(player) {
                            Err(e) => Err(e),
                            Ok(pt2) => match resolve_dealer(random, bj.dealer, d1) {
                                Err(e) => Err(e),
                                Ok((dt, dealer, d2)) => {
                                    let v = versus(dt, pt2);
                                    let res = if v == 2 {
                                        "win"@
                                    } else if v == 0 {
                                        "lose"@
                                    } else {
                                        "push"@
                                    };
                                    let won = bj.wager * 2 * v;
                                    if won > u128::MAX {
                                        Err(ContractError::Overflow)
                                    } else {
                                        Ok(
                                            (
                                                BlackjackView {
                                                    action: "ready"@,
                                                    player,
                                                    dealer,
                                                    deck: d2,
                                                    result: res,
                                                    winnings: won as u128,
                                                    ..bj
                                                },
                                                reply(
                                                    payout(state, from, won as u128),
                                                    seq![
                                                        ("new_card"@, decimal(c.id as nat)),
                                                        ("result"@, res),
                                                        ("dealer_cards"@, ids_text(dealer)),
                                                    ],
                                                ),
                                            ),
                                        )
                                    }
                                },
                            },
                        }
                    },
                }
            },
        }
    }
}

#[verifier::rlimit(30)]
fn double_down(state: &State, bj: Blackjack, from: &String, amount: u128, random: Option<u32>) -> (r: Result<
    (Blackjack, Response),
    ContractError,
>)
    requires
        bj.deck@.len() <= u32::MAX,
    ensures
        game_view(r) == double_down_spec(*state, bj@, from@, amount, random),
{
    let mut game = bj;
    if amount != game.wager {
        return Err(ContractError::InvalidAmount);
    }
    if !is_text(&game.action, "deal") {
        return Err(ContractError::InvalidPhase);
    }
    let player_total = total_of_hand(&game.player)?;
    if player_total != 10 && player_total != 11 {
        return Err(ContractError::DoubleDownNotAllowed);
    }
    let deck = take_cards(&mut game.deck);
    let (c, deck) = draw_card(random, deck)?;
    let ghost p0 = hand(game.player@);
    let new_card = decimal_string(c.id as u128);
    game.player.push(c);
    proof {
        assert(hand(game.player@) =~= p0.push(c@));
    }
    let player_total = total_of_hand(&game.player)?;
    let dealer = take_cards(&mut game.dealer);
    let (dealer_total, dealer_cards, deck) = resolve_dealer_checked(random, dealer, deck)?;
    game.dealer = dealer_cards;
    game.deck = deck;
    game.action = text("ready");
    let send_dealer = bj_return_id_string(&game.dealer);
    let v = versus_exec(dealer_total, player_total);
    let winnings: u128 = if v == 2 {
        match game.wager.checked_mul(4) {
            Some(x) => x,
            None => return Err(ContractError::Overflow),
        }
    } else if v == 0 {
        0
    } else {
        match game.wager.checked_mul(2) {
            Some(x) => x,
            None => return Err(ContractError::Overflow),
        }
    };
    let result = if v == 2 {
        text("win")
    } else if v == 0 {
        text("lose")
    } else {
        text("push")
    };
    game.result = result.clone();
    game.winnings = winnings;
    let mut response = Response::new();
    if winnings > 0 {
        response.add_message(transfer_message(state, from.clone(), winnings));
    }
    response.add_attribute("new_card", new_card);
    response.add_attribute("result", result);
    response.add_attribute("dealer_cards", send_dealer);
    proof {
        assert(response@.messages =~= payout(*state, from@, winnings));
        assert(response@.attributes =~= seq![
            ("new_card"@, new_card@),
            ("result"@, result@),
            ("dealer_cards"@, send_dealer@),
        ]);
    }
    Ok((game, response))
}

/// Taking insurance, for half the wager, when the dealer shows an ace or a
/// ten: against a dealer's blackjack it pays the wager (twice the wager when
/// the player has a blackjack too) and ends the game; otherwise play goes on.
pub open spec fn insurance_spec(
    state: State,
    bj: BlackjackView,
    from: Seq<char>,
    amount: u128,
) -> Result<(BlackjackView, ResponseView), ContractError> {
    if amount != bj.wager / 2 {
        Err(ContractError::InvalidAmount)
    } else if bj.action != "insurance"@ {
        Err(ContractError::InvalidPhase)
    } else {
        match total_of(bj.dealer) {
            Err(e) => Err(e),
            Ok(dt) => if dt == 21 {
                match total_of(bj.player) {
                    Err(e) => Err(e),
                    Ok(pt) => {
                        let res = if pt == 21 {
                            "insurance win/push"@
                        } else {
                            "insurance win"@
                        };
                        let won = if pt == 21 {
                            bj.wager * 2
                        } else {
                            bj.wager as int
                        };
                        if won > u128::MAX {
                            Err(ContractError::Overflow)
                        } else {
                            Ok(
                                (
                                    BlackjackView { action: "ready"@, ..bj },
                                    reply(
                                        seq![transfer_view(state, from, won as u128)],
                                        seq![("result"@, res), ("dealer_cards"@, ids_text(bj.dealer))],
                                    ),
                                ),
                            )
                        }
                    },
                }
            } else {
                Ok(
                    (
                        BlackjackView { action: "deal"@, ..bj },
                        reply(
                            Seq::empty(),
                            seq![("result"@, "insurance loss"@), ("dealer_cards"@, "n/a"@)],
                        ),
                    ),
                )
            },
        }
    }
}

fn insurance(state: &State, bj: Blackjack, from: &String, amount: u128) -> (r: Result<
    (Blackjack, Response),
    ContractError,
>)
    ensures
        game_view(r) == insurance_spec(*state, bj@, from@, amount),
{
    let mut game = bj;
    if amount != game.wager / 2 {
        return Err(ContractError::InvalidAmount);
    }
    if !is_text(&game.action, "insurance") {
        return Err(ContractError::InvalidPhase);
    }
    let dealer_total = total_of_hand(&game.dealer)?;
    game.action = text("deal");
    let mut response = Response::new();
    if dealer_total == 21 {
        game.action = text("ready");
        let send_dealer = bj_return_id_string(&game.dealer);
        let player_total = total_of_hand(&game.player)?;
        let mut winnings: u128 = game.wager;
        let mut result = text("insurance win");
        if player_total == 21 {
            winnings = match winnings.checked_add(game.wager) {
                Some(x) => x,
                None => return Err(ContractError::Overflow),
            };
            result = text("insurance win/push");
        }
        response.add_message(transfer_message(state, from.clone(), winnings));
        response.add_attribute("result", result);
        response.add_attribute("dealer_cards", send_dealer);
        proof {
            assert(response@.messages =~= seq![transfer_view(*state, from@, winnings)]);
            assert(response@.attributes =~= seq![("result"@, result@), ("dealer_cards"@, send_dealer@)]);
        }
        Ok((game, response))
    } else {
        response.add_attribute("result", text("insurance loss"));
        response.add_attribute("dealer_cards", text("n/a"));
        proof {
            assert(response@.attributes =~= seq![
                ("result"@, "insurance loss"@),
                ("dealer_cards"@, "n/a"@),
            ]);
        }
        Ok((game, response))
    }
}


/// The game of a player, or a new game where the player has none.
pub open spec fn game_or_fresh(stored: Option<Blackjack>) -> BlackjackView {
    match stored {
        Some(b) => b@,
        None => fresh_game(),
    }
}

/// `s` is `state` with the jackpot set to `jackpot`.
pub open spec fn with_jackpot(state: State, jackpot: u128) -> State {
    State { jackpot, ..state }
}

/// A blackjack move paid with `amount` tokens: "deal", "split",
/// "double_down" or "insurance". The amount may not exceed the maximum bet;
/// a fiftieth of it goes to the raffle's jackpot.
pub open spec fn blackjack_receive_spec(
    state: State,
    stored: Option<Blackjack>,
    from: Seq<char>,
    amount: u128,
    action: Seq<char>,
    random: Option<u32>,
) -> Result<(u128, BlackjackView, ResponseView), ContractError> {
    if amount > state.max_bet {
        Err(ContractError::AboveMaxBet)
    } else if state.jackpot + amount / 50 > u128::MAX {
        Err(ContractError::Overflow)
    } else {
        let bj = game_or_fresh(stored);
        let step = if action == "deal"@ {
            deal_spec(state, bj, from, amount, random)
        } else if action == "split"@ {
            split_spec(bj, amount, random)
        } else if action == "double_down"@ {
            double_down_spec(state, bj, from, amount, random)
        } else if action == "insurance"@ {
            insurance_spec(state, bj, from, amount)
        } else {
            Err(ContractError::InvalidAction)
        };
        match step {
            Ok((b, resp)) => Ok(((state.jackpot + amount / 50) as u128, b, resp)),
            Err(e) => Err(e),
        }
    }
}

pub open spec fn receive_view(r: Result<(State, Blackjack, Response), ContractError>) -> Result<
    (u128, BlackjackView, ResponseView),
    ContractError,
> {
    match r {
        Ok((s, b, resp)) => Ok((s.jackpot, b@, resp@)),
        Err(e) => Err(e),
    }
}

/// The player's game when there is none yet.
fn new_game() -> (b: Blackjack)
    ensures
        b@ == fresh_game(),
{
    let b = Blackjack {
        action: text("ready"),
        dealer: Vec::new(),
        player: Vec::new(),
        split: Vec::new(),
        split_result: text("nosplit"),
        deck: Vec::new(),
        wager: 0,
        result: text("in progress"),
        winnings: 0,
    };
    proof {
        assert(b@ =~= fresh_game());
    }
    b
}

/// A blackjack move paid with `amount` tokens (see `blackjack_receive_spec`):
/// returns the state with the new jackpot, the player's game and the response.
pub fn blackjack_receive(
    state: State,
    stored: Option<Blackjack>,
    from: String,
    amount: u128,
    action: String,
    random: &Option<Vec<u8>>,
) -> (r: Result<(State, Blackjack, Response), ContractError>)
    requires
        stored matches Some(b) ==> b.deck@.len() <= u32::MAX,
    ensures
        receive_view(r) == blackjack_receive_spec(state, stored, from@, amount, action@, random_of(*random)),
        r matches Ok((s, _, _)) ==> s == with_jackpot(state, s.jackpot),
{
    if amount > state.max_bet {
        return Err(ContractError::AboveMaxBet);
    }
    let mut house = state;
    house.jackpot = match house.jackpot.checked_add(amount / 50) {
        Some(j) => j,
        None => return Err(ContractError::Overflow),
    };
    let game = match stored {
        Some(b) => b,
        None => new_game(),
    };
    let w = random_word(random);
    let step = if is_text(&action, "deal") {
        deal(&house, game, &from, amount, w)
    } else if is_text(&action, "split") {
        split(game, amount, w)
    } else if is_text(&action, "double_down") {
        double_down(&house, game, &from, amount, w)
    } else if is_text(&action, "insurance") {
        insurance(&house, game, &from, amount)
    } else {
        Err(ContractError::InvalidAction)
    };
    match step {
        Ok((b, resp)) => Ok((house, b, resp)),
        Err(e) => Err(e),
    }
}


/// Hitting: one more card for the hand; above 21 the game is lost.
pub open spec fn hit_spec(bj: BlackjackView, random: Option<u32>) -> Result<
    (BlackjackView, ResponseView),
    ContractError,
> {
    if bj.action != "deal"@ && bj.action != "play"@ {
        Err(ContractError::InvalidPhase)
    } else {
        match draw(random, bj.deck) {
            Err(e) => Err(e),
            Ok((c, d1)) => {
                let player = bj.player.push(c);
                match total_of(player) {
                    Err(e) => Err(e),
                    Ok(pt) => if pt > 21 {
                        Ok(
                            (
                                BlackjackView {
                                    player,
                                    deck: d1,
                                    action: "ready"@,
                                    result: "lose"@,
                                    ..bj
                                },
                                reply(
                                    Seq::empty(),
                                    seq![("result"@, "lose"@), ("new_card"@, decimal(c.id as nat))],
                                ),
                            ),
                        )
                    } else {
                        Ok(
                            (
                                BlackjackView { player, deck: d1, action: "play"@, ..bj },
                                reply(
                                    Seq::empty(),
                                    seq![("result"@, "play"@), ("new_card"@, decimal(c.id as nat))],
                                ),
                            ),
                        )
                    },
                }
            },
        }
    }
}

fn hit(bj: Blackjack, random: Option<u32>) -> (r: Result<(Blackjack, Response), ContractError>)
    requires
        bj.deck@.len() <= u32::MAX,
    ensures
        game_view(r) == hit_spec(bj@, random),
{
    let mut game = bj;
    if !is_text(&game.action, "deal") && !is_text(&game.action, "play") {
        return Err(ContractError::InvalidPhase);
    }
    let deck = take_cards(&mut game.deck);
    let (c, deck) = draw_card(random, deck)?;
    let new_card = decimal_string(c.id as u128);
    let ghost p0 = hand(game.player@);
    game.player.push(c);
    proof {
        assert(hand(game.player@) =~= p0.push(c@));
    }
    let point_total = total_of_hand(&game.player)?;
    let result;
    if point_total > 21 {
        result = text("lose");
        game.action = text("ready");
        game.result = text("lose");
    } else {
        result = text("play");
        game.action = text("play");
    }
    game.deck = deck;
    let mut response = Response::new();
    response.add_attribute("result", result);
    response.add_attribute("new_card", new_card);
    proof {
        assert(response@.attributes =~= seq![("result"@, result@), ("new_card"@, new_card@)]);
    }
    Ok((game, response))
}

/// The word reported for a result: 2 a win, 0 a loss, 1 a push.
pub open spec fn result_word(v: int, lose: Seq<char>) -> Seq<char> {
    if v == 2 {
        "win"@
    } else if v == 0 {
        lose
    } else {
        "push"@
    }
}

/// Standing: the dealer plays; a win pays twice the wager, a push the wager.
pub open spec fn stand_spec(state: State, bj: BlackjackView, sender: Seq<char>, random: Option<u32>) -> Result<
    (BlackjackView, ResponseView),
    ContractError,
> {
    if bj.action != "deal"@ && bj.action != "play"@ {
        Err(ContractError::InvalidPhase)
    } else {
        match total_of(bj.player) {
            Err(e) => Err(e),
            Ok(pt) => match resolve_dealer(random, bj.dealer, bj.deck) {
                Err(e) => Err(e),
                Ok((dt, dealer, d)) => {
                    let v = versus(dt, pt);
                    let res = result_word(v, "lose"@);
                    let won = bj.wager * v;
                    if won > u128::MAX {
                        Err(ContractError::Overflow)
                    } else {
                        Ok(
                            (
                                BlackjackView {
                                    dealer,
                                    deck: d,
                                    action: "ready"@,
                                    result: res,
                                    winnings: won as u128,
                                    ..bj
                                },
                                reply(
                                    payout(state, sender, won as u128),
                                    seq![("result"@, res), ("dealer_cards"@, ids_text(dealer))],
                                ),
                            ),
                        )
                    }
                },
            },
        }
    }
}

fn word(v: u8, lose: &str) -> (r: String)
    ensures
        r@ == result_word(v as int, lose@),
{
    if v == 2 {
        text("win")
    } else if v == 0 {
        text(lose)
    } else {
        text("push")
    }
}

fn times(wager: u128, v: u8) -> (r: Result<u128, ContractError>)
    requires
        v <= 2,
    ensures
        r == amount_of(wager * v),
{
    match wager.checked_mul(v as u128) {
        Some(x) => Ok(x),
        None => Err(ContractError::Overflow),
    }
}

fn stand(state: &State, bj: Blackjack, sender: &String, random: Option<u32>) -> (r: Result<
    (Blackjack, Response),
    ContractError,
>)
    requires
        bj.deck@.len() <= u32::MAX,
    ensures
        game_view(r) == stand_spec(*state, bj@, sender@, random),
{
    let mut game = bj;
    if !is_text(&game.action, "deal") && !is_text(&game.action, "play") {
        return Err(ContractError::InvalidPhase);
    }
    let player_total = total_of_hand(&game.player)?;
    let deck = take_cards(&mut game.deck);
    let dealer = take_cards(&mut game.dealer);
    let (dealer_total, dealer_cards, deck) = resolve_dealer_checked(random, dealer, deck)?;
    game.dealer = dealer_cards;
    game.deck = deck;
    game.action = text("ready");
    let send_dealer = bj_return_id_string(&game.dealer);
    let v = versus_exec(dealer_total, player_total);
    let winnings = times(game.wager, v)?;
    let result = word(v, "lose");
    game.result = result.clone();
    game.winnings = winnings;
    let mut response = Response::new();
    if winnings > 0 {
        response.add_message(transfer_message(state, sender.clone(), winnings));
    }
    response.add_attribute("result", result);
    response.add_attribute("dealer_cards", send_dealer);
    proof {
        assert(response@.messages =~= payout(*state, sender@, winnings));
        assert(response@.attributes =~= seq![("result"@, result@), ("dealer_cards"@, send_dealer@)]);
    }
    Ok((game, response))
}

/// Hitting the left hand of a split; above 21 it is lost and play moves to
/// the right hand.
pub open spec fn split_hit_left_spec(bj: BlackjackView, random: Option<u32>) -> Result<
    (BlackjackView, ResponseView),
    ContractError,
> {
    if bj.action != "splitL"@ {
        Err(ContractError::InvalidSplitPhase)
    } else {
        match draw(random, bj.deck) {
            Err(e) => Err(e),
            Ok((c, d1)) => {
                let player = bj.player.push(c);
                match total_of(player) {
                    Err(e) => Err(e),
                    Ok(pt) => if pt > 21 {
                        Ok(
                            (
                                BlackjackView {
                                    player,
                                    deck: d1,
                                    action: "splitR"@,
                                    split_result: "loss"@,
                                    ..bj
                                },
                                reply(
                                    Seq::empty(),
                                    seq![("result"@, "lose"@), ("new_card"@, decimal(c.id as nat))],
                                ),
                            ),
                        )
                    } else {
                        Ok(
                            (
                                BlackjackView { player, deck: d1, ..bj },
                                reply(
                                    Seq::empty(),
                                    seq![("result"@, "play"@), ("new_card"@, decimal(c.id as nat))],
                                ),
                            ),
                        )
                    },
                }
            },
        }
    }
}

fn split_hit_left(bj: Blackjack, random: Option<u32>) -> (r: Result<(Blackjack, Response), ContractError>)
    requires
        bj.deck@.len() <= u32::MAX,
    ensures
        game_view(r) == split_hit_left_spec(bj@, random),
{
    let mut game = bj;
    if !is_text(&game.action, "splitL") {
        return Err(ContractError::InvalidSplitPhase);
    }
    let deck = take_cards(&mut game.deck);
    let (c, deck) = draw_card(random, deck)?;
    let new_card = decimal_string(c.id as u128);
    let ghost p0 = hand(game.player@);
    game.player.push(c);
    proof {
        assert(hand(game.player@) =~= p0.push(c@));
    }
    let point_total = total_of_hand(&game.player)?;
    let result;
    if point_total > 21 {
        result = text("lose");
        game.action = text("splitR");
        game.split_result = text("loss");
    } else {
        result = text("play");
    }
    game.deck = deck;
    let mut response = Response::new();
    response.add_attribute("result", result);
    response.add_attribute("new_card", new_card);
    proof {
        assert(response@.attributes =~= seq![("result"@, result@), ("new_card"@, new_card@)]);
    }
    Ok((game, response))
}

/// Standing on the left hand of a split: play moves to the right hand.
pub open spec fn split_stand_left_spec(bj: BlackjackView) -> (BlackjackView, ResponseView) {
    (BlackjackView { split_result: "stand"@, action: "splitR"@, ..bj }, reply(Seq::empty(), Seq::empty()))
}

fn split_stand_left(bj: Blackjack) -> (r: (Blackjack, Response))
    ensures
        (r.0@, r.1@) == split_stand_left_spec(bj@),
{
    let mut game = bj;
    game.split_result = text("stand");
    game.action = text("splitR");
    let response = Response::new();
    (game, response)
}

/// Surrendering right after the deal: half the wager comes back.
pub open spec fn surrender_spec(state: State, bj: BlackjackView, sender: Seq<char>) -> Result<
    (BlackjackView, ResponseView),
    ContractError,
> {
    if bj.action != "deal"@ {
        Err(ContractError::InvalidPhase)
    } else {
        Ok(
            (
                BlackjackView {
                    action: "ready"@,
                    result: "surrender"@,
                    winnings: bj.wager / 2,
                    ..bj
                },
                reply(seq![transfer_view(state, sender, bj.wager / 2)], Seq::empty()),
            ),
        )
    }
}

fn surrender(state: &State, bj: Blackjack, sender: &String) -> (r: Result<(Blackjack, Response), ContractError>)
    ensures
        game_view(r) == surrender_spec(*state, bj@, sender@),
{
    let mut game = bj;
    if !is_text(&game.action, "deal") {
        return Err(ContractError::InvalidPhase);
    }
    game.action = text("ready");
    game.result = text("surrender");
    game.winnings = game.wager / 2;
    let mut response = Response::new();
    response.add_message(transfer_message(state, sender.clone(), game.wager / 2));
    proof {
        assert(response@.messages =~= seq![transfer_view(*state, sender@, game.wager / 2)]);
    }
    Ok((game, response))
}

/// Declining insurance: against a dealer's blackjack the game ends (a push,
/// paying the wager back, when the player has a blackjack too); otherwise
/// play goes on.
pub open spec fn pass_spec(state: State, bj: BlackjackView, sender: Seq<char>) -> Result<
    (BlackjackView, ResponseView),
    ContractError,
> {
    if bj.action != "insurance"@ {
        Err(ContractError::InvalidPhase)
    } else {
        match total_of(bj.dealer) {
            Err(e) => Err(e),
            Ok(dt) => if dt == 21 {
                match total_of(bj.player) {
                    Err(e) => Err(e),
                    Ok(pt) => {
                        let res = if pt == 21 {
                            "push"@
                        } else {
                            "dealer blackjack"@
                        };
                        let won: u128 = if pt == 21 {
                            bj.wager
                        } else {
                            0
                        };
                        Ok(
                            (
                                BlackjackView { action: "ready"@, ..bj },
                                reply(
                                    seq![transfer_view(state, sender, won)],
                                    seq![("result"@, res), ("dealer_cards"@, ids_text(bj.dealer))],
                                ),
                            ),
                        )
                    },
                }
            } else {
                Ok(
                    (
                        BlackjackView { action: "deal"@, ..bj },
                        reply(
                            Seq::empty(),
                            seq![("result"@, "no dealer blackjack"@), ("dealer_cards"@, "n/a"@)],
                        ),
                    ),
                )
            },
        }
    }
}

fn pass(state: &State, bj: Blackjack, sender: &String) -> (r: Result<(Blackjack, Response), ContractError>)
    ensures
        game_view(r) == pass_spec(*state, bj@, sender@),
{
    let mut game = bj;
    if !is_text(&game.action, "insurance") {
        return Err(ContractError::InvalidPhase);
    }
    let dealer_total = total_of_hand(&game.dealer)?;
    game.action = text("deal");
    let mut response = Response::new();
    if dealer_total == 21 {
        game.action = text("ready");
        let send_dealer = bj_return_id_string(&game.dealer);
        let player_total = total_of_hand(&game.player)?;
        let mut result = text("dealer blackjack");
        let mut winnings: u128 = 0;
        if player_total == 21 {
            winnings = game.wager;
            result = text("push");
        }
        response.add_message(transfer_message(state, sender.clone(), winnings));
        response.add_attribute("result", result);
        response.add_attribute("dealer_cards", send_dealer);
        proof {
            assert(response@.messages =~= seq![transfer_view(*state, sender@, winnings)]);
            assert(response@.attributes =~= seq![("result"@, result@), ("dealer_cards"@, send_dealer@)]);
        }
        Ok((game, response))
    } else {
        response.add_attribute("result", text("no dealer blackjack"));
        response.add_attribute("dealer_cards", text("n/a"));
        proof {
            assert(response@.attributes =~= seq![
                ("result"@, "no dealer blackjack"@),
                ("dealer_cards"@, "n/a"@),
            ]);
        }
        Ok((game, response))
    }
}


/// Hitting the right hand of a split. Above 21 the game ends: where the left
/// hand was lost both are; where the left hand stood, the dealer plays
/// against it (a win pays twice the wager, a push the wager).
pub open spec fn split_hit_right_spec(state: State, bj: BlackjackView, sender: Seq<char>, random: Option<u32>) -> Result<
    (BlackjackView, ResponseView),
    ContractError,
> {
    if bj.action != "splitR"@ {
        Err(ContractError::InvalidPhase)
    } else {
        match draw(random, bj.deck) {
            Err(e) => Err(e),
            Ok((c, d1)) => {
                let right = bj.split.push(c);
                let new_card = ("new_card"@, decimal(c.id as nat));
                match total_of(right) {
                    Err(e) => Err(e),
                    Ok(rt) => if rt <= 21 {
                        Ok(
                            (
                                BlackjackView { split: right, deck: d1, ..bj },
                                reply(
                                    Seq::empty(),
                                    seq![("result"@, "play"@), new_card, ("dealer_cards"@, "n/a"@)],
                                ),
                            ),
                        )
                    } else if bj.split_result == "loss"@ {
                        Ok(
                            (
                                BlackjackView {
                                    split: right,
                                    deck: d1,
                                    action: "ready"@,
                                    result: "loss/loss"@,
                                    winnings: 0,
                                    ..bj
                                },
                                reply(
                                    Seq::empty(),
                                    seq![("result"@, "loss/loss"@), new_card, ("dealer_cards"@, "n/a"@)],
                                ),
                            ),
                        )
                    } else if bj.split_result == "stand"@ {
                        match total_of(bj.player) {
                            Err(e) => Err(e),
                            Ok(lt) => match resolve_dealer(random, bj.dealer, d1) {
                                Err(e) => Err(e),
                                Ok((dt, dealer, d2)) => {
                                    let v = versus(dt, lt);
                                    let res = result_word(v, "loss"@) + "/loss"@;
                                    let won = bj.wager * v;
                                    if won > u128::MAX {
                                        Err(ContractError::Overflow)
                                    } else {
                                        Ok(
                                            (
                                                BlackjackView {
                                                    split: right,
                                                    dealer,
                                                    deck: d2,
                                                    action: "ready"@,
                                                    result: res,
                                                    winnings: won as u128,
                                                    ..bj
                                                },
                                                reply(
                                                    payout(state, sender, won as u128),
                                                    seq![
                                                        ("result"@, res),
                                                        new_card,
                                                        ("dealer_cards"@, ids_text(bj.dealer)),
                                                    ],
                                                ),
                                            ),
                                        )
                                    }
                                },
                            },
                        }
                    } else {
                        Err(ContractError::UnknownError)
                    },
                }
            },
        }
    }
}

#[verifier::rlimit(30)]
fn split_hit_right(state: &State, bj: Blackjack, sender: &String, random: Option<u32>) -> (r: Result<
    (Blackjack, Response),
    ContractError,
>)
    requires
        bj.deck@.len() <= u32::MAX,
    ensures
        game_view(r) == split_hit_right_spec(*state, bj@, sender@, random),
{
    let mut game = bj;
    if !is_text(&game.action, "splitR") {
        return Err(ContractError::InvalidPhase);
    }
    let deck = take_cards(&mut game.deck);
    let (c, deck) = draw_card(random, deck)?;
    let new_card = decimal_string(c.id as u128);
    let ghost r0 = hand(game.split@);
    game.split.push(c);
    proof {
        assert(hand(game.split@) =~= r0.push(c@));
    }
    let right_total = total_of_hand(&game.split)?;
    let mut response = Response::new();
    if right_total <= 21 {
        game.deck = deck;
        response.add_attribute("result", text("play"));
        response.add_attribute("new_card", new_card);
        response.add_attribute("dealer_cards", text("n/a"));
        proof {
            assert(response@.attributes =~= seq![
                ("result"@, "play"@),
                ("new_card"@, new_card@),
                ("dealer_cards"@, "n/a"@),
            ]);
        }
        return Ok((game, response));
    }
    game.action = text("ready");
    if is_text(&game.split_result, "loss") {
        game.deck = deck;
        game.result = text("loss/loss");
        game.winnings = 0;
        response.add_attribute("result", text("loss/loss"));
        response.add_attribute("new_card", new_card);
        response.add_attribute("dealer_cards", text("n/a"));
        proof {
            assert(response@.attributes =~= seq![
                ("result"@, "loss/loss"@),
                ("new_card"@, new_card@),
                ("dealer_cards"@, "n/a"@),
            ]);
        }
        Ok((game, response))
    } else if is_text(&game.split_result, "stand") {
        let send_dealer = bj_return_id_string(&game.dealer);
        let left_total = total_of_hand(&game.player)?;
        let dealer = take_cards(&mut game.dealer);
        let (dealer_total, dealer_cards, deck) = resolve_dealer_checked(random, dealer, deck)?;
        game.dealer = dealer_cards;
        game.deck = deck;
        let v = versus_exec(dealer_total, left_total);
        let winnings = times(game.wager, v)?;
        let mut result = word(v, "loss");
        result.append("/loss");
        game.result = result.clone();
        game.winnings = winnings;
        if winnings > 0 {
            response.add_message(transfer_message(state, sender.clone(), winnings));
        }
        response.add_attribute("result", result);
        response.add_attribute("new_card", new_card);
        response.add_attribute("dealer_cards", send_dealer);
        proof {
            assert(response@.messages =~= payout(*state, sender@, winnings));
            assert(response@.attributes =~= seq![
                ("result"@, result@),
                ("new_card"@, new_card@),
                ("dealer_cards"@, send_dealer@),
            ]);
        }
        Ok((game, response))
    } else {
        Err(ContractError::UnknownError)
    }
}

/// One hand of a split against the dealer's final total: the word and the
/// multiple of the wager paid (2 for a win, 1 for a push).
pub open spec fn hand_against(dt: u32, t: u32) -> (Seq<char>, int) {
    if dt < t {
        ("win"@, 2)
    } else if dt == t {
        ("push"@, 1)
    } else {
        ("loss"@, 0)
    }
}

/// Standing on the right hand of a split: the dealer plays against both
/// hands (a left hand already lost stays lost). A dealer above 21 pays both
/// live hands twice the wager; otherwise each hand is settled on its own and
/// the result reads "left/right".
pub open spec fn split_stand_right_spec(state: State, bj: BlackjackView, sender: Seq<char>, random: Option<u32>) -> Result<
    (BlackjackView, ResponseView),
    ContractError,
> {
    match resolve_dealer(random, bj.dealer, bj.deck) {
        Err(e) => Err(e),
        Ok((dt, dealer, d)) => {
            let settled = if dt > 21 {
                if bj.split_result == "loss"@ {
                    Ok(("loss/win"@, bj.wager * 2))
                } else {
                    Ok(("win/win"@, bj.wager * 4))
                }
            } else {
                let first = if bj.split_result != "loss"@ {
                    match total_of(bj.player) {
                        Err(e) => Err(e),
                        Ok(lt) => Ok(hand_against(dt, lt)),
                    }
                } else {
                    Ok(("loss"@, 0int))
                };
                match first {
                    Err(e) => Err(e),
                    Ok((w1, f1)) => match total_of(bj.split) {
                        Err(e) => Err(e),
                        Ok(rt) => {
                            let (w2, f2) = hand_against(dt, rt);
                            Ok((w1 + "/"@ + w2, bj.wager * (f1 + f2)))
                        },
                    },
                }
            };
            match settled {
                Err(e) => Err(e),
                Ok((res, won)) => if won > u128::MAX {
                    Err(ContractError::Overflow)
                } else {
                    Ok(
                        (
                            BlackjackView {
                                dealer,
                                deck: d,
                                action: "ready"@,
                                result: res,
                                winnings: won as u128,
                                ..bj
                            },
                            reply(
                                payout(state, sender, won as u128),
                                seq![("result"@, res), ("dealer_cards"@, ids_text(dealer))],
                            ),
                        ),
                    )
                },
            }
        },
    }
}

fn hand_against_exec(dt: u32, t: u32) -> (r: (String, u8))
    ensures
        (r.0@, r.1 as int) == hand_against(dt, t),
{
    if dt < t {
        (text("win"), 2)
    } else if dt == t {
        (text("push"), 1)
    } else {
        (text("loss"), 0)
    }
}

#[verifier::rlimit(40)]
fn split_stand_right(state: &State, bj: Blackjack, sender: &String, random: Option<u32>) -> (r: Result<
    (Blackjack, Response),
    ContractError,
>)
    requires
        bj.deck@.len() <= u32::MAX,
    ensures
        game_view(r) == split_stand_right_spec(*state, bj@, sender@, random),
{
    let mut game = bj;
    let deck = take_cards(&mut game.deck);
    let dealer = take_cards(&mut game.dealer);
    let (dealer_total, dealer_cards, deck) = resolve_dealer_checked(random, dealer, deck)?;
    game.dealer = dealer_cards;
    game.deck = deck;
    game.action = text("ready");
    let winnings: u128;
    let result: String;
    if dealer_total > 21 {
        if is_text(&game.split_result, "loss") {
            result = text("loss/win");
            winnings = times(game.wager, 2)?;
        } else {
            result = text("win/win");
            winnings = match game.wager.checked_mul(4) {
                Some(x) => x,
                None => return Err(ContractError::Overflow),
            };
        }
    } else {
        let (mut first, f1) = if !is_text(&game.split_result, "loss") {
            let left_total = total_of_hand(&game.player)?;
            hand_against_exec(dealer_total, left_total)
        } else {
            (text("loss"), 0u8)
        };
        let right_total = total_of_hand(&game.split)?;
        let (second, f2) = hand_against_exec(dealer_total, right_total);
        winnings = match game.wager.checked_mul((f1 + f2) as u128) {
            Some(x) => x,
            None => return Err(ContractError::Overflow),
        };
        first.append("/");
        first.append(second.as_str());
        result = first;
    }
    let send_dealer = bj_return_id_string(&game.dealer);
    game.result = result.clone();
    game.winnings = winnings;
    let mut response = Response::new();
    if winnings > 0 {
        response.add_message(transfer_message(state, sender.clone(), winnings));
    }
    response.add_attribute("result", result);
    response.add_attribute("dealer_cards", send_dealer);
    proof {
        assert(response@.messages =~= payout(*state, sender@, winnings));
        assert(response@.attributes =~= seq![("result"@, result@), ("dealer_cards"@, send_dealer@)]);
    }
    Ok((game, response))
}


/// A blackjack move that costs nothing: "hit", "stand", "splithitL",
/// "splithitR", "splitstandL", "splitstandR", "surrender" or "pass". The
/// player must have a game.
pub open spec fn try_blackjack_spec(
    state: State,
    stored: Option<Blackjack>,
    sender: Seq<char>,
    action: Seq<char>,
    random: Option<u32>,
) -> Result<(BlackjackView, ResponseView), ContractError> {
    match stored {
        None => Err(ContractError::NoGameState),
        Some(b) => {
            let bj = b@;
            if action == "hit"@ {
                hit_spec(bj, random)
            } else if action == "stand"@ {
                stand_spec(state, bj, sender, random)
            } else if action == "splithitL"@ {
                split_hit_left_spec(bj, random)
            } else if action == "splithitR"@ {
                split_hit_right_spec(state, bj, sender, random)
            } else if action == "splitstandL"@ {
                Ok(split_stand_left_spec(bj))
            } else if action == "splitstandR"@ {
                split_stand_right_spec(state, bj, sender, random)
            } else if action == "surrender"@ {
                surrender_spec(state, bj, sender)
            } else if action == "pass"@ {
                pass_spec(state, bj, sender)
            } else {
                Err(ContractError::InvalidAction)
            }
        },
    }
}

/// A blackjack move that costs nothing (see `try_blackjack_spec`): returns
/// the player's game and the response.
pub fn try_blackjack(
    state: &State,
    stored: Option<Blackjack>,
    sender: String,
    action: String,
    random: &Option<Vec<u8>>,
) -> (r: Result<(Blackjack, Response), ContractError>)
    requires
        stored matches Some(b) ==> b.deck@.len() <= u32::MAX,
    ensures
        game_view(r) == try_blackjack_spec(*state, stored, sender@, action@, random_of(*random)),
{
    let game = match stored {
        Some(b) => b,
        None => return Err(ContractError::NoGameState),
    };
    let w = random_word(random);
    if is_text(&action, "hit") {
        hit(game, w)
    } else if is_text(&action, "stand") {
        stand(state, game, &sender, w)
    } else if is_text(&action, "splithitL") {
        split_hit_left(game, w)
    } else if is_text(&action, "splithitR") {
        split_hit_right(state, game, &sender, w)
    } else if is_text(&action, "splitstandL") {
        Ok(split_stand_left(game))
    } else if is_text(&action, "splitstandR") {
        split_stand_right(state, game, &sender, w)
    } else if is_text(&action, "surrender") {
        surrender(state, game, &sender)
    } else if is_text(&action, "pass") {
        pass(state, game, &sender)
    } else {
        Err(ContractError::InvalidAction)
    }
}

/// Drawing a card loses no card: putting the drawn card back where it was
/// gives the deck again.
pub proof fn lemma_draw_keeps_cards(random: u32, deck: Seq<CardView>)
    requires
        deck.len() > 0,
    ensures
        draw(Some(random), deck) matches Ok((c, rest)) && rest.len() + 1 == deck.len()
            && rest.insert(draw_index(random, deck.len()), c) == deck,
{
    let i = draw_index(random, deck.len());
    assert(deck.remove(i).insert(i, deck[i]) =~= deck);
}

/// Counting aces low keeps the hand's size, never raises its value, and
/// never takes a bust hand below 12.
proof fn lemma_soften_keeps(total: int, cards: Seq<CardView>, i: int)
    requires
        0 <= total <= u32::MAX,
    ensures
        0 <= soften(total, cards, i).0 <= total,
        soften(total, cards, i).1.len() == cards.len(),
        total > 21 ==> soften(total, cards, i).0 >= 12,
    decreases cards.len() - i,
{
    if i < 0 || i >= cards.len() || total <= 21 {
    } else if cards[i].number == 11 {
        lemma_soften_keeps(total - 10, cards.update(i, CardView { number: 1, ..cards[i] }), i + 1);
    } else {
        lemma_soften_keeps(total, cards, i + 1);
    }
}

/// The dealer's drawing ends at 17 or more and moves cards only from the
/// deck to its hand.
proof fn lemma_dealer_loop(random: Option<u32>, total: int, cards: Seq<CardView>, deck: Seq<CardView>)
    requires
        0 <= total <= u32::MAX,
    ensures
        dealer_loop(random, total, cards, deck) matches Ok((t, c2, d2)) ==> t >= 17 && c2.len()
            >= cards.len() && c2.len() + d2.len() == cards.len() + deck.len(),
    decreases deck.len(),
{
    if total < 17 {
        if let Some(r) = random {
            if deck.len() > 0 {
                let idx = draw_index(r, deck.len());
                let c = deck[idx];
                let t = total + c.number;
                if t <= u32::MAX {
                    lemma_soften_keeps(t, cards.push(c), 0);
                    let (t2, cards2) = soften(t, cards.push(c), 0);
                    lemma_dealer_loop(random, t2, cards2, deck.remove(idx));
                }
            }
        }
    }
}

/// The dealer stands only at 17 or more, keeps the cards it held, and takes
/// every card it adds from the deck.
pub proof fn lemma_dealer_stands_at_17(random: Option<u32>, cards: Seq<CardView>, deck: Seq<CardView>)
    ensures
        resolve_dealer(random, cards, deck) matches Ok((t, c2, d2)) ==> t >= 17 && c2.len()
            >= cards.len() && c2.len() + d2.len() == cards.len() + deck.len(),
{
    if let Some(t) = point_total_of(cards) {
        lemma_dealer_loop(random, t as int, cards, deck);
    }
}

/// A hand's value: the plain sum where that is 21 or less; otherwise at
/// least 12, and at most 21 wherever the hand holds enough aces to count
/// low (one for each ten by which the sum passes 21).
pub proof fn lemma_hand_value(cards: Seq<CardView>)
    ensures
        points_sum(cards) <= 21 ==> point_total(cards) == points_sum(cards),
        points_sum(cards) > 21 ==> point_total(cards) >= 12,
        points_sum(cards) > 21 && ace_count(cards) >= aces_needed(points_sum(cards)) ==> point_total(
            cards,
        ) <= 21,
        point_total(cards) <= points_sum(cards),
{
    lemma_sums_nonneg(cards);
    lemma_needed_bounds(points_sum(cards));
}

/// The id string of a hand is empty exactly when the hand is, and
/// splitting it at the commas and parsing each piece gives the ids of the
/// cards back, in order.
pub proof fn lemma_id_string_round_trip(cards: Seq<CardView>)
    ensures
        ids_text(cards).len() == 0 <==> cards.len() == 0,
        cards.len() > 0 ==> parse_all(split_on(ids_text(cards), ',')) == card_ids(cards),
{
    reveal_strlit(",");
    assert(","@ =~= seq![',']);
    let ids = card_ids(cards);
    lemma_split_join(ids, ',');
    if cards.len() > 0 {
        let pieces = split_on(ids_text(cards), ',');
        assert forall|i: int| 0 <= i < ids.len() implies #[trigger] parse_all(pieces)[i] == ids[i] by {
            assert(pieces[i] == decimal(ids[i] as nat));
            lemma_parse_decimal(ids[i] as nat);
        }
        assert(parse_all(pieces) =~= ids);
    }
}

/// The points of the cards, in order.
pub open spec fn card_numbers(cards: Seq<CardView>) -> Seq<u32> {
    cards.map_values(|c: CardView| c.number)
}

/// Taking out the card at position `j` takes away its points, and one ace
/// where it is worth 11.
proof fn lemma_sums_remove(cards: Seq<CardView>, j: int)
    requires
        0 <= j < cards.len(),
    ensures
        points_sum(cards) == points_sum(cards.remove(j)) + cards[j].number,
        ace_count(cards) == ace_count(cards.remove(j)) + if cards[j].number == 11 {
            1int
        } else {
            0int
        },
    decreases cards.len(),
{
    if j == cards.len() - 1 {
        assert(cards.remove(j) =~= cards.drop_last());
    } else {
        lemma_sums_remove(cards.drop_last(), j);
        assert(cards.remove(j).drop_last() =~= cards.drop_last().remove(j));
        assert(cards.remove(j).last() == cards.last());
    }
}

/// A hand's value depends only on the points of its cards, not on their
/// order, suits, faces or ids: two hands whose points form the same
/// multiset are worth the same.
pub proof fn lemma_hand_value_ignores_order(a: Seq<CardView>, b: Seq<CardView>)
    requires
        card_numbers(a).to_multiset() == card_numbers(b).to_multiset(),
    ensures
        points_sum(a) == points_sum(b),
        ace_count(a) == ace_count(b),
        point_total(a) == point_total(b),
        point_total_of(a) == point_total_of(b),
    decreases a.len(),
{
    broadcast use vstd::seq_lib::group_to_multiset_ensures, vstd::multiset::group_multiset_axioms;

    if a.len() == 0 {
        assert(card_numbers(a).len() == 0);
        assert(card_numbers(b).to_multiset().len() == 0);
        assert(b.len() == 0);
    } else {
        let x = a.last().number;
        let a1 = a.drop_last();
        assert(card_numbers(a) =~= card_numbers(a1).push(x));
        assert(card_numbers(b).to_multiset().count(x) > 0);
        assert(card_numbers(b).contains(x));
        let j = choose|j: int| 0 <= j < card_numbers(b).len() && card_numbers(b)[j] == x;
        let b1 = b.remove(j);
        assert(card_numbers(b1) =~= card_numbers(b).remove(j));
        assert(card_numbers(a1).to_multiset() =~= card_numbers(b1).to_multiset());
        lemma_hand_value_ignores_order(a1, b1);
        lemma_sums_remove(b, j);
    }
}

/// The cards of a game: the deck and the three hands.
pub open spec fn cards_in_play(b: BlackjackView) -> int {
    (b.deck.len() + b.dealer.len() + b.player.len() + b.split.len()) as int
}

/// A draw takes exactly one card from the deck.
proof fn lemma_draw_len(random: Option<u32>, deck: Seq<CardView>)
    ensures
        draw(random, deck) matches Ok((c, rest)) ==> rest.len() + 1 == deck.len(),
{
}

/// No move without a payment creates or loses a card: the deck and the
/// hands hold as many cards after the move as before.
pub proof fn lemma_moves_keep_cards(
    state: State,
    stored: Option<Blackjack>,
    sender: Seq<char>,
    action: Seq<char>,
    random: Option<u32>,
)
    ensures
        try_blackjack_spec(state, stored, sender, action, random) matches Ok((b2, _)) ==> cards_in_play(b2)
            == cards_in_play(stored->0@),
{
    if let Some(b) = stored {
        let bj = b@;
        lemma_draw_len(random, bj.deck);
        lemma_dealer_stands_at_17(random, bj.dealer, bj.deck);
        if let Ok((c, d1)) = draw(random, bj.deck) {
            lemma_dealer_stands_at_17(random, bj.dealer, d1);
        }
    }
}

/// The ids of the cards, as a multiset.
pub open spec fn id_bag(cards: Seq<CardView>) -> vstd::multiset::Multiset<int> {
    card_ids(cards).to_multiset()
}

/// The ids of all the cards of a game: the three hands and the deck.
pub open spec fn ids_in_play(b: BlackjackView) -> vstd::multiset::Multiset<int> {
    id_bag(b.player).add(id_bag(b.split)).add(id_bag(b.dealer)).add(id_bag(b.deck))
}

/// Adding a card to a hand adds its id.
proof fn lemma_push_ids(cards: Seq<CardView>, c: CardView)
    ensures
        id_bag(cards.push(c)) == id_bag(cards).insert(c.id as int),
{
    broadcast use vstd::seq_lib::group_to_multiset_ensures;

    assert(card_ids(cards.push(c)) =~= card_ids(cards).push(c.id as int));
}

/// Taking out the card at position `i` takes away its id.
proof fn lemma_remove_ids(cards: Seq<CardView>, i: int)
    requires
        0 <= i < cards.len(),
    ensures
        id_bag(cards) == id_bag(cards.remove(i)).insert(cards[i].id as int),
{
    broadcast use vstd::seq_lib::group_to_multiset_ensures, vstd::multiset::group_multiset_axioms;

    assert(card_ids(cards.remove(i)) =~= card_ids(cards).remove(i));
    assert(card_ids(cards)[i] == cards[i].id as int);
    assert(id_bag(cards).count(cards[i].id as int) > 0);
    assert(id_bag(cards) =~= id_bag(cards.remove(i)).insert(cards[i].id as int));
}

/// A draw moves one id out of the deck: the drawn card's.
proof fn lemma_draw_ids(random: Option<u32>, deck: Seq<CardView>)
    ensures
        draw(random, deck) matches Ok((c, rest)) ==> id_bag(deck) == id_bag(rest).insert(c.id as int),
{
    broadcast use vstd::seq_lib::group_to_multiset_ensures, vstd::multiset::group_multiset_axioms;

    if let Ok((c, rest)) = draw(random, deck) {
        let i = draw_index(random->0, deck.len());
        assert(card_ids(rest) =~= card_ids(deck).remove(i));
        assert(card_ids(deck)[i] == c.id as int);
        assert(id_bag(deck).count(c.id as int) > 0);
        assert(id_bag(deck) =~= id_bag(rest).insert(c.id as int));
    }
}

/// Counting aces low changes no card's id.
proof fn lemma_soften_ids(total: int, cards: Seq<CardView>, i: int)
    ensures
        card_ids(soften(total, cards, i).1) == card_ids(cards),
    decreases cards.len() - i,
{
    if i < 0 || i >= cards.len() || total <= 21 {
    } else if cards[i].number == 11 {
        let low = cards.update(i, CardView { number: 1, ..cards[i] });
        assert(card_ids(low) =~= card_ids(cards));
        lemma_soften_ids(total - 10, low, i + 1);
    } else {
        lemma_soften_ids(total, cards, i + 1);
    }
}

/// The dealer's drawing only moves cards from the deck to its hand.
proof fn lemma_dealer_loop_ids(random: Option<u32>, total: int, cards: Seq<CardView>, deck: Seq<CardView>)
    ensures
        dealer_loop(random, total, cards, deck) matches Ok((t, c2, d2)) ==> id_bag(c2).add(id_bag(d2))
            == id_bag(cards).add(id_bag(deck)),
    decreases deck.len(),
{
    broadcast use vstd::multiset::group_multiset_axioms;

    if total < 17 {
        if let Some(r) = random {
            if deck.len() > 0 {
                let idx = draw_index(r, deck.len());
                let c = deck[idx];
                let t = total + c.number;
                if t <= u32::MAX {
                    let (t2, cards2) = soften(t, cards.push(c), 0);
                    lemma_soften_ids(t, cards.push(c), 0);
                    lemma_push_ids(cards, c);
                    lemma_draw_ids(random, deck);
                    lemma_dealer_loop_ids(random, t2, cards2, deck.remove(idx));
                    assert(id_bag(cards2).add(id_bag(deck.remove(idx))) =~= id_bag(cards).add(
                        id_bag(deck),
                    ));
                }
            }
        }
    }
}

/// The dealer's play only moves cards from the deck to its hand.
proof fn lemma_resolve_ids(random: Option<u32>, cards: Seq<CardView>, deck: Seq<CardView>)
    ensures
        resolve_dealer(random, cards, deck) matches Ok((t, c2, d2)) ==> id_bag(c2).add(id_bag(d2))
            == id_bag(cards).add(id_bag(deck)),
{
    if let Some(t) = point_total_of(cards) {
        lemma_dealer_loop_ids(random, t as int, cards, deck);
    }
}

/// No move without a payment creates, loses or duplicates a card: the ids
/// of the cards in the hands and the deck are the same multiset after the
/// move as before, and the wager stays.
pub proof fn lemma_moves_keep_card_ids(
    state: State,
    stored: Option<Blackjack>,
    sender: Seq<char>,
    action: Seq<char>,
    random: Option<u32>,
)
    ensures
        try_blackjack_spec(state, stored, sender, action, random) matches Ok((b2, _)) ==> ids_in_play(b2)
            == ids_in_play(stored->0@) && b2.wager == stored->0@.wager,
{
    broadcast use vstd::multiset::group_multiset_axioms;

    if let Some(b) = stored {
        let bj = b@;
        lemma_draw_ids(random, bj.deck);
        lemma_resolve_ids(random, bj.dealer, bj.deck);
        if let Ok((c, d1)) = draw(random, bj.deck) {
            lemma_push_ids(bj.player, c);
            lemma_push_ids(bj.split, c);
            lemma_resolve_ids(random, bj.dealer, d1);
            assert(id_bag(bj.player.push(c)).add(id_bag(bj.split)).add(id_bag(bj.dealer)).add(
                id_bag(d1),
            ) =~= ids_in_play(bj));
            assert(id_bag(bj.player).add(id_bag(bj.split.push(c))).add(id_bag(bj.dealer)).add(
                id_bag(d1),
            ) =~= ids_in_play(bj));
            if let Ok((dt, dealer, d2)) = resolve_dealer(random, bj.dealer, d1) {
                let hands = id_bag(bj.player).add(id_bag(bj.split.push(c)));
                assert(hands.add(id_bag(dealer)).add(id_bag(d2)) =~= hands.add(
                    id_bag(dealer).add(id_bag(d2)),
                ));
                assert(hands.add(id_bag(bj.dealer)).add(id_bag(d1)) =~= hands.add(
                    id_bag(bj.dealer).add(id_bag(d1)),
                ));
            }
        }
        if let Ok((dt, dealer, d)) = resolve_dealer(random, bj.dealer, bj.deck) {
            let hands = id_bag(bj.player).add(id_bag(bj.split));
            assert(hands.add(id_bag(dealer)).add(id_bag(d)) =~= hands.add(id_bag(dealer).add(id_bag(d))));
            assert(ids_in_play(bj) =~= hands.add(id_bag(bj.dealer).add(id_bag(bj.deck))));
        }
    }
}

/// A deal puts the 52 cards of a fresh deck in play: the ids of the two
/// hands dealt and of the rest of the deck are those of a fresh deck.
proof fn lemma_dealt_ids(w: u32)
    ensures
        id_bag(dealt(w).0).add(id_bag(Seq::empty())).add(id_bag(dealt(w).1)).add(id_bag(dealt(w).2))
            == id_bag(fresh_deck()),
{
    broadcast use vstd::seq_lib::group_to_multiset_ensures, vstd::multiset::group_multiset_axioms;

    let d0 = fresh_deck();
    assert(d0.len() == 52);
    let i0 = draw_index(w, 52);
    let d1 = d0.remove(i0);
    let i1 = draw_index(w, 51);
    let d2 = d1.remove(i1);
    let i2 = draw_index(w, 50);
    let d3 = d2.remove(i2);
    let i3 = draw_index(w, 49);
    lemma_remove_ids(d0, i0);
    lemma_remove_ids(d1, i1);
    lemma_remove_ids(d2, i2);
    lemma_remove_ids(d3, i3);
    let empty = Seq::<CardView>::empty();
    lemma_push_ids(empty, d0[i0]);
    lemma_push_ids(empty.push(d0[i0]), d2[i2]);
    lemma_push_ids(empty, d1[i1]);
    lemma_push_ids(empty.push(d1[i1]), d3[i3]);
    assert(dealt(w).0 =~= empty.push(d0[i0]).push(d2[i2]));
    assert(dealt(w).1 =~= empty.push(d1[i1]).push(d3[i3]));
    assert(card_ids(empty) =~= Seq::<int>::empty());
    assert(id_bag(empty) =~= vstd::multiset::Multiset::<int>::empty());
    assert(id_bag(dealt(w).0).add(id_bag(empty)).add(id_bag(dealt(w).1)).add(id_bag(dealt(w).2))
        =~= id_bag(d0));
}

/// Every paid move keeps the cards in play: a deal starts over with the
/// ids of a fresh deck; splitting, doubling down and insurance move cards
/// between the deck and the hands without creating, losing or duplicating
/// one, and keep the wager.
pub proof fn lemma_paid_moves_keep_card_ids(
    state: State,
    stored: Option<Blackjack>,
    from: Seq<char>,
    amount: u128,
    action: Seq<char>,
    random: Option<u32>,
)
    ensures
        blackjack_receive_spec(state, stored, from, amount, action, random) matches Ok((_, b2, _)) ==> if action
            == "deal"@ {
            ids_in_play(b2) == id_bag(fresh_deck())
        } else {
            ids_in_play(b2) == ids_in_play(game_or_fresh(stored)) && b2.wager == game_or_fresh(stored).wager
        },
{
    broadcast use vstd::multiset::group_multiset_axioms;

    let bj = game_or_fresh(stored);
    if let Some(w) = random {
        lemma_dealt_ids(w);
    }
    lemma_draw_ids(random, bj.deck);
    if let Ok((c1, d1)) = draw(random, bj.deck) {
        lemma_draw_ids(random, d1);
        lemma_push_ids(bj.player, c1);
        lemma_resolve_ids(random, bj.dealer, d1);
        if let Ok((dt, dealer, d2)) = resolve_dealer(random, bj.dealer, d1) {
            let p = id_bag(bj.player.push(c1)).add(id_bag(bj.split));
            assert(p.add(id_bag(dealer)).add(id_bag(d2)) =~= p.add(id_bag(dealer).add(id_bag(d2))));
            assert(p.add(id_bag(bj.dealer)).add(id_bag(d1)) =~= p.add(id_bag(bj.dealer).add(id_bag(d1))));
            assert(p.add(id_bag(bj.dealer)).add(id_bag(d1)) =~= ids_in_play(bj));
        }
        if let Ok((c2, d2)) = draw(random, d1) {
            if bj.player.len() >= 2 {
                let left = bj.player.remove(1).push(c1);
                let right = bj.split.push(bj.player[1]).push(c2);
                lemma_remove_ids(bj.player, 1);
                lemma_push_ids(bj.player.remove(1), c1);
                lemma_push_ids(bj.split, bj.player[1]);
                lemma_push_ids(bj.split.push(bj.player[1]), c2);
                assert(id_bag(left).add(id_bag(right)).add(id_bag(bj.dealer)).add(id_bag(d2))
                    =~= ids_in_play(bj));
            }
        }
    }
}

/// Hitting draws one card for the hand and loses only above 21: at 21 or
/// below the game goes on ("play"), above 21 it is lost; nothing is paid
/// either way.
pub proof fn lemma_hit_loses_only_above_21(state: State, b: Blackjack, sender: Seq<char>, random: Option<u32>)
    requires
        b@.action == "deal"@ || b@.action == "play"@,
    ensures
        draw(random, b@.deck) matches Ok((c, rest)) ==> (points_sum(b@.player.push(c)) <= u32::MAX ==> {
            let value = point_total(b@.player.push(c));
            &&& try_blackjack_spec(state, Some(b), sender, "hit"@, random) matches Ok((b2, resp))
            &&& b2.player == b@.player.push(c)
            &&& b2.deck == rest
            &&& b2.dealer == b@.dealer
            &&& b2.wager == b@.wager
            &&& resp.messages.len() == 0
            &&& value <= 21 ==> b2.action == "play"@ && b2.result == b@.result && resp.attributes[0] == (
                "result"@,
                "play"@,
            )
            &&& value > 21 ==> b2.action == "ready"@ && b2.result == "lose"@ && resp.attributes[0] == (
                "result"@,
                "lose"@,
            )
        }),
{
    reveal_strlit("hit");
    if let Ok((c, rest)) = draw(random, b@.deck) {
        lemma_point_total_bounds(b@.player.push(c));
    }
}

/// Standing: the dealer plays, and the hand is settled against the dealer's
/// final total. A dealer above 21 or below the hand's value loses, and the
/// player gets twice the wager; an equal total is a push, and the wager
/// comes back; a dealer above the hand (and at most 21) wins, and nothing is
/// paid. What is won is sent to the player.
pub proof fn lemma_stand_settles(state: State, b: Blackjack, sender: Seq<char>, random: Option<u32>)
    requires
        b@.action == "deal"@ || b@.action == "play"@,
        points_sum(b@.player) <= u32::MAX,
        2 * b@.wager <= u128::MAX,
    ensures
        resolve_dealer(random, b@.dealer, b@.deck) matches Ok((dt, dealer, rest)) ==> {
            let value = point_total(b@.player);
            let won: int = if dt > 21 || dt < value {
                2 * b@.wager
            } else if dt == value {
                b@.wager as int
            } else {
                0
            };
            &&& try_blackjack_spec(state, Some(b), sender, "stand"@, random) matches Ok((b2, resp))
            &&& b2.dealer == dealer
            &&& b2.deck == rest
            &&& b2.player == b@.player
            &&& b2.wager == b@.wager
            &&& b2.action == "ready"@
            &&& b2.winnings == won
            &&& b2.result == if dt > 21 || dt < value {
                "win"@
            } else if dt == value {
                "push"@
            } else {
                "lose"@
            }
            &&& resp.messages == payout(state, sender, won as u128)
        },
{
    reveal_strlit("hit");
    reveal_strlit("stand");
    assert("hit"@.len() == 3 && "stand"@.len() == 5);
    lemma_point_total_bounds(b@.player);
    let w = b@.wager as int;
    assert(w * 0 == 0 && w * 1 == w && w * 2 == 2 * w) by (nonlinear_arith);
}

/// Doubling down on a hand worth 10 or 11, paying the wager again: one
/// more card, then the dealer plays. Against a dealer above 21 or below the
/// new hand's value the player gets four times the (first) wager; on a push
/// twice the wager; otherwise nothing. What is won is sent to the player.
#[verifier::rlimit(60)]
pub proof fn lemma_double_down_settles(state: State, b: Blackjack, from: Seq<char>, random: Option<u32>)
    requires
        b@.action == "deal"@,
        point_total(b@.player) == 10 || point_total(b@.player) == 11,
        points_sum(b@.player) <= u32::MAX,
        b@.wager <= state.max_bet,
        state.jackpot + b@.wager / 50 <= u128::MAX,
        4 * b@.wager <= u128::MAX,
    ensures
        draw(random, b@.deck) matches Ok((c, d1)) ==> (points_sum(b@.player.push(c)) <= u32::MAX ==> (
        resolve_dealer(random, b@.dealer, d1) matches Ok((dt, dealer, rest)) ==> {
            let value = point_total(b@.player.push(c));
            let won: int = if dt > 21 || dt < value {
                4 * b@.wager
            } else if dt == value {
                2 * b@.wager
            } else {
                0
            };
            &&& blackjack_receive_spec(state, Some(b), from, b@.wager, "double_down"@, random) matches Ok(
                (_, b2, resp),
            )
            &&& b2.player == b@.player.push(c)
            &&& b2.dealer == dealer
            &&& b2.deck == rest
            &&& b2.wager == b@.wager
            &&& b2.action == "ready"@
            &&& b2.winnings == won
            &&& b2.result == if dt > 21 || dt < value {
                "win"@
            } else if dt == value {
                "push"@
            } else {
                "lose"@
            }
            &&& resp.messages == payout(state, from, won as u128)
        })),
{
    reveal_strlit("deal");
    reveal_strlit("split");
    reveal_strlit("double_down");
    assert("deal"@.len() == 4 && "split"@.len() == 5 && "double_down"@.len() == 11);
    lemma_point_total_bounds(b@.player);
    let w = b@.wager as int;
    assert(w * 2 * 0 == 0 && w * 2 * 1 == 2 * w && w * 2 * 2 == 4 * w) by (nonlinear_arith);
    let bj = b@;
    assert(game_or_fresh(Some(b)) == bj);
    if let Ok((c, d1)) = draw(random, bj.deck) {
        lemma_point_total_bounds(bj.player.push(c));
        assert("double_down"@ != "deal"@ && "double_down"@ != "split"@);
    }
}

/// Standing on the right hand of a split: the dealer plays and each live
/// hand is settled against the dealer's final total. A dealer above 21
/// pays twice the wager for each hand not already lost (four times the
/// wager when both stood). Otherwise each live hand pays twice the wager
/// where it beats the dealer and the wager on a push; a hand already lost
/// pays nothing. What is won is sent to the player.
pub proof fn lemma_split_stand_right_settles(state: State, b: Blackjack, sender: Seq<char>, random: Option<u32>)
    requires
        points_sum(b@.player) <= u32::MAX,
        points_sum(b@.split) <= u32::MAX,
        4 * b@.wager <= u128::MAX,
    ensures
        resolve_dealer(random, b@.dealer, b@.deck) matches Ok((dt, dealer, rest)) ==> {
            let left_live = b@.split_result != "loss"@;
            let left = point_total(b@.player);
            let right = point_total(b@.split);
            let left_pays: int = if !left_live {
                0
            } else if dt > 21 || dt < left {
                2
            } else if dt == left {
                1
            } else {
                0
            };
            let right_pays: int = if dt > 21 || dt < right {
                2
            } else if dt == right {
                1
            } else {
                0
            };
            let won = b@.wager * (left_pays + right_pays);
            &&& try_blackjack_spec(state, Some(b), sender, "splitstandR"@, random) matches Ok((b2, resp))
            &&& b2.dealer == dealer
            &&& b2.deck == rest
            &&& b2.player == b@.player
            &&& b2.split == b@.split
            &&& b2.wager == b@.wager
            &&& b2.action == "ready"@
            &&& b2.winnings == won
            &&& dt > 21 ==> b2.result == if left_live {
                "win/win"@
            } else {
                "loss/win"@
            }
            &&& resp.messages == payout(state, sender, won as u128)
        },
{
    reveal_strlit("hit");
    reveal_strlit("stand");
    reveal_strlit("splithitL");
    reveal_strlit("splithitR");
    reveal_strlit("splitstandL");
    reveal_strlit("splitstandR");
    assert("hit"@.len() == 3 && "stand"@.len() == 5 && "splithitL"@.len() == 9 && "splithitR"@.len() == 9);
    assert("splitstandL"@.len() == 11 && "splitstandR"@.len() == 11);
    assert("splitstandL"@[10] == 'L' && "splitstandR"@[10] == 'R');
    lemma_point_total_bounds(b@.player);
    lemma_point_total_bounds(b@.split);
    let w = b@.wager as int;
    assert(w * 0 == 0 && w * 1 == w && w * 2 == 2 * w && w * 3 == 3 * w && w * 4 == 4 * w) by (nonlinear_arith);
}

/// Which move each free action name selects.
proof fn lemma_free_move_names(state: State, b: Blackjack, sender: Seq<char>, random: Option<u32>)
    ensures
        try_blackjack_spec(state, Some(b), sender, "hit"@, random) == hit_spec(b@, random),
        try_blackjack_spec(state, Some(b), sender, "stand"@, random) == stand_spec(state, b@, sender, random),
        try_blackjack_spec(state, Some(b), sender, "splithitL"@, random) == split_hit_left_spec(b@, random),
        try_blackjack_spec(state, Some(b), sender, "splithitR"@, random) == split_hit_right_spec(
            state,
            b@,
            sender,
            random,
        ),
        try_blackjack_spec(state, Some(b), sender, "splitstandL"@, random) == Ok::<
            (BlackjackView, ResponseView),
            ContractError,
        >(split_stand_left_spec(b@)),
        try_blackjack_spec(state, Some(b), sender, "splitstandR"@, random) == split_stand_right_spec(
            state,
            b@,
            sender,
            random,
        ),
        try_blackjack_spec(state, Some(b), sender, "surrender"@, random) == surrender_spec(state, b@, sender),
        try_blackjack_spec(state, Some(b), sender, "pass"@, random) == pass_spec(state, b@, sender),
{
    reveal_strlit("hit");
    reveal_strlit("stand");
    reveal_strlit("splithitL");
    reveal_strlit("splithitR");
    reveal_strlit("splitstandL");
    reveal_strlit("splitstandR");
    reveal_strlit("surrender");
    reveal_strlit("pass");
    assert("hit"@.len() == 3 && "stand"@.len() == 5 && "splithitL"@.len() == 9 && "splithitR"@.len() == 9);
    assert("splitstandL"@.len() == 11 && "splitstandR"@.len() == 11 && "surrender"@.len() == 9);
    assert("pass"@.len() == 4);
    assert("splitstandL"@[10] == 'L' && "splitstandR"@[10] == 'R');
    assert("splithitL"@[8] == 'L' && "splithitR"@[8] == 'R');
    assert("surrender"@[1] == 'u' && "splithitL"@[1] == 'p' && "splithitR"@[1] == 'p');
}

/// Which move each paid action name selects.
proof fn lemma_paid_move_names()
    ensures
        "deal"@ != "split"@ && "deal"@ != "double_down"@ && "deal"@ != "insurance"@,
        "split"@ != "double_down"@ && "split"@ != "insurance"@ && "double_down"@ != "insurance"@,
{
    reveal_strlit("deal");
    reveal_strlit("split");
    reveal_strlit("double_down");
    reveal_strlit("insurance");
    assert("deal"@.len() == 4 && "split"@.len() == 5 && "double_down"@.len() == 11 && "insurance"@.len() == 9);
}

/// Dealing: the player gets the two cards dealt, the dealer two, the rest
/// stays in the deck, and the wager is the amount paid. A player's
/// blackjack (a hand worth 21) ends the game at once: against a dealer's
/// blackjack it is a push and the amount comes back, otherwise it pays two
/// and a half times the amount (rounded down); the result says which where
/// the amount is not zero. Without one nothing is paid, and insurance is
/// offered when the dealer shows a card worth 10 or 11.
pub proof fn lemma_deal_pays_naturals(state: State, stored: Option<Blackjack>, from: Seq<char>, amount: u128, w: u32)
    requires
        game_or_fresh(stored).action == "ready"@,
        amount <= state.max_bet,
        state.jackpot + amount / 50 <= u128::MAX,
        amount * 5 <= u128::MAX,
    ensures
        ({
            let (player, dealer, deck) = dealt(w);
            let natural = point_total(player) == 21;
            let push = point_total(dealer) == 21;
            &&& blackjack_receive_spec(state, stored, from, amount, "deal"@, Some(w)) matches Ok(
                (_, b2, resp),
            )
            &&& b2.player == player && b2.dealer == dealer && b2.deck == deck && b2.split.len() == 0
            &&& b2.wager == amount
            &&& natural && push ==> b2.action == "ready"@ && resp.messages == payout(state, from, amount) && (
            amount > 0 ==> b2.result == "push"@ && b2.winnings == amount)
            &&& natural && !push ==> b2.action == "ready"@ && resp.messages == payout(
                state,
                from,
                (amount * 5 / 2) as u128,
            ) && (amount > 0 ==> b2.result == "blackjack"@ && b2.winnings == amount * 5 / 2)
            &&& !natural ==> b2.result == "in progress"@ && resp.messages.len() == 0 && b2.action == if dealer[1].number
                == 10 || dealer[1].number == 11 {
                "insurance"@
            } else {
                "deal"@
            }
        }),
{
    lemma_paid_move_names();
    let bj = game_or_fresh(stored);
    let (player, dealer, deck) = dealt(w);
    assert(deal_spec(state, bj, from, amount, Some(w)) == deal_outcome(state, bj, from, amount, dealt(w)));
    assert(blackjack_receive_spec(state, stored, from, amount, "deal"@, Some(w)) matches Ok((_, b2, resp)));
    let (_, b2, resp) = blackjack_receive_spec(state, stored, from, amount, "deal"@, Some(w))->Ok_0;
    assert(b2.player == player && b2.dealer == dealer && b2.deck == deck && b2.split.len() == 0);
    assert(b2.wager == amount);
}

/// Surrendering right after the deal ends the game and sends half the
/// wager (rounded down) back to the player; the cards stay as they are.
pub proof fn lemma_surrender_returns_half(state: State, b: Blackjack, sender: Seq<char>, random: Option<u32>)
    requires
        b@.action == "deal"@,
    ensures
        try_blackjack_spec(state, Some(b), sender, "surrender"@, random) matches Ok((b2, resp)) && b2.action
            == "ready"@ && b2.result == "surrender"@ && b2.winnings == b@.wager / 2 && resp.messages == seq![
            transfer_view(state, sender, b@.wager / 2),
        ] && b2.player == b@.player && b2.dealer == b@.dealer && b2.deck == b@.deck && b2.wager == b@.wager,
{
    lemma_free_move_names(state, b, sender, random);
}

/// Taking insurance for half the wager: against a dealer's blackjack the
/// game ends and the player gets the wager, or twice the wager when the
/// player has a blackjack too; otherwise nothing is paid and play goes on
/// from the deal.
pub proof fn lemma_insurance_pays(state: State, b: Blackjack, from: Seq<char>, random: Option<u32>)
    requires
        b@.action == "insurance"@,
        points_sum(b@.dealer) <= u32::MAX,
        points_sum(b@.player) <= u32::MAX,
        b@.wager / 2 <= state.max_bet,
        state.jackpot + b@.wager / 2 / 50 <= u128::MAX,
        2 * b@.wager <= u128::MAX,
    ensures
        ({
            let dealer_blackjack = point_total(b@.dealer) == 21;
            let won: int = if point_total(b@.player) == 21 {
                2 * b@.wager
            } else {
                b@.wager as int
            };
            &&& blackjack_receive_spec(state, Some(b), from, b@.wager / 2, "insurance"@, random) matches Ok(
                (_, b2, resp),
            )
            &&& b2.player == b@.player && b2.dealer == b@.dealer && b2.deck == b@.deck && b2.wager == b@.wager
            &&& dealer_blackjack ==> b2.action == "ready"@ && resp.messages == seq![
                transfer_view(state, from, won as u128),
            ]
            &&& !dealer_blackjack ==> b2.action == "deal"@ && resp.messages.len() == 0
        }),
{
    lemma_paid_move_names();
    lemma_point_total_bounds(b@.dealer);
    lemma_point_total_bounds(b@.player);
}

/// Declining insurance: against a dealer's blackjack the game ends, the
/// wager coming back on a push (the player's blackjack too) and nothing
/// otherwise; without one play goes on from the deal.
pub proof fn lemma_pass_settles(state: State, b: Blackjack, sender: Seq<char>, random: Option<u32>)
    requires
        b@.action == "insurance"@,
        points_sum(b@.dealer) <= u32::MAX,
        points_sum(b@.player) <= u32::MAX,
    ensures
        ({
            let dealer_blackjack = point_total(b@.dealer) == 21;
            let won: u128 = if point_total(b@.player) == 21 {
                b@.wager
            } else {
                0
            };
            &&& try_blackjack_spec(state, Some(b), sender, "pass"@, random) matches Ok((b2, resp))
            &&& b2.player == b@.player && b2.dealer == b@.dealer && b2.deck == b@.deck && b2.wager == b@.wager
            &&& dealer_blackjack ==> b2.action == "ready"@ && resp.messages == seq![
                transfer_view(state, sender, won),
            ]
            &&& !dealer_blackjack ==> b2.action == "deal"@ && resp.messages.len() == 0
        }),
{
    lemma_free_move_names(state, b, sender, random);
    lemma_point_total_bounds(b@.dealer);
    lemma_point_total_bounds(b@.player);
}

/// Hitting the right hand of a split: one more card for it. At 21 or below
/// play goes on and nothing is paid. Above 21 the right hand is lost: where
/// the left hand was lost too nothing is paid; where the left hand stood,
/// the dealer plays against it, paying twice the wager if the left hand
/// beats the dealer (or the dealer passes 21), the wager on a push, and
/// nothing otherwise.
pub proof fn lemma_split_hit_right_settles(state: State, b: Blackjack, sender: Seq<char>, random: Option<u32>)
    requires
        b@.action == "splitR"@,
        points_sum(b@.player) <= u32::MAX,
        2 * b@.wager <= u128::MAX,
    ensures
        draw(random, b@.deck) matches Ok((c, d1)) ==> (points_sum(b@.split.push(c)) <= u32::MAX ==> {
            let right = point_total(b@.split.push(c));
            let left = point_total(b@.player);
            let r = try_blackjack_spec(state, Some(b), sender, "splithitR"@, random);
            &&& right <= 21 ==> (r matches Ok((b2, resp)) && b2.split == b@.split.push(c) && b2.deck == d1
                && b2.action == "splitR"@ && resp.messages.len() == 0)
            &&& right > 21 && b@.split_result == "loss"@ ==> (r matches Ok((b2, resp)) && b2.action
                == "ready"@ && b2.result == "loss/loss"@ && b2.winnings == 0 && resp.messages.len() == 0)
            &&& right > 21 && b@.split_result == "stand"@ ==> (resolve_dealer(random, b@.dealer, d1) matches Ok(
                (dt, dealer, rest),
            ) ==> {
                let won: int = if dt > 21 || dt < left {
                    2 * b@.wager
                } else if dt == left {
                    b@.wager as int
                } else {
                    0
                };
                r matches Ok((b2, resp)) && b2.action == "ready"@ && b2.dealer == dealer && b2.deck == rest
                    && b2.winnings == won && resp.messages == payout(state, sender, won as u128)
            })
        }),
{
    lemma_free_move_names(state, b, sender, random);
    reveal_strlit("loss");
    reveal_strlit("stand");
    assert("loss"@.len() == 4 && "stand"@.len() == 5);
    lemma_point_total_bounds(b@.player);
    if let Ok((c, d1)) = draw(random, b@.deck) {
        lemma_point_total_bounds(b@.split.push(c));
    }
    let w = b@.wager as int;
    assert(w * 0 == 0 && w * 1 == w && w * 2 == 2 * w) by (nonlinear_arith);
}

/// A deal leaves the 52 cards of a fresh deck in play.
proof fn lemma_deal_cards(state: State, bj: BlackjackView, from: Seq<char>, amount: u128, random: Option<u32>)
    ensures
        deal_spec(state, bj, from, amount, random) matches Ok((b2, _)) ==> cards_in_play(b2) == 52,
{
    assert(fresh_deck().len() == 52);
}

/// A split moves cards between the deck and the hands without losing any.
proof fn lemma_split_cards(bj: BlackjackView, amount: u128, random: Option<u32>)
    ensures
        split_spec(bj, amount, random) matches Ok((b2, _)) ==> cards_in_play(b2) == cards_in_play(bj),
{
    lemma_draw_len(random, bj.deck);
    if let Ok((c1, d1)) = draw(random, bj.deck) {
        lemma_draw_len(random, d1);
    }
}

/// Doubling down moves cards between the deck and the hands without losing any.
proof fn lemma_double_down_cards(state: State, bj: BlackjackView, from: Seq<char>, amount: u128, random: Option<u32>)
    ensures
        double_down_spec(state, bj, from, amount, random) matches Ok((b2, _)) ==> cards_in_play(b2)
            == cards_in_play(bj),
{
    lemma_draw_len(random, bj.deck);
    if let Ok((c1, d1)) = draw(random, bj.deck) {
        lemma_dealer_stands_at_17(random, bj.dealer, d1);
    }
}

/// No paid move but a deal creates or loses a card; a deal starts over with
/// the 52 cards of a fresh deck.
#[verifier::rlimit(50)]
pub proof fn lemma_paid_moves_keep_cards(
    state: State,
    stored: Option<Blackjack>,
    from: Seq<char>,
    amount: u128,
    action: Seq<char>,
    random: Option<u32>,
)
    ensures
        blackjack_receive_spec(state, stored, from, amount, action, random) matches Ok((_, b2, _)) ==> if action
            == "deal"@ {
            cards_in_play(b2) == 52
        } else {
            cards_in_play(b2) == cards_in_play(game_or_fresh(stored))
        },
{
    let bj = game_or_fresh(stored);
    lemma_deal_cards(state, bj, from, amount, random);
    lemma_split_cards(bj, amount, random);
    lemma_double_down_cards(state, bj, from, amount, random);
}

/// Standing, standing on the right hand of a split and surrendering each
/// end the game: the next move must be a new deal.
pub proof fn lemma_settling_moves_end_game(
    state: State,
    stored: Option<Blackjack>,
    sender: Seq<char>,
    action: Seq<char>,
    random: Option<u32>,
)
    requires
        action == "stand"@ || action == "splitstandR"@ || action == "surrender"@,
    ensures
        try_blackjack_spec(state, stored, sender, action, random) matches Ok((b2, _)) ==> b2.action
            == "ready"@,
{
    reveal_strlit("hit");
    reveal_strlit("stand");
    reveal_strlit("splithitL");
    reveal_strlit("splithitR");
    reveal_strlit("splitstandL");
    reveal_strlit("splitstandR");
    reveal_strlit("surrender");
    assert("hit"@.len() == 3 && "stand"@.len() == 5 && "splithitL"@.len() == 9 && "splithitR"@.len() == 9);
    assert("splitstandL"@.len() == 11 && "splitstandR"@.len() == 11 && "surrender"@.len() == 9);
    assert("splitstandL"@[10] == 'L' && "splitstandR"@[10] == 'R');
    assert("surrender"@[1] == 'u' && "splithitL"@[1] == 'p' && "splithitR"@[1] == 'p');
}

/// A new deal starts only once the previous game is over, and every paid
/// move adds a fiftieth of its amount to the raffle's jackpot.
pub proof fn lemma_deal_needs_finished_game(
    state: State,
    stored: Option<Blackjack>,
    from: Seq<char>,
    amount: u128,
    random: Option<u32>,
)
    ensures
        blackjack_receive_spec(state, stored, from, amount, "deal"@, random) matches Ok((jackpot, b2, _))
            ==> game_or_fresh(stored).action == "ready"@ && jackpot == state.jackpot + amount / 50
            && b2.wager == amount,
{
}

} // verus!
