use casino::blackjack::{blackjack_receive, try_blackjack};
use casino::error::ContractError;
use casino::msg::{Response, Snip20Msg};
use casino::state::{Blackjack, State};

fn house() -> State {
    State {
        max_bet: 1_000,
        known_snip: "token".to_string(),
        snip_hash: "hash".to_string(),
        decimal: 6,
        vault: 0,
        jackpot: 10,
        next_jackpot: 0,
        entries: 0,
        winner: 0,
        drawing_end: 0,
        last_drawing: 0,
    }
}

fn seed(w: u32) -> Option<Vec<u8>> {
    Some(w.to_le_bytes().to_vec())
}

fn attrs(r: &Response) -> Vec<(String, String)> {
    r.attributes.iter().map(|a| (a.key.clone(), a.value.clone())).collect()
}

fn a(k: &str, v: &str) -> (String, String) {
    (k.to_string(), v.to_string())
}

fn transfers(r: &Response) -> Vec<(String, u128)> {
    r.messages
        .iter()
        .map(|m| {
            assert_eq!(m.contract_addr, "token");
            assert_eq!(m.code_hash, "hash");
            match &m.msg {
                Snip20Msg::Transfer { recipient, amount, padding } => {
                    assert!(padding.is_none());
                    (recipient.clone(), *amount)
                }
                Snip20Msg::RegisterReceive { .. } => panic!("unexpected message"),
            }
        })
        .collect()
}

fn ids(cards: &[casino::state::Card]) -> Vec<u32> {
    cards.iter().map(|c| c.id).collect()
}

fn deal(w: u32) -> (State, Blackjack, Response) {
    blackjack_receive(house(), None, "alice".to_string(), 100, "deal".to_string(), &seed(w)).unwrap()
}

#[test]
fn deal_then_hit_then_stand_pushes() {
    let (state, game, resp) = deal(0);
    assert_eq!(state.jackpot, 12);
    assert_eq!(state.max_bet, 1_000);
    assert_eq!(game.action, "deal");
    assert_eq!(game.wager, 100);
    assert_eq!(game.result, "in progress");
    assert_eq!(game.split_result, "nosplit");
    assert_eq!(ids(&game.player), vec![0, 2]);
    assert_eq!(ids(&game.dealer), vec![1, 3]);
    assert_eq!(game.deck.len(), 48);
    assert_eq!(attrs(&resp), vec![a("player_cards", "0,2"), a("dealer_cards", "3"), a("result", "deal")]);
    assert!(resp.messages.is_empty());

    let (game, resp) = try_blackjack(&state, Some(game), "alice".to_string(), "hit".to_string(), &seed(0)).unwrap();
    assert_eq!(game.action, "play");
    assert_eq!(ids(&game.player), vec![0, 2, 4]);
    assert_eq!(attrs(&resp), vec![a("result", "play"), a("new_card", "4")]);

    let (game, resp) = try_blackjack(&state, Some(game), "alice".to_string(), "stand".to_string(), &seed(0)).unwrap();
    assert_eq!(game.action, "ready");
    assert_eq!(game.result, "push");
    assert_eq!(game.winnings, 100);
    assert_eq!(ids(&game.dealer), vec![1, 3, 5, 6]);
    assert_eq!(game.deck.len() + game.dealer.len() + game.player.len(), 52);
    assert_eq!(attrs(&resp), vec![a("result", "push"), a("dealer_cards", "1,3,5,6")]);
    assert_eq!(transfers(&resp), vec![("alice".to_string(), 100)]);
}

#[test]
fn natural_blackjack_pays_two_and_a_half() {
    let (_, game, resp) = deal(11);
    assert_eq!(game.action, "ready");
    assert_eq!(game.result, "blackjack");
    assert_eq!(game.winnings, 250);
    assert_eq!(attrs(&resp), vec![a("player_cards", "11,13"), a("dealer_cards", "12,14"), a("result", "blackjack")]);
    assert_eq!(transfers(&resp), vec![("alice".to_string(), 250)]);
}

#[test]
fn natural_against_dealer_blackjack_pushes() {
    let (_, game, resp) = deal(1261);
    assert_eq!(game.result, "push");
    assert_eq!(game.winnings, 100);
    assert_eq!(attrs(&resp), vec![a("player_cards", "13,11"), a("dealer_cards", "38,39"), a("result", "push")]);
    assert_eq!(transfers(&resp), vec![("alice".to_string(), 100)]);
}

#[test]
fn insurance_against_dealer_blackjack_pays_wager() {
    let (state, game, resp) = deal(10);
    assert_eq!(game.action, "insurance");
    assert_eq!(attrs(&resp), vec![a("player_cards", "10,12"), a("dealer_cards", "13"), a("result", "insurance")]);
    let (state2, game, resp) =
        blackjack_receive(state, Some(game), "alice".to_string(), 50, "insurance".to_string(), &seed(10)).unwrap();
    assert_eq!(state2.jackpot, 13);
    assert_eq!(game.action, "ready");
    assert_eq!(attrs(&resp), vec![a("result", "insurance win"), a("dealer_cards", "11,13")]);
    assert_eq!(transfers(&resp), vec![("alice".to_string(), 100)]);
}

#[test]
fn passing_on_insurance_against_dealer_blackjack_loses() {
    let (state, game, _) = deal(10);
    let (game, resp) = try_blackjack(&state, Some(game), "alice".to_string(), "pass".to_string(), &seed(10)).unwrap();
    assert_eq!(game.action, "ready");
    assert_eq!(attrs(&resp), vec![a("result", "dealer blackjack"), a("dealer_cards", "11,13")]);
    assert_eq!(transfers(&resp), vec![("alice".to_string(), 0)]);
}

#[test]
fn insurance_without_dealer_blackjack_then_surrender() {
    let (state, game, _) = deal(6);
    assert_eq!(game.action, "insurance");
    let (state, game, resp) =
        blackjack_receive(state, Some(game), "alice".to_string(), 50, "insurance".to_string(), &seed(6)).unwrap();
    assert_eq!(game.action, "deal");
    assert_eq!(attrs(&resp), vec![a("result", "insurance loss"), a("dealer_cards", "n/a")]);
    let (game, resp) = try_blackjack(&state, Some(game), "alice".to_string(), "surrender".to_string(), &None).unwrap();
    assert_eq!(game.action, "ready");
    assert_eq!(game.result, "surrender");
    assert_eq!(game.winnings, 50);
    assert!(resp.attributes.is_empty());
    assert_eq!(transfers(&resp), vec![("alice".to_string(), 50)]);
}

#[test]
fn split_then_stand_both_hands() {
    let (state, game, _) = deal(220);
    let (state, game, resp) =
        blackjack_receive(state, Some(game), "alice".to_string(), 100, "split".to_string(), &seed(220)).unwrap();
    assert_eq!(game.action, "splitL");
    assert_eq!(game.split_result, "inprogress");
    assert_eq!(ids(&game.player), vec![12, 32]);
    assert_eq!(ids(&game.split), vec![22, 37]);
    assert_eq!(attrs(&resp), vec![a("left_split", "12,32"), a("right_split", "22,37")]);
    let (game, resp) =
        try_blackjack(&state, Some(game), "alice".to_string(), "splitstandL".to_string(), &seed(220)).unwrap();
    assert_eq!(game.action, "splitR");
    assert_eq!(game.split_result, "stand");
    assert!(resp.attributes.is_empty() && resp.messages.is_empty());
    let (game, resp) =
        try_blackjack(&state, Some(game), "alice".to_string(), "splitstandR".to_string(), &seed(220)).unwrap();
    assert_eq!(game.action, "ready");
    assert_eq!(game.result, "loss/push");
    assert_eq!(game.winnings, 100);
    assert_eq!(attrs(&resp), vec![a("result", "loss/push"), a("dealer_cards", "17,27,42,47")]);
    assert_eq!(transfers(&resp), vec![("alice".to_string(), 100)]);
    assert_eq!(game.deck.len() + game.dealer.len() + game.player.len() + game.split.len(), 52);
}

#[test]
fn double_down_on_ten_loses_to_twenty_one() {
    let (state, game, _) = deal(3);
    let (_, game, resp) =
        blackjack_receive(state, Some(game), "alice".to_string(), 100, "double_down".to_string(), &seed(3)).unwrap();
    assert_eq!(game.action, "ready");
    assert_eq!(game.result, "lose");
    assert_eq!(game.winnings, 0);
    assert_eq!(attrs(&resp), vec![a("new_card", "7"), a("result", "lose"), a("dealer_cards", "4,6,8")]);
    assert!(resp.messages.is_empty());
}

#[test]
fn blackjack_moves_are_refused_out_of_phase() {
    let (state, game, _) = deal(0);
    let err = |r: Result<(Blackjack, Response), ContractError>| r.err();
    let again = |g: &Blackjack| Blackjack {
        action: g.action.clone(),
        dealer: vec![],
        player: vec![],
        split: vec![],
        split_result: g.split_result.clone(),
        deck: vec![],
        wager: g.wager,
        result: g.result.clone(),
        winnings: g.winnings,
    };
    assert_eq!(err(try_blackjack(&state, None, "alice".to_string(), "hit".to_string(), &seed(0))), Some(ContractError::NoGameState));
    assert_eq!(err(try_blackjack(&state, Some(again(&game)), "alice".to_string(), "fold".to_string(), &seed(0))), Some(ContractError::InvalidAction));
    assert_eq!(err(try_blackjack(&state, Some(again(&game)), "alice".to_string(), "splithitL".to_string(), &seed(0))), Some(ContractError::InvalidSplitPhase));
    assert_eq!(err(try_blackjack(&state, Some(again(&game)), "alice".to_string(), "splithitR".to_string(), &seed(0))), Some(ContractError::InvalidPhase));
    assert_eq!(err(try_blackjack(&state, Some(again(&game)), "alice".to_string(), "pass".to_string(), &seed(0))), Some(ContractError::InvalidPhase));
    assert_eq!(err(try_blackjack(&state, Some(again(&game)), "alice".to_string(), "hit".to_string(), &None)), Some(ContractError::MissingRandom));
    assert_eq!(err(try_blackjack(&state, Some(again(&game)), "alice".to_string(), "hit".to_string(), &seed(0))), Some(ContractError::EmptyDeck));
    let paid = |g: Blackjack, amount: u128, action: &str| {
        blackjack_receive(house(), Some(g), "alice".to_string(), amount, action.to_string(), &seed(0)).err()
    };
    assert_eq!(paid(again(&game), 100, "deal"), Some(ContractError::InvalidPhase));
    assert_eq!(paid(again(&game), 99, "split"), Some(ContractError::InvalidSplitAmount));
    assert_eq!(paid(again(&game), 100, "split"), Some(ContractError::MissingCard));
    assert_eq!(paid(again(&game), 99, "double_down"), Some(ContractError::InvalidAmount));
    assert_eq!(paid(again(&game), 100, "double_down"), Some(ContractError::DoubleDownNotAllowed));
    assert_eq!(paid(again(&game), 50, "insurance"), Some(ContractError::InvalidPhase));
    assert_eq!(paid(again(&game), 49, "insurance"), Some(ContractError::InvalidAmount));
    assert_eq!(paid(again(&game), 100, "raise"), Some(ContractError::InvalidAction));
    assert_eq!(paid(again(&game), 1_001, "deal"), Some(ContractError::AboveMaxBet));
    assert_eq!(blackjack_receive(house(), None, "bob".to_string(), 10, "deal".to_string(), &None).err(), Some(ContractError::MissingRandom));
}

#[test]
fn split_needs_a_pair() {
    let (state, game, _) = deal(0);
    assert_eq!(
        blackjack_receive(state, Some(game), "alice".to_string(), 100, "split".to_string(), &seed(0)).err(),
        Some(ContractError::CannotSplit)
    );
}

#[test]
fn busting_a_hit_loses() {
    let (state, mut game, _) = deal(0);
    // Ace, three and two kings: 24 with the ace low; the next card busts the hand.
    game.player.push(casino::state::Card { suit: "x".to_string(), number: 10, face: "king".to_string(), id: 98 });
    game.player.push(casino::state::Card { suit: "x".to_string(), number: 10, face: "king".to_string(), id: 99 });
    let (game, resp) = try_blackjack(&state, Some(game), "alice".to_string(), "hit".to_string(), &seed(0)).unwrap();
    assert_eq!(game.action, "ready");
    assert_eq!(game.result, "lose");
    assert_eq!(attrs(&resp), vec![a("result", "lose"), a("new_card", "4")]);
}

fn all_ids(g: &Blackjack) -> Vec<u32> {
    let mut v: Vec<u32> = Vec::new();
    for cards in [&g.player, &g.split, &g.dealer, &g.deck] {
        v.extend(cards.iter().map(|c| c.id));
    }
    v.sort();
    v
}

#[test]
fn every_move_keeps_the_card_ids() {
    let fresh: Vec<u32> = (0..52).collect();
    let (state, game, _) = deal(220);
    assert_eq!(all_ids(&game), fresh);
    let (state, game, _) =
        blackjack_receive(state, Some(game), "alice".to_string(), 100, "split".to_string(), &seed(220)).unwrap();
    assert_eq!(all_ids(&game), fresh);
    assert_eq!(game.wager, 100);
    let (game, _) = try_blackjack(&state, Some(game), "alice".to_string(), "splithitL".to_string(), &seed(5)).unwrap();
    assert_eq!(all_ids(&game), fresh);
    let (state2, game2, _) = deal(0);
    let (game2, _) = try_blackjack(&state2, Some(game2), "alice".to_string(), "hit".to_string(), &seed(0)).unwrap();
    assert_eq!(all_ids(&game2), fresh);
    let (game2, _) = try_blackjack(&state2, Some(game2), "alice".to_string(), "stand".to_string(), &seed(0)).unwrap();
    assert_eq!(all_ids(&game2), fresh);
    assert_eq!(game2.wager, 100);
}
