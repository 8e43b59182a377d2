use casino::blackjack::{bj_find_point_total, bj_resolve_dealer, bj_return_id_string};
use casino::operations::{deposit_receive, random_word, try_draw_card, try_get_deck};
use casino::state::{Admin, Card};
use casino::text::{decimal_string, join_numbers};
use casino::error::ContractError;

fn card(number: u32, id: u32) -> Card {
    Card { suit: "clubs".to_string(), number, face: "number".to_string(), id }
}

#[test]
fn decimal_renders_numbers() {
    assert_eq!(decimal_string(0), "0");
    assert_eq!(decimal_string(7), "7");
    assert_eq!(decimal_string(404), "404");
    assert_eq!(decimal_string(36_000_000), "36000000");
    assert_eq!(decimal_string(u128::MAX), u128::MAX.to_string());
}

#[test]
fn join_numbers_separates() {
    assert_eq!(join_numbers(&vec![], ", "), "");
    assert_eq!(join_numbers(&vec![5], ", "), "5");
    assert_eq!(join_numbers(&vec![1, 2, 3], ", "), "1, 2, 3");
    assert_eq!(join_numbers(&vec![10, 0, 51], ","), "10,0,51");
}

#[test]
fn fresh_deck_has_52_cards_in_order() {
    let deck = try_get_deck();
    assert_eq!(deck.len(), 52);
    for (i, c) in deck.iter().enumerate() {
        assert_eq!(c.id as usize, i);
    }
    assert_eq!((deck[0].suit.as_str(), deck[0].face.as_str(), deck[0].number), ("clubs", "ace", 11));
    assert_eq!((deck[1].face.as_str(), deck[1].number), ("number", 2));
    assert_eq!((deck[9].face.as_str(), deck[9].number), ("number", 10));
    assert_eq!((deck[10].face.as_str(), deck[10].number), ("jack", 10));
    assert_eq!((deck[11].face.as_str(), deck[11].number), ("king", 10));
    assert_eq!((deck[12].face.as_str(), deck[12].number), ("queen", 10));
    assert_eq!((deck[13].suit.as_str(), deck[13].face.as_str()), ("diamonds", "ace"));
    assert_eq!(deck[26].suit, "hearts");
    assert_eq!((deck[51].suit.as_str(), deck[51].face.as_str(), deck[51].number), ("spades", "queen", 10));
    let total: u32 = deck.iter().map(|c| c.number).sum();
    assert_eq!(total, 380);
}

#[test]
fn draw_takes_card_at_random_position() {
    let deck = try_get_deck();
    let (c, rest) = try_draw_card(57, deck);
    assert_eq!(c.id, 5);
    assert_eq!(rest.len(), 51);
    assert!(rest.iter().all(|x| x.id != 5));
    let (c2, rest2) = try_draw_card(0, rest);
    assert_eq!(c2.id, 0);
    assert_eq!(rest2.len(), 50);
}

#[test]
fn draw_keeps_every_card() {
    let deck = try_get_deck();
    let (c, rest) = try_draw_card(1000, deck);
    let mut ids: Vec<u32> = rest.iter().map(|x| x.id).collect();
    ids.insert((1000 % 52) as usize, c.id);
    assert_eq!(ids, (0..52).collect::<Vec<u32>>());
}

#[test]
fn random_word_reads_four_bytes_little_endian() {
    assert_eq!(random_word(&Some(vec![1, 0, 0, 0])), Some(1));
    assert_eq!(random_word(&Some(vec![0, 1, 0, 0, 9])), Some(256));
    assert_eq!(random_word(&Some(vec![0xff, 0xff, 0xff, 0xff])), Some(u32::MAX));
    assert_eq!(random_word(&Some(vec![1, 2, 3])), None);
    assert_eq!(random_word(&None), None);
}

#[test]
fn point_total_counts_aces_low_when_needed() {
    assert_eq!(bj_find_point_total(&vec![]), 0);
    assert_eq!(bj_find_point_total(&vec![card(11, 0), card(10, 11)]), 21);
    assert_eq!(bj_find_point_total(&vec![card(11, 0), card(11, 13)]), 12);
    assert_eq!(bj_find_point_total(&vec![card(11, 0), card(11, 13), card(9, 8)]), 21);
    assert_eq!(bj_find_point_total(&vec![card(10, 10), card(10, 11), card(5, 4)]), 25);
    assert_eq!(bj_find_point_total(&vec![card(11, 0), card(11, 13), card(11, 26), card(11, 39)]), 14);
    assert_eq!(bj_find_point_total(&vec![card(10, 10), card(9, 8), card(11, 0)]), 20);
}

#[test]
fn id_string_joins_ids_with_commas() {
    assert_eq!(bj_return_id_string(&vec![]), "");
    assert_eq!(bj_return_id_string(&vec![card(11, 0)]), "0");
    assert_eq!(bj_return_id_string(&vec![card(11, 0), card(10, 12), card(10, 51)]), "0,12,51");
}

#[test]
fn dealer_draws_to_seventeen() {
    // Dealer holds 10 + 6; with random 0 the dealer takes the deck's first card.
    let deck = try_get_deck();
    let (total, cards, rest) = bj_resolve_dealer(0, vec![card(10, 100), card(6, 101)], deck);
    assert_eq!(total, 17);
    assert_eq!(cards.len(), 3);
    assert_eq!(cards[2].id, 0);
    assert_eq!(cards[2].number, 1);
    assert_eq!(rest.len(), 51);
}

#[test]
fn dealer_stands_on_seventeen_or_more() {
    let deck = try_get_deck();
    let (total, cards, rest) = bj_resolve_dealer(3, vec![card(10, 100), card(7, 101)], deck);
    assert_eq!(total, 17);
    assert_eq!(cards.len(), 2);
    assert_eq!(rest.len(), 52);
}

#[test]
fn dealer_counts_aces_low_after_busting() {
    // Dealer holds ace + 5 (16); draws clubs 2, 3, ... from position 1 on.
    let deck = try_get_deck();
    let (total, cards, _rest) = bj_resolve_dealer(1, vec![card(11, 100), card(5, 101)], deck);
    // 16 + 2 = 18 stands.
    assert_eq!(total, 18);
    assert_eq!(cards.len(), 3);
    assert_eq!(cards[0].number, 11);
    let deck = try_get_deck();
    let (total, cards, _rest) = bj_resolve_dealer(9, vec![card(11, 100), card(5, 101)], deck);
    // Draws the clubs ten: 26, the ace turns low: 16, then the diamonds ten (position 9 of 51): 26 again, no ace left.
    assert_eq!(cards[0].number, 1);
    assert_eq!(total, 26);
}

#[test]
fn admin_vault_deposit_adds() {
    let admin = Admin { admin: "boss".to_string(), vault: 5 };
    let a = deposit_receive(admin, 7).unwrap();
    assert_eq!(a.vault, 12);
    assert_eq!(a.admin, "boss");
    let full = Admin { admin: "boss".to_string(), vault: u128::MAX };
    assert_eq!(deposit_receive(full, 1).err(), Some(ContractError::Overflow));
}

#[test]
fn hand_value_ignores_card_order() {
    let a = vec![card(11, 0), card(9, 8), card(5, 4)];
    let b = vec![card(5, 17), card(11, 13), card(9, 21)];
    let c = vec![card(9, 34), card(5, 30), card(11, 39)];
    assert_eq!(bj_find_point_total(&a), 15);
    assert_eq!(bj_find_point_total(&b), 15);
    assert_eq!(bj_find_point_total(&c), 15);
    let d = vec![card(11, 0), card(11, 13), card(10, 10), card(2, 1)];
    let e = vec![card(10, 10), card(2, 1), card(11, 13), card(11, 0)];
    assert_eq!(bj_find_point_total(&d), 14);
    assert_eq!(bj_find_point_total(&e), 14);
}

#[test]
fn id_string_parses_back_to_ids() {
    let cards = vec![card(3, 40), card(11, 0), card(10, 51), card(4, 7)];
    let s = bj_return_id_string(&cards);
    assert!(!s.is_empty());
    let parsed: Vec<u32> = s.split(',').map(|t| t.parse().unwrap()).collect();
    assert_eq!(parsed, vec![40, 0, 51, 7]);
    assert!(bj_return_id_string(&vec![]).is_empty());
}
