use casino::contract::{
    change_admin, change_max_bet, deposit_receive, instantiate, query_last_roulette, query_state,
    try_receive, try_withdraw,
};
use casino::error::ContractError;
use casino::msg::{BetMsg, InstantiateMsg, ReceiveMsg, Response, Snip20Msg};
use casino::raffle::{raffle_receive, settle_raffle, try_raffle, RAFFLE_PERIOD};
use casino::roulette::roulette_receive;
use casino::state::{Admin, LastSpin, State};

fn house() -> State {
    State {
        max_bet: 100_000_000,
        known_snip: "token".to_string(),
        snip_hash: "hash".to_string(),
        decimal: 6,
        vault: 1_000,
        jackpot: 10,
        next_jackpot: 5,
        entries: 0,
        winner: 0,
        drawing_end: 1_000,
        last_drawing: 0,
    }
}

fn boss() -> Admin {
    Admin { admin: "boss".to_string(), vault: 0 }
}

fn seed(w: u32) -> Option<Vec<u8>> {
    Some(w.to_le_bytes().to_vec())
}

fn bet(kind: &str, numbers: &str, wager: u128) -> BetMsg {
    BetMsg { bet_type: kind.to_string(), numbers: numbers.to_string(), wager }
}

fn attrs(r: &Response) -> Vec<(String, String)> {
    r.attributes.iter().map(|a| (a.key.clone(), a.value.clone())).collect()
}

fn a(k: &str, v: &str) -> (String, String) {
    (k.to_string(), v.to_string())
}

fn transfers(r: &Response) -> Vec<(String, u128)> {
    r.messages
        .iter()
        .map(|m| {
            assert_eq!((m.contract_addr.as_str(), m.code_hash.as_str()), ("token", "hash"));
            match &m.msg {
                Snip20Msg::Transfer { recipient, amount, .. } => (recipient.clone(), *amount),
                Snip20Msg::RegisterReceive { .. } => panic!("unexpected message"),
            }
        })
        .collect()
}

#[test]
fn straight_up_win_pays_thirty_five_to_one() {
    let (state, last, resp) =
        roulette_receive(house(), "alice".to_string(), 1_000_000, vec![bet("inside_whole", "17", 1)], &seed(17))
            .unwrap();
    assert_eq!(last.winning_number, 17);
    assert_eq!(last.winnings, 36_000_000);
    assert_eq!(last.bets.len(), 1);
    assert_eq!(state.jackpot, 10 + 20_000);
    assert_eq!(state.vault, 1_000);
    assert_eq!(attrs(&resp), vec![a("random_number", "17"), a("winValue", "35"), a("betTotal", "1")]);
    assert_eq!(transfers(&resp), vec![("alice".to_string(), 36_000_000)]);
}

#[test]
fn several_winning_bets_add_up() {
    let bets = vec![
        bet("street", "16, 17, 18", 2),
        bet("split", "17, 20", 1),
        bet("outside_dozen", "13, 14, 15, 16, 17, 18, 19, 20, 21, 22, 23, 24", 3),
        bet("corner_bet", "1, 2, 4, 5", 1),
        bet("double_street", "13, 14, 15, 16, 17, 18", 1),
        bet("outside_column", "2, 5, 8, 11, 14, 17, 20, 23, 26, 29, 32, 35", 1),
        bet("outside_high_low", "1, 2, 3, 4, 5, 6, 7, 8, 9, 10, 11, 12, 13, 14, 15, 16, 17, 18", 1),
        bet("outside_oerb", "1, 3, 5, 7, 9, 11, 13, 15, 17, 19, 21, 23, 25, 27, 29, 31, 33, 35", 1),
    ];
    let (_, last, resp) = roulette_receive(house(), "alice".to_string(), 11_000_000, bets, &seed(17 + 36 * 5)).unwrap();
    // street 22, split 17, dozen 6, corner 0, double street 5, column 2, high/low 1, odd 1.
    assert_eq!(last.winning_number, 17);
    assert_eq!(attrs(&resp), vec![a("random_number", "17"), a("winValue", "54"), a("betTotal", "10")]);
    assert_eq!(last.winnings, 64_000_000);
    assert_eq!(transfers(&resp), vec![("alice".to_string(), 64_000_000)]);
}

#[test]
fn losing_spin_sends_nothing() {
    let (_, last, resp) =
        roulette_receive(house(), "alice".to_string(), 2_000_000, vec![bet("inside_whole", "18", 1), bet("split", "17,20", 1)], &seed(17))
            .unwrap();
    assert_eq!(last.winnings, 0);
    assert!(resp.messages.is_empty());
    assert_eq!(attrs(&resp), vec![a("random_number", "17"), a("winValue", "0"), a("betTotal", "0")]);
}

#[test]
fn zero_only_wins_straight_up() {
    let (_, last, _) = roulette_receive(
        house(),
        "alice".to_string(),
        2_000_000,
        vec![bet("inside_whole", "0", 1), bet("outside_oerb", "2, 4, 6, 8, 10, 12, 14, 16, 18, 20, 22, 24, 26, 28, 30, 32, 34, 36", 1)],
        &seed(36),
    )
    .unwrap();
    assert_eq!(last.winning_number, 0);
    assert_eq!(last.winnings, 36_000_000);
}

#[test]
fn roulette_refusals() {
    let spin = |amount: u128, bets: Vec<BetMsg>, random: Option<Vec<u8>>| {
        roulette_receive(house(), "alice".to_string(), amount, bets, &random).err()
    };
    assert_eq!(spin(100_000_001, vec![], seed(1)), Some(ContractError::AboveMaxBet));
    assert_eq!(spin(1_000_000, vec![bet("inside_whole", "1", 1)], None), Some(ContractError::MissingRandom));
    assert_eq!(spin(1_000_000, vec![bet("inside_whole", "1", 1)], Some(vec![1, 2])), Some(ContractError::MissingRandom));
    assert_eq!(spin(2_000_000, vec![bet("inside_whole", "1", 1), bet("five_number", "1", 1)], seed(1)), Some(ContractError::InvalidBet));
    assert_eq!(spin(1_000_001, vec![bet("inside_whole", "1", 1)], seed(1)), Some(ContractError::InvalidAmount));
    assert_eq!(spin(0, vec![], seed(1)).is_none(), true);
    assert_eq!(
        spin(1, vec![bet("inside_whole", "1", u128::MAX / 1_000_000 + 1), bet("nothing", "", 0)], seed(1)),
        Some(ContractError::Overflow)
    );
    assert_eq!(
        spin(1, vec![bet("nothing", "", 0), bet("inside_whole", "1", u128::MAX / 1_000_000 + 1)], seed(1)),
        Some(ContractError::InvalidBet)
    );
}

#[test]
fn instantiate_registers_with_token() {
    let msg = InstantiateMsg {
        known_snip: "token".to_string(),
        snip_hash: "hash".to_string(),
        max_bet: 50,
        decimal: 6,
    };
    let (state, admin, resp) = instantiate("creator".to_string(), "my_code".to_string(), msg);
    assert_eq!((state.max_bet, state.decimal, state.vault, state.jackpot), (50, 6, 0, 0));
    assert_eq!(state.known_snip, "token");
    assert_eq!(admin.admin, "creator");
    assert!(resp.attributes.is_empty());
    assert_eq!(resp.messages.len(), 1);
    assert_eq!(resp.messages[0].contract_addr, "token");
    assert_eq!(resp.messages[0].code_hash, "hash");
    match &resp.messages[0].msg {
        Snip20Msg::RegisterReceive { code_hash, padding } => {
            assert_eq!(code_hash, "my_code");
            assert!(padding.is_none());
        }
        _ => panic!("expected a registration"),
    }
}

#[test]
fn withdraw_pays_the_admin() {
    let (state, resp) = try_withdraw(&boss(), house(), "boss".to_string(), 400).unwrap();
    assert_eq!(state.vault, 600);
    assert_eq!(transfers(&resp), vec![("boss".to_string(), 400)]);
    assert_eq!(try_withdraw(&boss(), house(), "eve".to_string(), 1).err(), Some(ContractError::NotAuthorized));
    assert_eq!(try_withdraw(&boss(), house(), "boss".to_string(), 1_001).err(), Some(ContractError::Overflow));
}

#[test]
fn withdraw_then_deposit_restores_vault() {
    let (state, _) = try_withdraw(&boss(), house(), "boss".to_string(), 250).unwrap();
    let state = deposit_receive(&boss(), state, &"boss".to_string(), 250).unwrap();
    assert_eq!(state.vault, house().vault);
    assert_eq!(deposit_receive(&boss(), house(), &"eve".to_string(), 1).err(), Some(ContractError::NotAuthorized));
    let mut full = house();
    full.vault = u128::MAX;
    assert_eq!(deposit_receive(&boss(), full, &"boss".to_string(), 1).err(), Some(ContractError::Overflow));
}

#[test]
fn admin_changes() {
    let a2 = change_admin(&boss(), &"boss".to_string(), "carol".to_string()).unwrap();
    assert_eq!(a2.admin, "carol");
    assert_eq!(change_admin(&boss(), &"eve".to_string(), "eve".to_string()).err(), Some(ContractError::NotAuthorized));
    let s = change_max_bet(&boss(), house(), &"boss".to_string(), 5).unwrap();
    assert_eq!(s.max_bet, 5);
    assert_eq!(change_max_bet(&boss(), house(), &"eve".to_string(), 5).err(), Some(ContractError::NotAuthorized));
    let refused = roulette_receive(s, "alice".to_string(), 6, vec![], &seed(1)).err();
    assert_eq!(refused, Some(ContractError::AboveMaxBet));
}

#[test]
fn receive_routes_tokens() {
    let token = "token".to_string();
    let other = "fake".to_string();
    let r = try_receive(house(), &boss(), &other, "boss".to_string(), 5, ReceiveMsg::Deposit {}, &None);
    assert_eq!(r.err(), Some(ContractError::InvalidSnip));
    let rc = try_receive(house(), &boss(), &token, "boss".to_string(), 5, ReceiveMsg::Deposit {}, &None).unwrap();
    assert_eq!(rc.state.vault, 1_005);
    assert!(rc.last_spin.is_none());
    let r = try_receive(house(), &boss(), &token, "eve".to_string(), 5, ReceiveMsg::Deposit {}, &None);
    assert_eq!(r.err(), Some(ContractError::NotAuthorized));
    let rc = try_receive(
        house(),
        &boss(),
        &token,
        "alice".to_string(),
        1_000_000,
        ReceiveMsg::Roulette { bets: vec![bet("inside_whole", "3", 1)] },
        &seed(3),
    )
    .unwrap();
    assert_eq!(rc.last_spin.map(|l| l.winnings), Some(36_000_000));
}

#[test]
fn queries_answer_state_and_last_spin() {
    assert_eq!(query_state(house()).state.vault, 1_000);
    let none = query_last_roulette(None).last_spin;
    assert_eq!((none.winning_number, none.bets.len(), none.winnings), (404, 0, 404));
    let some = query_last_roulette(Some(LastSpin { winning_number: 7, bets: vec![], winnings: 3 })).last_spin;
    assert_eq!((some.winning_number, some.winnings), (7, 3));
}

#[test]
fn tickets_are_numbered_in_order() {
    let p = raffle_receive(house(), 3_000_000, 3, None).unwrap();
    assert_eq!(p.new_tickets, vec![0, 1, 2]);
    assert_eq!(p.ticket_log, vec![0, 1, 2]);
    assert_eq!(p.state.entries, 3);
    assert_eq!(p.state.next_jackpot, 5 + 2_700_000);
    assert_eq!(attrs(&p.response), vec![a("tickets", "0,1,2")]);
    let p2 = raffle_receive(p.state, 2_000_000, 2, Some(p.ticket_log)).unwrap();
    assert_eq!(p2.new_tickets, vec![3, 4]);
    assert_eq!(p2.ticket_log, vec![0, 1, 2, 3, 4]);
    assert_eq!(p2.state.entries, 5);
    assert_eq!(raffle_receive(house(), 1, 1, None).err(), Some(ContractError::InvalidAmount));
    assert_eq!(raffle_receive(house(), 0, 5_000, None).err(), Some(ContractError::Overflow));
}

#[test]
fn raffle_draw_and_settlement() {
    let mut s = house();
    assert_eq!(try_raffle(&s, &boss(), &"boss".to_string(), 5_000, &seed(7)).err(), Some(ContractError::NoEntries));
    s.entries = 3;
    assert_eq!(try_raffle(&s, &boss(), &"boss".to_string(), 5_000, &seed(7)), Ok(1));
    assert_eq!(try_raffle(&s, &boss(), &"eve".to_string(), 5_000, &seed(7)).err(), Some(ContractError::DrawingNotOver));
    assert_eq!(try_raffle(&s, &boss(), &"eve".to_string(), 500, &seed(8)), Ok(2));
    assert_eq!(try_raffle(&s, &boss(), &"boss".to_string(), 5_000, &None).err(), Some(ContractError::MissingRandom));
    let (s2, resp) = settle_raffle(s, 1, Some("dave".to_string()), 5_000).unwrap();
    assert_eq!((s2.winner, s2.last_drawing, s2.drawing_end), (1, 1_000, 5_000 + RAFFLE_PERIOD));
    assert_eq!((s2.jackpot, s2.next_jackpot, s2.entries), (5, 0, 0));
    assert_eq!(attrs(&resp), vec![a("winning_ticket", "1"), a("winnings", "10"), a("test", "dave")]);
    assert_eq!(transfers(&resp), vec![("dave".to_string(), 10)]);
    assert_eq!(settle_raffle(house(), 1, None, 5_000).err(), Some(ContractError::MissingTicket));
    assert_eq!(settle_raffle(house(), 1, Some("dave".to_string()), u64::MAX).err(), Some(ContractError::Overflow));
}
