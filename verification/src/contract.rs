//! The contract's set-up, its administration and the routing of tokens that
//! it receives.

use vstd::prelude::*;
use crate::error::ContractError;
use crate::msg::{
    InstantiateMsg, ReceiveMsg, Response, ResponseView, MessageView, Snip20Msg, Snip20View,
    StateResponse, LastRouletteResponse, WasmExecute, transfer_message, transfer_view,
    empty_response,
};
use crate::state::{State, Admin, LastSpin};
use crate::operations::random_of;
use crate::roulette::{roulette_receive, roulette_spec, spin_view};
use crate::blackjack::{with_jackpot, blackjack_receive_spec};
use crate::state::BlackjackView;

verus! {

/// A new contract: the house takes its token, limits and decimals from the
/// message, starts with empty funds and no raffle, and is administered by
/// the sender; the response asks the token to notify this contract, under
/// `code_hash`, of the tokens that it receives.
pub fn instantiate(sender: String, code_hash: String, msg: InstantiateMsg) -> (r: (State, Admin, Response))
    ensures
        r.0 == (State {
            max_bet: msg.max_bet,
            known_snip: msg.known_snip,
            snip_hash: msg.snip_hash,
            decimal: msg.decimal,
            vault: 0,
            jackpot: 0,
            next_jackpot: 0,
            entries: 0,
            winner: 0,
            drawing_end: 0,
            last_drawing: 0,
        }),
        r.1 == (Admin { admin: sender, vault: 0 }),
        r.2@ == (ResponseView {
            messages: seq![
                MessageView {
                    contract_addr: msg.known_snip@,
                    code_hash: msg.snip_hash@,
                    msg: Snip20View::RegisterReceive { code_hash: code_hash@, padding: None },
                },
            ],
            attributes: Seq::empty(),
        }),
{
    let state = State {
        max_bet: msg.max_bet,
        known_snip: msg.known_snip,
        snip_hash: msg.snip_hash,
        decimal: msg.decimal,
        vault: 0,
        jackpot: 0,
        next_jackpot: 0,
        entries: 0,
        winner: 0,
        drawing_end: 0,
        last_drawing: 0,
    };
    let admin = Admin { admin: sender, vault: 0 };
    let message = WasmExecute {
        contract_addr: state.known_snip.clone(),
        code_hash: state.snip_hash.clone(),
        msg: Snip20Msg::register_receive(code_hash),
    };
    let mut response = Response::new();
    response.add_message(message);
    proof {
        assert(response@.messages =~= seq![message@]);
    }
    (state, admin, response)
}

/// The admin withdraws `amount` from the vault; it is sent to the admin.
/// Anyone else is refused; more than the vault holds aborts.
pub open spec fn withdraw_spec(admin: Admin, state: State, sender: Seq<char>, amount: u128) -> Result<
    (State, ResponseView),
    ContractError,
> {
    if sender != admin.admin@ {
        Err(ContractError::NotAuthorized)
    } else if amount > state.vault {
        Err(ContractError::Overflow)
    } else {
        Ok(
            (
                State { vault: (state.vault - amount) as u128, ..state },
                ResponseView {
                    messages: seq![transfer_view(state, sender, amount)],
                    attributes: Seq::empty(),
                },
            ),
        )
    }
}

/// The admin withdraws `amount` from the vault (see `withdraw_spec`).
pub fn try_withdraw(admin: &Admin, state: State, sender: String, amount: u128) -> (r: Result<
    (State, Response),
    ContractError,
>)
    ensures
        match r {
            Ok((s, resp)) => withdraw_spec(*admin, state, sender@, amount) == Ok::<
                (State, ResponseView),
                ContractError,
            >((s, resp@)),
            Err(e) => withdraw_spec(*admin, state, sender@, amount) == Err::<
                (State, ResponseView),
                ContractError,
            >(e),
        },
{
    if sender != admin.admin {
        return Err(ContractError::NotAuthorized);
    }
    if amount > state.vault {
        return Err(ContractError::Overflow);
    }
    let mut house = state;
    house.vault = house.vault - amount;
    let mut response = Response::new();
    let ghost to = sender@;
    response.add_message(transfer_message(&house, sender, amount));
    proof {
        assert(response@.messages =~= seq![transfer_view(state, to, amount)]);
    }
    Ok((house, response))
}

/// The admin hands the administration to `address` (the admin's vault
/// stays); anyone else is refused.
pub open spec fn change_admin_spec(admin: Admin, sender: Seq<char>, address: String) -> Result<
    Admin,
    ContractError,
> {
    if sender != admin.admin@ {
        Err(ContractError::NotAuthorized)
    } else {
        Ok(Admin { admin: address, vault: admin.vault })
    }
}

/// The admin hands the administration to `address` (see `change_admin_spec`).
pub fn change_admin(admin: &Admin, sender: &String, address: String) -> (r: Result<Admin, ContractError>)
    ensures
        r == change_admin_spec(*admin, sender@, address),
{
    if *sender != admin.admin {
        return Err(ContractError::NotAuthorized);
    }
    Ok(Admin { admin: address, vault: admin.vault })
}

/// The admin sets the maximum bet; anyone else is refused.
pub open spec fn change_max_bet_spec(admin: Admin, state: State, sender: Seq<char>, max: u128) -> Result<
    State,
    ContractError,
> {
    if sender != admin.admin@ {
        Err(ContractError::NotAuthorized)
    } else {
        Ok(State { max_bet: max, ..state })
    }
}

/// The admin sets the maximum bet (see `change_max_bet_spec`).
pub fn change_max_bet(admin: &Admin, state: State, sender: &String, max: u128) -> (r: Result<State, ContractError>)
    ensures
        r == change_max_bet_spec(*admin, state, sender@, max),
{
    if *sender != admin.admin {
        return Err(ContractError::NotAuthorized);
    }
    let mut house = state;
    house.max_bet = max;
    Ok(house)
}

/// The admin's deposit of `amount` tokens into the vault; tokens sent on
/// behalf of anyone else are refused; a vault that would overflow aborts.
pub open spec fn deposit_spec(admin: Admin, state: State, from: Seq<char>, amount: u128) -> Result<
    State,
    ContractError,
> {
    if from != admin.admin@ {
        Err(ContractError::NotAuthorized)
    } else if state.vault + amount > u128::MAX {
        Err(ContractError::Overflow)
    } else {
        Ok(State { vault: (state.vault + amount) as u128, ..state })
    }
}

/// The admin's deposit of `amount` tokens into the vault (see `deposit_spec`).
pub fn deposit_receive(admin: &Admin, state: State, from: &String, amount: u128) -> (r: Result<State, ContractError>)
    ensures
        r == deposit_spec(*admin, state, from@, amount),
{
    if *from != admin.admin {
        return Err(ContractError::NotAuthorized);
    }
    let mut house = state;
    house.vault = match house.vault.checked_add(amount) {
        Some(v) => v,
        None => return Err(ContractError::Overflow),
    };
    Ok(house)
}

/// What a receipt of tokens leaves behind: the state, the player's last
/// spin where the tokens paid for one, and the response.
pub struct Receipt {
    pub state: State,
    pub last_spin: Option<LastSpin>,
    pub response: Response,
}

/// Tokens received from the token contract `sender` on behalf of `from`:
/// only the contract's own token is accepted; the message says whether they
/// pay for a roulette spin or are the admin's deposit.
pub fn try_receive(
    state: State,
    admin: &Admin,
    sender: &String,
    from: String,
    amount: u128,
    msg: ReceiveMsg,
    random: &Option<Vec<u8>>,
) -> (r: Result<Receipt, ContractError>)
    ensures
        sender@ != state.known_snip@ ==> r == Err::<Receipt, ContractError>(ContractError::InvalidSnip),
        sender@ == state.known_snip@ ==> match msg {
            ReceiveMsg::Roulette { bets } => match r {
                Ok(rc) => rc.last_spin matches Some(last) && spin_view(Ok((rc.state, last, rc.response)))
                    == roulette_spec(state, from@, amount, bets@, random_of(*random)) && rc.state
                    == with_jackpot(state, rc.state.jackpot) && last.bets@ == bets@,
                Err(e) => roulette_spec(state, from@, amount, bets@, random_of(*random)) == Err::<
                    crate::roulette::SpinOutcome,
                    ContractError,
                >(e),
            },
            ReceiveMsg::Deposit {} => match r {
                Ok(rc) => deposit_spec(*admin, state, from@, amount) == Ok::<State, ContractError>(rc.state)
                    && rc.last_spin is None && rc.response@ == empty_response(),
                Err(e) => deposit_spec(*admin, state, from@, amount) == Err::<State, ContractError>(e),
            },
        },
{
    if *sender != state.known_snip {
        return Err(ContractError::InvalidSnip);
    }
    match msg {
        ReceiveMsg::Roulette { bets } => {
            match roulette_receive(state, from, amount, bets, random) {
                Ok((s, last, resp)) => Ok(Receipt { state: s, last_spin: Some(last), response: resp }),
                Err(e) => Err(e),
            }
        },
        ReceiveMsg::Deposit {} => {
            let s = deposit_receive(admin, state, &from, amount)?;
            Ok(Receipt { state: s, last_spin: None, response: Response::new() })
        },
    }
}

/// The answer to a query of the house's state.
pub fn query_state(state: State) -> (r: StateResponse)
    ensures
        r.state == state,
{
    StateResponse { state }
}

/// The answer to a query of a player's last spin: the recorded spin, or,
/// for a player who never spun, a spin on number 404 with no bets that won 404.
pub fn query_last_roulette(stored: Option<LastSpin>) -> (r: LastRouletteResponse)
    ensures
        stored matches Some(l) ==> r.last_spin == l,
        stored is None ==> r.last_spin.winning_number == 404 && r.last_spin.bets@.len() == 0
            && r.last_spin.winnings == 404,
{
    match stored {
        Some(l) => LastRouletteResponse { last_spin: l },
        None => LastRouletteResponse {
            last_spin: LastSpin { winning_number: 404, bets: Vec::new(), winnings: 404 },
        },
    }
}


/// Withdrawing an amount from the vault and depositing it back leaves the
/// house as it was.
pub proof fn lemma_withdraw_then_deposit(admin: Admin, state: State, amount: u128)
    requires
        amount <= state.vault,
    ensures
        withdraw_spec(admin, state, admin.admin@, amount) matches Ok((s1, _)) && deposit_spec(
            admin,
            s1,
            admin.admin@,
            amount,
        ) == Ok::<State, ContractError>(state),
{
}

/// Depositing an amount and withdrawing it again leaves the house as it was.
pub proof fn lemma_deposit_then_withdraw(admin: Admin, state: State, amount: u128)
    requires
        state.vault + amount <= u128::MAX,
    ensures
        deposit_spec(admin, state, admin.admin@, amount) matches Ok(s1) && withdraw_spec(
            admin,
            s1,
            admin.admin@,
            amount,
        ) matches Ok((s2, _)) && s2 == state,
{
}

/// Only the admin moves the house's funds, limits or administration:
/// anyone else is refused.
pub proof fn lemma_only_admin(admin: Admin, state: State, caller: Seq<char>, amount: u128, address: String)
    requires
        caller != admin.admin@,
    ensures
        withdraw_spec(admin, state, caller, amount) == Err::<(State, ResponseView), ContractError>(
            ContractError::NotAuthorized,
        ),
        deposit_spec(admin, state, caller, amount) == Err::<State, ContractError>(ContractError::NotAuthorized),
        change_max_bet_spec(admin, state, caller, amount) == Err::<State, ContractError>(
            ContractError::NotAuthorized,
        ),
        change_admin_spec(admin, caller, address) == Err::<Admin, ContractError>(ContractError::NotAuthorized),
{
}

/// Once the admin sets a maximum bet, a spin or a blackjack move paid with
/// more is refused.
pub proof fn lemma_max_bet_enforced(
    admin: Admin,
    state: State,
    max: u128,
    from: Seq<char>,
    amount: u128,
    bets: Seq<crate::msg::BetMsg>,
    stored: Option<crate::state::Blackjack>,
    action: Seq<char>,
    random: Option<u32>,
)
    requires
        amount > max,
    ensures
        change_max_bet_spec(admin, state, admin.admin@, max) matches Ok(s1) && roulette_spec(
            s1,
            from,
            amount,
            bets,
            random,
        ) == Err::<crate::roulette::SpinOutcome, ContractError>(ContractError::AboveMaxBet)
            && blackjack_receive_spec(s1, stored, from, amount, action, random) == Err::<
            (u128, BlackjackView, ResponseView),
            ContractError,
        >(ContractError::AboveMaxBet),
{
}

} // verus!
