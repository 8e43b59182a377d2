//! The weekly raffle: tickets bought with tokens, and the drawing that pays
//! the jackpot to one ticket.

use vstd::prelude::*;
use crate::error::ContractError;
use crate::msg::{Response, ResponseView, transfer_message, transfer_view};
use crate::state::{State, Admin};
use crate::text::{decimal, decimal_string, join_decimal, join_numbers};
use crate::operations::{random_of, random_word};

verus! {

/// How long a raffle runs: one week, in nanoseconds.
pub const RAFFLE_PERIOD: u64 = 604_800_000_000_000;

/// Who may draw the raffle now: the admin at any time; anyone else only
/// while the drawing's end has not passed (`drawing_end < now` refuses).
/// The winning ticket is the block's random number modulo the number of
/// tickets sold.
pub open spec fn draw_spec(state: State, admin: Admin, sender: Seq<char>, now: u64, random: Option<u32>) -> Result<
    u32,
    ContractError,
> {
    if sender != admin.admin@ && state.drawing_end < now {
        Err(ContractError::DrawingNotOver)
    } else {
        match random {
            None => Err(ContractError::MissingRandom),
            Some(w) => if state.entries == 0 {
                Err(ContractError::NoEntries)
            } else {
                Ok((w % state.entries) as u32)
            },
        }
    }
}

/// Draws the raffle (see `draw_spec`): returns the winning ticket's number,
/// whose owner the caller looks up among the tickets of the drawing.
pub fn try_raffle(state: &State, admin: &Admin, sender: &String, now: u64, random: &Option<Vec<u8>>) -> (r: Result<
    u32,
    ContractError,
>)
    ensures
        r == draw_spec(*state, *admin, sender@, now, random_of(*random)),
{
    if *sender != admin.admin {
        if state.drawing_end < now {
            return Err(ContractError::DrawingNotOver);
        }
    }
    let w = match random_word(random) {
        Some(w) => w,
        None => return Err(ContractError::MissingRandom),
    };
    if state.entries == 0 {
        return Err(ContractError::NoEntries);
    }
    Ok(w % state.entries)
}

/// Settles a drawing won by ticket `spin`, owned by `owner`: the jackpot is
/// sent to the owner, the next raffle ends a week from `now`, its jackpot is
/// what the tickets of the last one fed, and no ticket is sold yet.
pub open spec fn settle_spec(state: State, spin: u32, owner: Option<Seq<char>>, now: u64) -> Result<
    (State, ResponseView),
    ContractError,
> {
    match owner {
        None => Err(ContractError::MissingTicket),
        Some(o) => if now + RAFFLE_PERIOD > u64::MAX {
            Err(ContractError::Overflow)
        } else {
            Ok(
                (
                    State {
                        winner: spin,
                        last_drawing: state.drawing_end,
                        drawing_end: (now + RAFFLE_PERIOD) as u64,
                        jackpot: state.next_jackpot,
                        next_jackpot: 0,
                        entries: 0,
                        ..state
                    },
                    ResponseView {
                        messages: seq![transfer_view(state, o, state.jackpot)],
                        attributes: seq![
                            ("winning_ticket"@, decimal(spin as nat)),
                            ("winnings"@, decimal(state.jackpot as nat)),
                            ("test"@, o),
                        ],
                    },
                ),
            )
        },
    }
}

pub open spec fn owner_view(owner: Option<String>) -> Option<Seq<char>> {
    match owner {
        Some(o) => Some(o@),
        None => None,
    }
}

/// Settles a drawing (see `settle_spec`); `owner` is the owner of the
/// winning ticket, where the ticket is on record.
pub fn settle_raffle(state: State, spin: u32, owner: Option<String>, now: u64) -> (r: Result<
    (State, Response),
    ContractError,
>)
    ensures
        match r {
            Ok((s, resp)) => settle_spec(state, spin, owner_view(owner), now) == Ok::<
                (State, ResponseView),
                ContractError,
            >((s, resp@)),
            Err(e) => settle_spec(state, spin, owner_view(owner), now) == Err::<
                (State, ResponseView),
                ContractError,
            >(e),
        },
{
    let o = match owner {
        Some(o) => o,
        None => return Err(ContractError::MissingTicket),
    };
    let end = match now.checked_add(RAFFLE_PERIOD) {
        Some(e) => e,
        None => return Err(ContractError::Overflow),
    };
    let winnings = state.jackpot;
    let ghost oview = o@;
    let mut response = Response::new();
    response.add_message(transfer_message(&state, o.clone(), winnings));
    response.add_attribute("winning_ticket", decimal_string(spin as u128));
    response.add_attribute("winnings", decimal_string(winnings));
    response.add_attribute("test", o);
    proof {
        assert(response@.messages =~= seq![transfer_view(state, oview, winnings)]);
        assert(response@.attributes =~= seq![
            ("winning_ticket"@, decimal(spin as nat)),
            ("winnings"@, decimal(winnings as nat)),
            ("test"@, oview),
        ]);
    }
    let mut house = state;
    house.winner = spin;
    house.last_drawing = house.drawing_end;
    house.drawing_end = end;
    house.jackpot = house.next_jackpot;
    house.next_jackpot = 0;
    house.entries = 0;
    Ok((house, response))
}

/// The numbers `first`, `first + 1`, ..., `first + count - 1`.
pub open spec fn ticket_range(first: int, count: int) -> Seq<int> {
    Seq::new(count as nat, |i: int| first + i)
}

/// What a ticket purchase leaves behind: the state, the buyer's tickets of
/// the current drawing, the tickets just bought (each owned by the buyer)
/// and the response.
pub struct TicketPurchase {
    pub state: State,
    pub ticket_log: Vec<u32>,
    pub new_tickets: Vec<u32>,
    pub response: Response,
}

/// Buying `quantity` tickets for `amount` tokens: each ticket costs a
/// million of the token's smallest unit; the tickets are numbered on from
/// those already sold; nine tenths of the amount go to the next jackpot.
pub open spec fn raffle_receive_spec(state: State, amount: u128, quantity: u32) -> Result<
    (int, int),
    ContractError,
> {
    if quantity * 1000000 > u32::MAX {
        Err(ContractError::Overflow)
    } else if amount != quantity * 1000000 {
        Err(ContractError::InvalidAmount)
    } else if state.entries + quantity > u32::MAX {
        Err(ContractError::Overflow)
    } else if amount * 90 > u128::MAX || state.next_jackpot + amount * 90 / 100 > u128::MAX {
        Err(ContractError::Overflow)
    } else {
        Ok((state.entries + quantity, state.next_jackpot + amount * 90 / 100))
    }
}

/// Buying raffle tickets (see `raffle_receive_spec`); `ticket_log` holds the
/// buyer's tickets of the current drawing, if any.
pub fn raffle_receive(state: State, amount: u128, quantity: u32, ticket_log: Option<Vec<u32>>) -> (r: Result<
    TicketPurchase,
    ContractError,
>)
    ensures
        r matches Err(e) ==> raffle_receive_spec(state, amount, quantity) == Err::<(int, int), ContractError>(e),
        r matches Ok(p) ==> {
            let old_log = match ticket_log {
                Some(l) => l@,
                None => Seq::empty(),
            };
            let bought = ticket_range(state.entries as int, quantity as int);
            &&& raffle_receive_spec(state, amount, quantity) == Ok::<(int, int), ContractError>(
                (p.state.entries as int, p.state.next_jackpot as int),
            )
            &&& p.state == (State { entries: p.state.entries, next_jackpot: p.state.next_jackpot, ..state })
            &&& p.new_tickets@.map_values(|t: u32| t as int) == bought
            &&& p.ticket_log@ == old_log + p.new_tickets@
            &&& p.response@ == (ResponseView {
                messages: Seq::empty(),
                attributes: seq![("tickets"@, join_decimal(bought, ","@))],
            })
        },
{
    let price = match quantity.checked_mul(1000000) {
        Some(p) => p,
        None => return Err(ContractError::Overflow),
    };
    if amount != price as u128 {
        return Err(ContractError::InvalidAmount);
    }
    let entries = match state.entries.checked_add(quantity) {
        Some(e) => e,
        None => return Err(ContractError::Overflow),
    };
    let share = match amount.checked_mul(90) {
        Some(x) => x / 100,
        None => return Err(ContractError::Overflow),
    };
    let next_jackpot = match state.next_jackpot.checked_add(share) {
        Some(j) => j,
        None => return Err(ContractError::Overflow),
    };
    let mut log = match ticket_log {
        Some(l) => l,
        None => Vec::new(),
    };
    let ghost old_log = log@;
    let mut new_tickets: Vec<u32> = Vec::new();
    let mut i: u32 = 0;
    while i < quantity
        invariant
            i <= quantity,
            state.entries + quantity <= u32::MAX,
            new_tickets@.len() == i,
            forall|j: int| 0 <= j < i ==> #[trigger] new_tickets@[j] == state.entries + j,
            log@ == old_log + new_tickets@,
        decreases quantity - i,
    {
        let ticket_number = state.entries + i;
        log.push(ticket_number);
        new_tickets.push(ticket_number);
        proof {
            assert(log@ =~= old_log + new_tickets@);
        }
        i = i + 1;
    }
    let mut house = state;
    house.entries = entries;
    house.next_jackpot = next_jackpot;
    let mut response = Response::new();
    response.add_attribute("tickets", join_numbers(&new_tickets, ","));
    proof {
        assert(new_tickets@.map_values(|t: u32| t as int) =~= ticket_range(state.entries as int, quantity as int));
        assert(response@.attributes =~= seq![
            ("tickets"@, join_decimal(ticket_range(state.entries as int, quantity as int), ","@)),
        ]);
    }
    Ok(TicketPurchase { state: house, ticket_log: log, new_tickets, response })
}


/// The winning ticket is always one of the tickets sold.
pub proof fn lemma_winning_ticket_was_sold(state: State, admin: Admin, sender: Seq<char>, now: u64, random: Option<u32>)
    ensures
        draw_spec(state, admin, sender, now, random) matches Ok(t) ==> t < state.entries,
{
}

/// Once tickets are sold, the admin can draw the raffle whenever the block
/// carries a random seed, and the winner is among the tickets sold.
pub proof fn lemma_sold_raffle_can_be_drawn(
    state: State,
    admin: Admin,
    amount: u128,
    quantity: u32,
    now: u64,
    w: u32,
)
    requires
        quantity > 0,
    ensures
        raffle_receive_spec(state, amount, quantity) matches Ok((entries, next_jackpot)) ==> draw_spec(
            State { entries: entries as u32, next_jackpot: next_jackpot as u128, ..state },
            admin,
            admin.admin@,
            now,
            Some(w),
        ) == Ok::<u32, ContractError>((w % (entries as u32)) as u32) && w % (entries as u32) < entries,
{
}

/// Settling a drawing starts a new raffle: no ticket sold, the next jackpot
/// becomes the prize, and the drawing ends a week after the settlement.
pub proof fn lemma_settle_starts_new_raffle(state: State, spin: u32, owner: Seq<char>, now: u64)
    requires
        now + RAFFLE_PERIOD <= u64::MAX,
    ensures
        settle_spec(state, spin, Some(owner), now) matches Ok((s, resp)) && s.entries == 0 && s.jackpot
            == state.next_jackpot && s.next_jackpot == 0 && s.drawing_end == now + RAFFLE_PERIOD
            && s.last_drawing == state.drawing_end && s.winner == spin && resp.messages.len() == 1,
{
}

} // verus!
