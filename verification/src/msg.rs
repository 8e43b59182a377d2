//! The messages that the contract takes and sends, and the response that a
//! call produces.

use vstd::prelude::*;
use crate::state::{State, LastSpin};

verus! {

/// One bet of a roulette spin: the kind of bet, the numbers it covers (as
/// the text "1, 2, 3") and the stake in whole tokens.
pub struct BetMsg {
    pub bet_type: String,
    pub numbers: String,
    pub wager: u128,
}

/// The parameters of a new contract.
pub struct InstantiateMsg {
    pub known_snip: String,
    pub snip_hash: String,
    pub max_bet: u128,
    pub decimal: u128,
}

/// The calls that change the contract.
pub enum ExecuteMsg {
    Withdraw { amount: u128 },
    Receive { sender: String, from: String, amount: u128, memo: Option<String>, msg: Vec<u8> },
    ChangeAdmin { address: String },
    ChangeMaxBet { max: u128 },
}

/// What a token transfer to the contract asks it to do.
pub enum ReceiveMsg {
    Roulette { bets: Vec<BetMsg> },
    Deposit {},
}

/// The queries that the contract answers.
pub enum QueryMsg {
    GetState {},
    LastRoulette { address: String },
}

/// The answer to `GetState`.
pub struct StateResponse {
    pub state: State,
}

/// The answer to `LastRoulette`.
pub struct LastRouletteResponse {
    pub last_spin: LastSpin,
}

/// Messages sent to the SNIP-20 token contract.
pub enum Snip20Msg {
    RegisterReceive { code_hash: String, padding: Option<String> },
    Transfer { recipient: String, amount: u128, padding: Option<String> },
}

/// The content of a `Snip20Msg`, with texts as character sequences.
pub enum Snip20View {
    RegisterReceive { code_hash: Seq<char>, padding: Option<Seq<char>> },
    Transfer { recipient: Seq<char>, amount: u128, padding: Option<Seq<char>> },
}

pub open spec fn opt_text(o: Option<String>) -> Option<Seq<char>> {
    match o {
        Some(s) => Some(s@),
        None => None,
    }
}

impl View for Snip20Msg {
    type V = Snip20View;

    open spec fn view(&self) -> Snip20View {
        match self {
            Snip20Msg::RegisterReceive { code_hash, padding } => Snip20View::RegisterReceive {
                code_hash: code_hash@,
                padding: opt_text(*padding),
            },
            Snip20Msg::Transfer { recipient, amount, padding } => Snip20View::Transfer {
                recipient: recipient@,
                amount: *amount,
                padding: opt_text(*padding),
            },
        }
    }
}

impl Snip20Msg {
    /// Asks the token contract to notify this contract, under its code hash,
    /// of the tokens that it receives.
    pub fn register_receive(code_hash: String) -> (m: Self)
        ensures
            m@ == (Snip20View::RegisterReceive { code_hash: code_hash@, padding: None }),
    {
        Snip20Msg::RegisterReceive { code_hash, padding: None }
    }

    /// Asks the token contract to send `amount` to `recipient`.
    pub fn transfer_snip(recipient: String, amount: u128) -> (m: Self)
        ensures
            m@ == (Snip20View::Transfer { recipient: recipient@, amount, padding: None }),
    {
        Snip20Msg::Transfer { recipient, amount, padding: None }
    }
}

/// A message executed on another contract (the token), with no funds attached.
pub struct WasmExecute {
    pub contract_addr: String,
    pub code_hash: String,
    pub msg: Snip20Msg,
}

#[verifier::ext_equal]
pub struct MessageView {
    pub contract_addr: Seq<char>,
    pub code_hash: Seq<char>,
    pub msg: Snip20View,
}

impl View for WasmExecute {
    type V = MessageView;

    open spec fn view(&self) -> MessageView {
        MessageView { contract_addr: self.contract_addr@, code_hash: self.code_hash@, msg: self.msg@ }
    }
}

/// A key and value reported with a response.
pub struct Attribute {
    pub key: String,
    pub value: String,
}

/// The messages that a call sends and the attributes that it reports.
pub struct Response {
    pub messages: Vec<WasmExecute>,
    pub attributes: Vec<Attribute>,
}

#[verifier::ext_equal]
pub struct ResponseView {
    pub messages: Seq<MessageView>,
    pub attributes: Seq<(Seq<char>, Seq<char>)>,
}

impl View for Response {
    type V = ResponseView;

    open spec fn view(&self) -> ResponseView {
        ResponseView {
            messages: self.messages@.map_values(|m: WasmExecute| m@),
            attributes: self.attributes@.map_values(|a: Attribute| (a.key@, a.value@)),
        }
    }
}

/// The message that sends `amount` tokens of the contract's token to `recipient`.
pub open spec fn transfer_view(state: State, recipient: Seq<char>, amount: u128) -> MessageView {
    MessageView {
        contract_addr: state.known_snip@,
        code_hash: state.snip_hash@,
        msg: Snip20View::Transfer { recipient, amount, padding: None },
    }
}

/// A response with neither messages nor attributes.
pub open spec fn empty_response() -> ResponseView {
    ResponseView { messages: Seq::empty(), attributes: Seq::empty() }
}

impl Response {
    /// A response with neither messages nor attributes.
    pub fn new() -> (r: Response)
        ensures
            r@ == empty_response(),
    {
        let r = Response { messages: Vec::new(), attributes: Vec::new() };
        proof {
            assert(r@.messages =~= Seq::<MessageView>::empty());
            assert(r@.attributes =~= Seq::<(Seq<char>, Seq<char>)>::empty());
        }
        r
    }

    /// Adds an attribute.
    pub fn add_attribute(&mut self, key: &str, value: String)
        ensures
            final(self)@.messages == old(self)@.messages,
            final(self)@.attributes == old(self)@.attributes.push((key@, value@)),
    {
        let a = Attribute { key: crate::text::text(key), value };
        self.attributes.push(a);
        proof {
            assert(final(self)@.attributes =~= old(self)@.attributes.push((key@, value@)));
        }
    }

    /// Adds a message.
    pub fn add_message(&mut self, m: WasmExecute)
        ensures
            final(self)@.messages == old(self)@.messages.push(m@),
            final(self)@.attributes == old(self)@.attributes,
    {
        let ghost mv = m@;
        self.messages.push(m);
        proof {
            assert(final(self)@.messages =~= old(self)@.messages.push(mv));
        }
    }
}

/// The message that sends `amount` tokens of the contract's token to `recipient`.
pub fn transfer_message(state: &State, recipient: String, amount: u128) -> (m: WasmExecute)
    ensures
        m@ == transfer_view(*state, recipient@, amount),
{
    WasmExecute {
        contract_addr: state.known_snip.clone(),
        code_hash: state.snip_hash.clone(),
        msg: Snip20Msg::transfer_snip(recipient, amount),
    }
}

} // verus!
