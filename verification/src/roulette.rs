//! Roulette: the bets that the table accepts, what each pays, and a spin.

use vstd::prelude::*;
use crate::error::ContractError;
use crate::msg::{BetMsg, Response, ResponseView, transfer_message};
use crate::state::{State, LastSpin};
use crate::text::{
    decimal, join_decimal, join_numbers, is_text, decimal_string, split_on, parse_all,
    lemma_list_text_round_trip, lemma_parse_decimal,
};
use crate::operations::{random_of, random_word};
use crate::blackjack::{payout, reply, with_jackpot};

verus! {

/// The bets of kind DoubleStreet: two adjacent rows of three.
pub open spec fn double_streets() -> Seq<Seq<u32>> {
    seq![
        seq![1u32, 2, 3, 4, 5, 6],
        seq![4u32, 5, 6, 7, 8, 9],
        seq![7u32, 8, 9, 10, 11, 12],
        seq![10u32, 11, 12, 13, 14, 15],
        seq![13u32, 14, 15, 16, 17, 18],
        seq![16u32, 17, 18, 19, 20, 21],
        seq![19u32, 20, 21, 22, 23, 24],
        seq![22u32, 23, 24, 25, 26, 27],
        seq![25u32, 26, 27, 28, 29, 30],
        seq![28u32, 29, 30, 31, 32, 33],
        seq![31u32, 32, 33, 34, 35, 36],
    ]
}

/// The bets of kind Street: a row of three.
pub open spec fn streets() -> Seq<Seq<u32>> {
    seq![
        seq![1u32, 2, 3],
        seq![4u32, 5, 6],
        seq![7u32, 8, 9],
        seq![10u32, 11, 12],
        seq![13u32, 14, 15],
        seq![16u32, 17, 18],
        seq![19u32, 20, 21],
        seq![22u32, 23, 24],
        seq![25u32, 26, 27],
        seq![28u32, 29, 30],
        seq![31u32, 32, 33],
        seq![34u32, 35, 36],
    ]
}

/// The bets of kind Split: two adjacent numbers.
pub open spec fn splits() -> Seq<Seq<u32>> {
    seq![
        seq![3u32, 6],
        seq![6u32, 9],
        seq![9u32, 12],
        seq![12u32, 15],
        seq![15u32, 18],
        seq![18u32, 21],
        seq![21u32, 24],
        seq![24u32, 27],
        seq![27u32, 30],
        seq![30u32, 33],
        seq![33u32, 36],
        seq![35u32, 36],
        seq![32u32, 33],
        seq![29u32, 30],
        seq![26u32, 27],
        seq![23u32, 24],
        seq![20u32, 21],
        seq![17u32, 18],
        seq![14u32, 15],
        seq![11u32, 12],
        seq![8u32, 9],
        seq![5u32, 6],
        seq![2u32, 3],
        seq![2u32, 5],
        seq![5u32, 8],
        seq![8u32, 11],
        seq![11u32, 14],
        seq![14u32, 17],
        seq![17u32, 20],
        seq![20u32, 23],
        seq![23u32, 26],
        seq![26u32, 29],
        seq![29u32, 32],
        seq![32u32, 35],
        seq![34u32, 35],
        seq![31u32, 32],
        seq![28u32, 29],
        seq![25u32, 26],
        seq![22u32, 23],
        seq![19u32, 20],
        seq![16u32, 17],
        seq![10u32, 11],
        seq![7u32, 8],
        seq![4u32, 5],
        seq![1u32, 2],
        seq![1u32, 4],
        seq![4u32, 7],
        seq![7u32, 10],
        seq![10u32, 13],
        seq![13u32, 16],
        seq![16u32, 19],
        seq![19u32, 22],
        seq![22u32, 25],
        seq![25u32, 28],
        seq![28u32, 31],
        seq![31u32, 34],
        seq![13u32, 14],
    ]
}

/// The bets of kind Corner: four numbers meeting at a corner.
pub open spec fn corners() -> Seq<Seq<u32>> {
    seq![
        seq![2u32, 3, 5, 6],
        seq![5u32, 6, 8, 9],
        seq![8u32, 9, 11, 12],
        seq![11u32, 12, 14, 15],
        seq![14u32, 15, 17, 18],
        seq![17u32, 18, 20, 21],
        seq![20u32, 21, 23, 24],
        seq![23u32, 24, 26, 27],
        seq![26u32, 27, 29, 30],
        seq![29u32, 30, 32, 33],
        seq![32u32, 33, 35, 36],
        seq![31u32, 32, 34, 35],
        seq![28u32, 29, 31, 32],
        seq![25u32, 26, 28, 29],
        seq![22u32, 23, 25, 26],
        seq![19u32, 20, 22, 23],
        seq![16u32, 17, 19, 20],
        seq![13u32, 14, 16, 17],
        seq![10u32, 11, 13, 14],
        seq![7u32, 8, 10, 11],
        seq![4u32, 5, 7, 8],
        seq![1u32, 2, 4, 5],
    ]
}

/// The bets of kind HighLow: 1 to 18, or 19 to 36.
pub open spec fn highs_lows() -> Seq<Seq<u32>> {
    seq![
        seq![1u32, 2, 3, 4, 5, 6, 7, 8, 9, 10, 11, 12, 13, 14, 15, 16, 17, 18],
        seq![19u32, 20, 21, 22, 23, 24, 25, 26, 27, 28, 29, 30, 31, 32, 33, 34, 35, 36],
    ]
}

/// The bets of kind Column: a column of twelve.
pub open spec fn columns() -> Seq<Seq<u32>> {
    seq![
        seq![3u32, 6, 9, 12, 15, 18, 21, 24, 27, 30, 33, 36],
        seq![2u32, 5, 8, 11, 14, 17, 20, 23, 26, 29, 32, 35],
        seq![1u32, 4, 7, 10, 13, 16, 19, 22, 25, 28, 31, 34],
    ]
}

/// The bets of kind Dozen: a dozen.
pub open spec fn dozens() -> Seq<Seq<u32>> {
    seq![
        seq![1u32, 2, 3, 4, 5, 6, 7, 8, 9, 10, 11, 12],
        seq![13u32, 14, 15, 16, 17, 18, 19, 20, 21, 22, 23, 24],
        seq![25u32, 26, 27, 28, 29, 30, 31, 32, 33, 34, 35, 36],
    ]
}

/// The bets of kind OddEvenRedBlack: red, even, black or odd.
pub open spec fn odds_evens_reds_blacks() -> Seq<Seq<u32>> {
    seq![
        seq![1u32, 3, 5, 7, 9, 12, 14, 16, 18, 19, 21, 23, 25, 27, 30, 32, 34, 36],
        seq![2u32, 4, 6, 8, 10, 12, 14, 16, 18, 20, 22, 24, 26, 28, 30, 32, 34, 36],
        seq![2u32, 4, 6, 8, 10, 11, 13, 15, 17, 20, 22, 24, 26, 28, 29, 31, 33, 35],
        seq![1u32, 3, 5, 7, 9, 11, 13, 15, 17, 19, 21, 23, 25, 27, 29, 31, 33, 35],
    ]
}

fn double_streets_exec() -> (t: Vec<Vec<u32>>)
    ensures
        t.deep_view() == double_streets(),
        t@.len() <= 64,
        forall|i: int| 0 <= i < t@.len() ==> #[trigger] t@[i]@.len() <= 18,
{
    let t = vec![
        vec![1u32, 2, 3, 4, 5, 6],
        vec![4u32, 5, 6, 7, 8, 9],
        vec![7u32, 8, 9, 10, 11, 12],
        vec![10u32, 11, 12, 13, 14, 15],
        vec![13u32, 14, 15, 16, 17, 18],
        vec![16u32, 17, 18, 19, 20, 21],
        vec![19u32, 20, 21, 22, 23, 24],
        vec![22u32, 23, 24, 25, 26, 27],
        vec![25u32, 26, 27, 28, 29, 30],
        vec![28u32, 29, 30, 31, 32, 33],
        vec![31u32, 32, 33, 34, 35, 36],
    ];
    proof {
        assert(t.deep_view() =~~= double_streets());
    }
    t
}

fn streets_exec() -> (t: Vec<Vec<u32>>)
    ensures
        t.deep_view() == streets(),
        t@.len() <= 64,
        forall|i: int| 0 <= i < t@.len() ==> #[trigger] t@[i]@.len() <= 18,
{
    let t = vec![
        vec![1u32, 2, 3],
        vec![4u32, 5, 6],
        vec![7u32, 8, 9],
        vec![10u32, 11, 12],
        vec![13u32, 14, 15],
        vec![16u32, 17, 18],
        vec![19u32, 20, 21],
        vec![22u32, 23, 24],
        vec![25u32, 26, 27],
        vec![28u32, 29, 30],
        vec![31u32, 32, 33],
        vec![34u32, 35, 36],
    ];
    proof {
        assert(t.deep_view() =~~= streets());
    }
    t
}

fn splits_exec() -> (t: Vec<Vec<u32>>)
    ensures
        t.deep_view() == splits(),
        t@.len() <= 64,
        forall|i: int| 0 <= i < t@.len() ==> #[trigger] t@[i]@.len() <= 18,
{
    let t = vec![
        vec![3u32, 6],
        vec![6u32, 9],
        vec![9u32, 12],
        vec![12u32, 15],
        vec![15u32, 18],
        vec![18u32, 21],
        vec![21u32, 24],
        vec![24u32, 27],
        vec![27u32, 30],
        vec![30u32, 33],
        vec![33u32, 36],
        vec![35u32, 36],
        vec![32u32, 33],
        vec![29u32, 30],
        vec![26u32, 27],
        vec![23u32, 24],
        vec![20u32, 21],
        vec![17u32, 18],
        vec![14u32, 15],
        vec![11u32, 12],
        vec![8u32, 9],
        vec![5u32, 6],
        vec![2u32, 3],
        vec![2u32, 5],
        vec![5u32, 8],
        vec![8u32, 11],
        vec![11u32, 14],
        vec![14u32, 17],
        vec![17u32, 20],
        vec![20u32, 23],
        vec![23u32, 26],
        vec![26u32, 29],
        vec![29u32, 32],
        vec![32u32, 35],
        vec![34u32, 35],
        vec![31u32, 32],
        vec![28u32, 29],
        vec![25u32, 26],
        vec![22u32, 23],
        vec![19u32, 20],
        vec![16u32, 17],
        vec![10u32, 11],
        vec![7u32, 8],
        vec![4u32, 5],
        vec![1u32, 2],
        vec![1u32, 4],
        vec![4u32, 7],
        vec![7u32, 10],
        vec![10u32, 13],
        vec![13u32, 16],
        vec![16u32, 19],
        vec![19u32, 22],
        vec![22u32, 25],
        vec![25u32, 28],
        vec![28u32, 31],
        vec![31u32, 34],
        vec![13u32, 14],
    ];
    proof {
        assert(t.deep_view() =~~= splits());
    }
    t
}

fn corners_exec() -> (t: Vec<Vec<u32>>)
    ensures
        t.deep_view() == corners(),
        t@.len() <= 64,
        forall|i: int| 0 <= i < t@.len() ==> #[trigger] t@[i]@.len() <= 18,
{
    let t = vec![
        vec![2u32, 3, 5, 6],
        vec![5u32, 6, 8, 9],
        vec![8u32, 9, 11, 12],
        vec![11u32, 12, 14, 15],
        vec![14u32, 15, 17, 18],
        vec![17u32, 18, 20, 21],
        vec![20u32, 21, 23, 24],
        vec![23u32, 24, 26, 27],
        vec![26u32, 27, 29, 30],
        vec![29u32, 30, 32, 33],
        vec![32u32, 33, 35, 36],
        vec![31u32, 32, 34, 35],
        vec![28u32, 29, 31, 32],
        vec![25u32, 26, 28, 29],
        vec![22u32, 23, 25, 26],
        vec![19u32, 20, 22, 23],
        vec![16u32, 17, 19, 20],
        vec![13u32, 14, 16, 17],
        vec![10u32, 11, 13, 14],
        vec![7u32, 8, 10, 11],
        vec![4u32, 5, 7, 8],
        vec![1u32, 2, 4, 5],
    ];
    proof {
        assert(t.deep_view() =~~= corners());
    }
    t
}

fn highs_lows_exec() -> (t: Vec<Vec<u32>>)
    ensures
        t.deep_view() == highs_lows(),
        t@.len() <= 64,
        forall|i: int| 0 <= i < t@.len() ==> #[trigger] t@[i]@.len() <= 18,
{
    let t = vec![
        vec![1u32, 2, 3, 4, 5, 6, 7, 8, 9, 10, 11, 12, 13, 14, 15, 16, 17, 18],
        vec![19u32, 20, 21, 22, 23, 24, 25, 26, 27, 28, 29, 30, 31, 32, 33, 34, 35, 36],
    ];
    proof {
        assert(t.deep_view() =~~= highs_lows());
    }
    t
}

fn columns_exec() -> (t: Vec<Vec<u32>>)
    ensures
        t.deep_view() == columns(),
        t@.len() <= 64,
        forall|i: int| 0 <= i < t@.len() ==> #[trigger] t@[i]@.len() <= 18,
{
    let t = vec![
        vec![3u32, 6, 9, 12, 15, 18, 21, 24, 27, 30, 33, 36],
        vec![2u32, 5, 8, 11, 14, 17, 20, 23, 26, 29, 32, 35],
        vec![1u32, 4, 7, 10, 13, 16, 19, 22, 25, 28, 31, 34],
    ];
    proof {
        assert(t.deep_view() =~~= columns());
    }
    t
}

fn dozens_exec() -> (t: Vec<Vec<u32>>)
    ensures
        t.deep_view() == dozens(),
        t@.len() <= 64,
        forall|i: int| 0 <= i < t@.len() ==> #[trigger] t@[i]@.len() <= 18,
{
    let t = vec![
        vec![1u32, 2, 3, 4, 5, 6, 7, 8, 9, 10, 11, 12],
        vec![13u32, 14, 15, 16, 17, 18, 19, 20, 21, 22, 23, 24],
        vec![25u32, 26, 27, 28, 29, 30, 31, 32, 33, 34, 35, 36],
    ];
    proof {
        assert(t.deep_view() =~~= dozens());
    }
    t
}

fn odds_evens_reds_blacks_exec() -> (t: Vec<Vec<u32>>)
    ensures
        t.deep_view() == odds_evens_reds_blacks(),
        t@.len() <= 64,
        forall|i: int| 0 <= i < t@.len() ==> #[trigger] t@[i]@.len() <= 18,
{
    let t = vec![
        vec![1u32, 3, 5, 7, 9, 12, 14, 16, 18, 19, 21, 23, 25, 27, 30, 32, 34, 36],
        vec![2u32, 4, 6, 8, 10, 12, 14, 16, 18, 20, 22, 24, 26, 28, 30, 32, 34, 36],
        vec![2u32, 4, 6, 8, 10, 11, 13, 15, 17, 20, 22, 24, 26, 28, 29, 31, 33, 35],
        vec![1u32, 3, 5, 7, 9, 11, 13, 15, 17, 19, 21, 23, 25, 27, 29, 31, 33, 35],
    ];
    proof {
        assert(t.deep_view() =~~= odds_evens_reds_blacks());
    }
    t
}


/// The kinds of bet.
#[derive(PartialEq, Eq, Structural, Clone, Copy, Debug)]
pub enum BetKind {
    DoubleStreet,
    Street,
    Split,
    Corner,
    HighLow,
    InsideWhole,
    Column,
    Dozen,
    OddEvenRedBlack,
}

/// The kind of bet that a bet type names, if it names one.
pub open spec fn bet_kind(t: Seq<char>) -> Option<BetKind> {
    if t == "double_street"@ {
        Some(BetKind::DoubleStreet)
    } else if t == "street"@ {
        Some(BetKind::Street)
    } else if t == "split"@ {
        Some(BetKind::Split)
    } else if t == "corner_bet"@ {
        Some(BetKind::Corner)
    } else if t == "outside_high_low"@ {
        Some(BetKind::HighLow)
    } else if t == "inside_whole"@ {
        Some(BetKind::InsideWhole)
    } else if t == "outside_column"@ {
        Some(BetKind::Column)
    } else if t == "outside_dozen"@ {
        Some(BetKind::Dozen)
    } else if t == "outside_oerb"@ {
        Some(BetKind::OddEvenRedBlack)
    } else {
        None
    }
}

/// What a winning bet of each kind pays, in multiples of its wager, on top
/// of the wager returned.
pub open spec fn payout_factor(k: BetKind) -> int {
    match k {
        BetKind::DoubleStreet => 5,
        BetKind::Street => 11,
        BetKind::Split => 17,
        BetKind::Corner => 8,
        BetKind::HighLow => 1,
        BetKind::InsideWhole => 35,
        BetKind::Column => 2,
        BetKind::Dozen => 2,
        BetKind::OddEvenRedBlack => 1,
    }
}

/// The number lists that a bet of each kind may cover (a single number,
/// for `InsideWhole`, is any decimal number instead).
pub open spec fn table(k: BetKind) -> Seq<Seq<u32>> {
    match k {
        BetKind::DoubleStreet => double_streets(),
        BetKind::Street => streets(),
        BetKind::Split => splits(),
        BetKind::Corner => corners(),
        BetKind::HighLow => highs_lows(),
        BetKind::InsideWhole => Seq::empty(),
        BetKind::Column => columns(),
        BetKind::Dozen => dozens(),
        BetKind::OddEvenRedBlack => odds_evens_reds_blacks(),
    }
}

/// How a bet writes the numbers it covers: "1, 2, 3".
pub open spec fn entry_text(e: Seq<u32>) -> Seq<char> {
    join_decimal(e.map_values(|x: u32| x as int), ", "@)
}

/// How many times `x` occurs in `e`.
pub open spec fn count_in(e: Seq<u32>, x: u32) -> int
    decreases e.len(),
{
    if e.len() == 0 {
        0
    } else {
        count_in(e.drop_last(), x) + if e.last() == x {
            1int
        } else {
            0int
        }
    }
}

/// How many times the spin `spin` wins a bet written `numbers` against the
/// number lists `t`: once for each list written so that holds the number.
pub open spec fn table_hits(t: Seq<Seq<u32>>, numbers: Seq<char>, spin: u32) -> int
    decreases t.len(),
{
    if t.len() == 0 {
        0
    } else {
        table_hits(t.drop_last(), numbers, spin) + if entry_text(t.last()) == numbers {
            count_in(t.last(), spin)
        } else {
            0
        }
    }
}

/// How many times the spin `spin` wins a bet of kind `k` written `numbers`.
pub open spec fn hits(k: BetKind, numbers: Seq<char>, spin: u32) -> int {
    if k == BetKind::InsideWhole {
        if decimal(spin as nat) == numbers {
            1
        } else {
            0
        }
    } else {
        table_hits(table(k), numbers, spin)
    }
}

fn bet_kind_exec(t: &String) -> (r: Option<BetKind>)
    ensures
        r == bet_kind(t@),
{
    if is_text(t, "double_street") {
        Some(BetKind::DoubleStreet)
    } else if is_text(t, "street") {
        Some(BetKind::Street)
    } else if is_text(t, "split") {
        Some(BetKind::Split)
    } else if is_text(t, "corner_bet") {
        Some(BetKind::Corner)
    } else if is_text(t, "outside_high_low") {
        Some(BetKind::HighLow)
    } else if is_text(t, "inside_whole") {
        Some(BetKind::InsideWhole)
    } else if is_text(t, "outside_column") {
        Some(BetKind::Column)
    } else if is_text(t, "outside_dozen") {
        Some(BetKind::Dozen)
    } else if is_text(t, "outside_oerb") {
        Some(BetKind::OddEvenRedBlack)
    } else {
        None
    }
}

fn factor_exec(k: BetKind) -> (f: u128)
    ensures
        f == payout_factor(k),
{
    match k {
        BetKind::DoubleStreet => 5,
        BetKind::Street => 11,
        BetKind::Split => 17,
        BetKind::Corner => 8,
        BetKind::HighLow => 1,
        BetKind::InsideWhole => 35,
        BetKind::Column => 2,
        BetKind::Dozen => 2,
        BetKind::OddEvenRedBlack => 1,
    }
}

fn table_exec(k: BetKind) -> (t: Vec<Vec<u32>>)
    ensures
        t.deep_view() == table(k),
        t@.len() <= 64,
        forall|i: int| 0 <= i < t@.len() ==> #[trigger] t@[i]@.len() <= 18,
{
    match k {
        BetKind::DoubleStreet => double_streets_exec(),
        BetKind::Street => streets_exec(),
        BetKind::Split => splits_exec(),
        BetKind::Corner => corners_exec(),
        BetKind::HighLow => highs_lows_exec(),
        BetKind::InsideWhole => Vec::new(),
        BetKind::Column => columns_exec(),
        BetKind::Dozen => dozens_exec(),
        BetKind::OddEvenRedBlack => odds_evens_reds_blacks_exec(),
    }
}

/// A number occurs in a sequence no more often than the sequence is long.
proof fn lemma_count_in_le(e: Seq<u32>, x: u32)
    ensures
        0 <= count_in(e, x) <= e.len(),
    decreases e.len(),
{
    if e.len() > 0 {
        lemma_count_in_le(e.drop_last(), x);
    }
}

fn count_exec(e: &Vec<u32>, x: u32) -> (c: u32)
    requires
        e@.len() <= 18,
    ensures
        c == count_in(e@, x),
{
    let mut c: u32 = 0;
    let mut i: usize = 0;
    while i < e.len()
        invariant
            i <= e@.len() <= 18,
            c == count_in(e@.take(i as int), x),
            c <= i,
        decreases e.len() - i,
    {
        proof {
            assert(e@.take(i + 1).drop_last() =~= e@.take(i as int));
        }
        if e[i] == x {
            c = c + 1;
        }
        i = i + 1;
    }
    proof {
        assert(e@.take(e@.len() as int) =~= e@);
    }
    c
}

fn table_hits_exec(t: &Vec<Vec<u32>>, numbers: &String, spin: u32) -> (h: u32)
    requires
        t@.len() <= 64,
        forall|i: int| 0 <= i < t@.len() ==> #[trigger] t@[i]@.len() <= 18,
    ensures
        h == table_hits(t.deep_view(), numbers@, spin),
{
    let ghost tv = t.deep_view();
    let mut h: u32 = 0;
    let mut i: usize = 0;
    while i < t.len()
        invariant
            i <= t@.len() <= 64,
            tv == t.deep_view(),
            forall|j: int| 0 <= j < t@.len() ==> #[trigger] t@[j]@.len() <= 18,
            h == table_hits(tv.take(i as int), numbers@, spin),
            h <= 18 * i,
        decreases t.len() - i,
    {
        proof {
            assert(tv.take(i + 1).drop_last() =~= tv.take(i as int));
            assert(tv[i as int] == t@[i as int]@);
        }
        let text = join_numbers(&t[i], ", ");
        proof {
            assert(t@[i as int]@.map_values(|x: u32| x as int) =~= tv[i as int].map_values(|x: u32| x as int));
        }
        if text == *numbers {
            let c = count_exec(&t[i], spin);
            proof {
                lemma_count_in_le(t@[i as int]@, spin);
            }
            h = h + c;
        }
        i = i + 1;
    }
    proof {
        assert(tv.take(t@.len() as int) =~= tv);
    }
    h
}

fn hits_exec(k: BetKind, numbers: &String, spin: u32) -> (h: u32)
    ensures
        h == hits(k, numbers@, spin),
{
    if k == BetKind::InsideWhole {
        let s = decimal_string(spin as u128);
        if s == *numbers {
            1
        } else {
            0
        }
    } else {
        let t = table_exec(k);
        table_hits_exec(&t, numbers, spin)
    }
}


/// The running totals of a spin's bets, in whole tokens: the stakes (in the
/// token's smallest unit, a million per token), the winnings and the wagers
/// returned; or why the bets are refused.
pub enum Tally {
    Running { staked: int, won: int, returned: int },
    InvalidBet,
    Overflow,
}

/// The bets taken in order: each adds its stake; a bet of an unknown kind
/// refuses the spin; a winning bet adds its payout and returns its wager.
/// A total that passes the largest amount aborts the spin.
pub open spec fn tally(bets: Seq<BetMsg>, spin: u32) -> Tally
    decreases bets.len(),
{
    if bets.len() == 0 {
        Tally::Running { staked: 0, won: 0, returned: 0 }
    } else {
        match tally(bets.drop_last(), spin) {
            Tally::Running { staked, won, returned } => {
                let b = bets.last();
                let staked2 = staked + b.wager * 1000000;
                if staked2 > u128::MAX {
                    Tally::Overflow
                } else {
                    match bet_kind(b.bet_type@) {
                        None => Tally::InvalidBet,
                        Some(k) => {
                            let h = hits(k, b.numbers@, spin);
                            let won2 = won + payout_factor(k) * b.wager * h;
                            let returned2 = returned + b.wager * h;
                            if won2 > u128::MAX || returned2 > u128::MAX {
                                Tally::Overflow
                            } else {
                                Tally::Running { staked: staked2, won: won2, returned: returned2 }
                            }
                        },
                    }
                }
            },
            other => other,
        }
    }
}

/// What a spin settles: the new jackpot, the winning number, the amount
/// sent back (in the token's smallest unit) and the response.
pub struct SpinOutcome {
    pub jackpot: u128,
    pub spin: u32,
    pub sendback: u128,
    pub response: ResponseView,
}

/// A roulette spin paid with `amount`: the amount may not exceed the maximum
/// bet; the winning number is the block's random number modulo 36; the
/// stakes must add up to the amount exactly; a fiftieth of the amount goes
/// to the raffle's jackpot; the winnings and returned wagers are sent back.
pub open spec fn roulette_spec(
    state: State,
    from: Seq<char>,
    amount: u128,
    bets: Seq<BetMsg>,
    random: Option<u32>,
) -> Result<SpinOutcome, ContractError> {
    if amount > state.max_bet {
        Err(ContractError::AboveMaxBet)
    } else {
        match random {
            None => Err(ContractError::MissingRandom),
            Some(w) => {
                let spin = (w % 36) as u32;
                match tally(bets, spin) {
                    Tally::InvalidBet => Err(ContractError::InvalidBet),
                    Tally::Overflow => Err(ContractError::Overflow),
                    Tally::Running { staked, won, returned } => {
                        let sendback = (won + returned) * 1000000;
                        let jackpot = state.jackpot + amount / 50;
                        if staked != amount {
                            Err(ContractError::InvalidAmount)
                        } else if sendback > u128::MAX || jackpot > u128::MAX {
                            Err(ContractError::Overflow)
                        } else {
                            Ok(
                                SpinOutcome {
                                    jackpot: jackpot as u128,
                                    spin,
                                    sendback: sendback as u128,
                                    response: reply(
                                        payout(state, from, sendback as u128),
                                        seq![
                                            ("random_number"@, decimal(spin as nat)),
                                            ("winValue"@, decimal(won as nat)),
                                            ("betTotal"@, decimal(returned as nat)),
                                        ],
                                    ),
                                },
                            )
                        }
                    },
                }
            },
        }
    }
}

pub open spec fn spin_view(r: Result<(State, LastSpin, Response), ContractError>) -> Result<
    SpinOutcome,
    ContractError,
> {
    match r {
        Ok((s, last, resp)) => Ok(
            SpinOutcome {
                jackpot: s.jackpot,
                spin: last.winning_number,
                sendback: last.winnings,
                response: resp@,
            },
        ),
        Err(e) => Err(e),
    }
}

/// Tallying one more bet takes one more step of the fold.
proof fn lemma_tally_take(bets: Seq<BetMsg>, i: int, spin: u32)
    requires
        0 <= i < bets.len(),
    ensures
        tally(bets.take(i + 1), spin) == (match tally(bets.take(i), spin) {
            Tally::Running { staked, won, returned } => {
                let b = bets[i];
                let staked2 = staked + b.wager * 1000000;
                if staked2 > u128::MAX {
                    Tally::Overflow
                } else {
                    match bet_kind(b.bet_type@) {
                        None => Tally::InvalidBet,
                        Some(k) => {
                            let h = hits(k, b.numbers@, spin);
                            let won2 = won + payout_factor(k) * b.wager * h;
                            let returned2 = returned + b.wager * h;
                            if won2 > u128::MAX || returned2 > u128::MAX {
                                Tally::Overflow
                            } else {
                                Tally::Running { staked: staked2, won: won2, returned: returned2 }
                            }
                        },
                    }
                }
            },
            other => other,
        }),
{
    assert(bets.take(i + 1).drop_last() =~= bets.take(i));
}

/// Once the tally stops running, the later bets do not change it.
proof fn lemma_tally_stuck(bets: Seq<BetMsg>, i: int, spin: u32)
    requires
        0 <= i <= bets.len(),
        !(tally(bets.take(i), spin) is Running),
    ensures
        tally(bets, spin) == tally(bets.take(i), spin),
    decreases bets.len() - i,
{
    if i < bets.len() {
        lemma_tally_take(bets, i, spin);
        lemma_tally_stuck(bets, i + 1, spin);
    } else {
        assert(bets.take(i) =~= bets);
    }
}

/// A roulette spin (see `roulette_spec`): returns the state with the new
/// jackpot, the player's last spin (winning number, bets, amount sent back)
/// and the response.
#[verifier::rlimit(40)]
pub fn roulette_receive(
    state: State,
    from: String,
    amount: u128,
    bets: Vec<BetMsg>,
    random: &Option<Vec<u8>>,
) -> (r: Result<(State, LastSpin, Response), ContractError>)
    ensures
        spin_view(r) == roulette_spec(state, from@, amount, bets@, random_of(*random)),
        r matches Ok((s, last, _)) ==> s == with_jackpot(state, s.jackpot) && last.bets@ == bets@,
{
    if amount > state.max_bet {
        return Err(ContractError::AboveMaxBet);
    }
    let w = match random_word(random) {
        Some(w) => w,
        None => return Err(ContractError::MissingRandom),
    };
    let spin = w % 36;
    let mut totalamount: u128 = 0;
    let mut winnings: u128 = 0;
    let mut bettotal: u128 = 0;
    let mut index: usize = 0;
    while index < bets.len()
        invariant
            index <= bets@.len(),
            amount <= state.max_bet,
            random_of(*random) == Some(w),
            spin == w % 36,
            tally(bets@.take(index as int), spin) == (Tally::Running {
                staked: totalamount as int,
                won: winnings as int,
                returned: bettotal as int,
            }),
        decreases bets.len() - index,
    {
        proof {
            lemma_tally_take(bets@, index as int, spin);
        }
        let bet = &bets[index];
        let stake = match bet.wager.checked_mul(1000000) {
            Some(x) => x,
            None => {
                proof {
                    lemma_tally_stuck(bets@, index + 1, spin);
                }
                return Err(ContractError::Overflow);
            },
        };
        totalamount = match totalamount.checked_add(stake) {
            Some(x) => x,
            None => {
                proof {
                    lemma_tally_stuck(bets@, index + 1, spin);
                }
                return Err(ContractError::Overflow);
            },
        };
        let kind = match bet_kind_exec(&bet.bet_type) {
            Some(k) => k,
            None => {
                proof {
                    lemma_tally_stuck(bets@, index + 1, spin);
                }
                return Err(ContractError::InvalidBet);
            },
        };
        let h = hits_exec(kind, &bet.numbers, spin);
        let f = factor_exec(kind);
        proof {
            assert(f <= 35);
            assert(f * h <= 35 * 0xffff_ffffu128) by (nonlinear_arith)
                requires
                    f <= 35,
                    h <= 0xffff_ffffu32,
            ;
            assert(bet.wager * (f * h) == f * bet.wager * h) by (nonlinear_arith);
            assert(bet.wager * (f * h) >= 0) by (nonlinear_arith);
            assert(bet.wager * h >= 0) by (nonlinear_arith);
        }
        let gained = match bet.wager.checked_mul(f * (h as u128)) {
            Some(x) => x,
            None => {
                proof {
                    lemma_tally_stuck(bets@, index + 1, spin);
                }
                return Err(ContractError::Overflow);
            },
        };
        let returned = match bet.wager.checked_mul(h as u128) {
            Some(x) => x,
            None => {
                proof {
                    lemma_tally_stuck(bets@, index + 1, spin);
                }
                return Err(ContractError::Overflow);
            },
        };
        winnings = match winnings.checked_add(gained) {
            Some(x) => x,
            None => {
                proof {
                    lemma_tally_stuck(bets@, index + 1, spin);
                }
                return Err(ContractError::Overflow);
            },
        };
        bettotal = match bettotal.checked_add(returned) {
            Some(x) => x,
            None => {
                proof {
                    lemma_tally_stuck(bets@, index + 1, spin);
                }
                return Err(ContractError::Overflow);
            },
        };
        index = index + 1;
    }
    proof {
        assert(bets@.take(bets@.len() as int) =~= bets@);
    }
    if totalamount != amount {
        return Err(ContractError::InvalidAmount);
    }
    let sendback = match winnings.checked_add(bettotal) {
        Some(x) => match x.checked_mul(1000000) {
            Some(y) => y,
            None => return Err(ContractError::Overflow),
        },
        None => return Err(ContractError::Overflow),
    };
    let mut house = state;
    house.jackpot = match house.jackpot.checked_add(amount / 50) {
        Some(j) => j,
        None => return Err(ContractError::Overflow),
    };
    let mut response = Response::new();
    if sendback > 0 {
        response.add_message(transfer_message(&house, from, sendback));
    }
    response.add_attribute("random_number", decimal_string(spin as u128));
    response.add_attribute("winValue", decimal_string(winnings));
    response.add_attribute("betTotal", decimal_string(bettotal));
    proof {
        assert(response@.messages =~= payout(state, from@, sendback));
        assert(response@.attributes =~= seq![
            ("random_number"@, decimal(spin as nat)),
            ("winValue"@, decimal(winnings as nat)),
            ("betTotal"@, decimal(bettotal as nat)),
        ]);
    }
    let last = LastSpin { winning_number: spin, bets, winnings: sendback };
    Ok((house, last, response))
}


/// What a bet brings back on spin `spin`: its wager and the payout of its
/// kind, once for each time it wins.
pub open spec fn bet_return(b: BetMsg, spin: u32) -> int {
    match bet_kind(b.bet_type@) {
        Some(k) => (payout_factor(k) + 1) * b.wager * hits(k, b.numbers@, spin),
        None => 0,
    }
}

/// What the bets bring back on spin `spin`, in whole tokens.
pub open spec fn total_return(bets: Seq<BetMsg>, spin: u32) -> int
    decreases bets.len(),
{
    if bets.len() == 0 {
        0
    } else {
        total_return(bets.drop_last(), spin) + bet_return(bets.last(), spin)
    }
}

/// The bets' stakes, in the token's smallest unit (a million per token).
pub open spec fn total_stake(bets: Seq<BetMsg>) -> int
    decreases bets.len(),
{
    if bets.len() == 0 {
        0
    } else {
        total_stake(bets.drop_last()) + bets.last().wager * 1000000
    }
}

/// A bet never hits a negative number of times.
proof fn lemma_table_hits_nonneg(t: Seq<Seq<u32>>, numbers: Seq<char>, spin: u32)
    ensures
        table_hits(t, numbers, spin) >= 0,
    decreases t.len(),
{
    if t.len() > 0 {
        lemma_table_hits_nonneg(t.drop_last(), numbers, spin);
        lemma_count_in_le(t.last(), spin);
    }
}

/// A running tally holds the stakes and the returns of the bets so far.
proof fn lemma_tally_sums(bets: Seq<BetMsg>, spin: u32)
    ensures
        tally(bets, spin) matches Tally::Running { staked, won, returned } ==> staked == total_stake(bets)
            && won + returned == total_return(bets, spin) && won >= 0 && returned >= 0,
    decreases bets.len(),
{
    if bets.len() > 0 {
        lemma_tally_sums(bets.drop_last(), spin);
        let b = bets.last();
        if let Some(k) = bet_kind(b.bet_type@) {
            let f = payout_factor(k);
            let h = hits(k, b.numbers@, spin);
            lemma_table_hits_nonneg(table(k), b.numbers@, spin);
            assert(h >= 0);
            assert((f + 1) * b.wager * h == f * b.wager * h + b.wager * h) by (nonlinear_arith);
            assert(f * b.wager * h >= 0 && b.wager * h >= 0) by (nonlinear_arith)
                requires
                    f >= 1,
                    h >= 0,
                    b.wager >= 0,
            ;
        }
    }
}

/// A spin that goes through: the winning number is below 36; the stakes add
/// up to the amount paid; what is sent back is what the bets bring back (each
/// winning bet its wager and its payout), in the token's smallest unit, and
/// a message goes out exactly when that is not zero; and a fiftieth of the
/// amount joins the jackpot.
pub proof fn lemma_spin_settles_bets(
    state: State,
    from: Seq<char>,
    amount: u128,
    bets: Seq<BetMsg>,
    random: Option<u32>,
)
    ensures
        roulette_spec(state, from, amount, bets, random) matches Ok(o) ==> {
            &&& o.spin < 36
            &&& total_stake(bets) == amount
            &&& o.sendback == total_return(bets, o.spin) * 1000000
            &&& (o.response.messages.len() == 0 <==> o.sendback == 0)
            &&& o.jackpot == state.jackpot + amount / 50
        },
{
    if let Some(w) = random {
        lemma_tally_sums(bets, (w % 36) as u32);
    }
}

/// Two number lists are written alike only when they are the same list.
pub proof fn lemma_entry_text_injective(a: Seq<u32>, b: Seq<u32>)
    requires
        entry_text(a) == entry_text(b),
    ensures
        a == b,
{
    let ia = a.map_values(|x: u32| x as int);
    let ib = b.map_values(|x: u32| x as int);
    lemma_list_text_round_trip(ia);
    lemma_list_text_round_trip(ib);
    assert(ia.len() == a.len() && ib.len() == b.len());
    if a.len() > 0 {
        assert(ia =~= ib);
        assert forall|i: int| 0 <= i < a.len() implies a[i] == b[i] by {
            assert(ia[i] == ib[i]);
        }
    }
    assert(a =~= b);
}

/// A bet written as a list that the table does not hold never wins.
proof fn lemma_table_hits_absent(t: Seq<Seq<u32>>, e: Seq<u32>, spin: u32)
    requires
        forall|j: int| 0 <= j < t.len() ==> t[j] != e,
    ensures
        table_hits(t, entry_text(e), spin) == 0,
    decreases t.len(),
{
    if t.len() > 0 {
        if entry_text(t.last()) == entry_text(e) {
            lemma_entry_text_injective(t.last(), e);
        }
        lemma_table_hits_absent(t.drop_last(), e, spin);
    }
}

/// A bet written as a list that the table holds exactly once wins once for
/// each time the spin occurs in the list.
proof fn lemma_table_hits_once(t: Seq<Seq<u32>>, i: int, e: Seq<u32>, spin: u32)
    requires
        0 <= i < t.len(),
        t[i] == e,
        forall|j: int| 0 <= j < t.len() && j != i ==> t[j] != e,
    ensures
        table_hits(t, entry_text(e), spin) == count_in(e, spin),
    decreases t.len(),
{
    let front = t.drop_last();
    if i == t.len() - 1 {
        lemma_table_hits_absent(front, e, spin);
    } else {
        lemma_table_hits_once(front, i, e, spin);
        if entry_text(t.last()) == entry_text(e) {
            lemma_entry_text_injective(t.last(), e);
        }
    }
}

/// Whether the numbers of a list strictly increase.
pub open spec fn increasing(e: Seq<u32>) -> bool {
    forall|i: int, j: int| 0 <= i < j < e.len() ==> e[i] < e[j]
}

/// In a strictly increasing list a number occurs once if at all.
proof fn lemma_count_in_increasing(e: Seq<u32>, x: u32)
    requires
        increasing(e),
    ensures
        count_in(e, x) == if e.contains(x) {
            1int
        } else {
            0int
        },
    decreases e.len(),
{
    if e.len() > 0 {
        let f = e.drop_last();
        assert(increasing(f));
        lemma_count_in_increasing(f, x);
        if e.last() == x {
            assert(!f.contains(x)) by {
                if f.contains(x) {
                    let k = choose|k: int| 0 <= k < f.len() && f[k] == x;
                    assert(e[k] < e[e.len() - 1]);
                }
            }
            assert(e[e.len() - 1] == x);
        } else {
            if e.contains(x) {
                let k = choose|k: int| 0 <= k < e.len() && e[k] == x;
                assert(f[k] == x);
            }
            if f.contains(x) {
                let k = choose|k: int| 0 <= k < f.len() && f[k] == x;
                assert(e[k] == x);
            }
        }
    }
}

/// The kind that each bet type names.
proof fn lemma_bet_names()
    ensures
        bet_kind("double_street"@) == Some(BetKind::DoubleStreet),
        bet_kind("street"@) == Some(BetKind::Street),
        bet_kind("split"@) == Some(BetKind::Split),
        bet_kind("corner_bet"@) == Some(BetKind::Corner),
        bet_kind("outside_high_low"@) == Some(BetKind::HighLow),
        bet_kind("inside_whole"@) == Some(BetKind::InsideWhole),
        bet_kind("outside_column"@) == Some(BetKind::Column),
        bet_kind("outside_dozen"@) == Some(BetKind::Dozen),
        bet_kind("outside_oerb"@) == Some(BetKind::OddEvenRedBlack),
{
    reveal_strlit("double_street");
    reveal_strlit("street");
    reveal_strlit("split");
    reveal_strlit("corner_bet");
    reveal_strlit("outside_high_low");
    reveal_strlit("inside_whole");
    reveal_strlit("outside_column");
    reveal_strlit("outside_dozen");
    reveal_strlit("outside_oerb");
    assert("double_street"@.len() == 13 && "street"@.len() == 6 && "split"@.len() == 5);
    assert("corner_bet"@.len() == 10 && "outside_high_low"@.len() == 16 && "inside_whole"@.len() == 12);
    assert("outside_column"@.len() == 14 && "outside_dozen"@.len() == 13 && "outside_oerb"@.len() == 12);
    assert("outside_dozen"@[0] != "double_street"@[0]);
    assert("outside_oerb"@[0] != "inside_whole"@[0]);
}

/// A bet of kind `k` written as a list that its table holds exactly once,
/// with strictly increasing numbers, brings back its wager and the kind's
/// payout when the spin is in the list, and nothing otherwise.
proof fn lemma_listed_bet_pays(k: BetKind, b: BetMsg, i: int, e: Seq<u32>, spin: u32)
    requires
        k != BetKind::InsideWhole,
        bet_kind(b.bet_type@) == Some(k),
        b.numbers@ == entry_text(e),
        0 <= i < table(k).len(),
        table(k)[i] == e,
        forall|j: int| 0 <= j < table(k).len() && j != i ==> table(k)[j] != e,
        increasing(e),
    ensures
        bet_return(b, spin) == if e.contains(spin) {
            (payout_factor(k) + 1) * b.wager
        } else {
            0
        },
{
    lemma_table_hits_once(table(k), i, e, spin);
    lemma_count_in_increasing(e, spin);
    let w = b.wager as int;
    let f = payout_factor(k) + 1;
    assert(f * w * 1 == f * w && f * w * 0 == 0) by (nonlinear_arith);
}

/// The row of three from `m`: m, m + 1, m + 2.
pub open spec fn street_of(m: int) -> Seq<u32> {
    seq![(m) as u32, (m + 1) as u32, (m + 2) as u32]
}

/// Whether `m` begins a row of the table: 1, 4, ..., 34.
pub open spec fn is_street_start(m: int) -> bool {
    1 <= m <= 34 && m % 3 == 1
}

proof fn lemma_streets_layout()
    ensures
        streets().len() == 12,
        forall|j: int| 0 <= j < 12 ==> #[trigger] streets()[j] == street_of(3 * j + 1),
{
    assert forall|j: int| 0 <= j < 12 implies #[trigger] streets()[j] == street_of(3 * j + 1) by {
        if j == 0 {
            assert(streets()[0] =~= street_of(1));
        } else if j == 1 {
            assert(streets()[1] =~= street_of(4));
        } else if j == 2 {
            assert(streets()[2] =~= street_of(7));
        } else if j == 3 {
            assert(streets()[3] =~= street_of(10));
        } else if j == 4 {
            assert(streets()[4] =~= street_of(13));
        } else if j == 5 {
            assert(streets()[5] =~= street_of(16));
        } else if j == 6 {
            assert(streets()[6] =~= street_of(19));
        } else if j == 7 {
            assert(streets()[7] =~= street_of(22));
        } else if j == 8 {
            assert(streets()[8] =~= street_of(25));
        } else if j == 9 {
            assert(streets()[9] =~= street_of(28));
        } else if j == 10 {
            assert(streets()[10] =~= street_of(31));
        } else if j == 11 {
            assert(streets()[11] =~= street_of(34));
        }
    }
}

/// Every row of three is a street bet, and no other list is: the table lists the 12 rows
/// m, m + 1, m + 2 (m = 1, 4, ..., 34), each once. A street bet on a row brings back twelve
/// times its wager (eleven to one, and the wager) when the spin is in the row, and nothing
/// otherwise.
pub proof fn lemma_every_street_pays(m: int, b: BetMsg, spin: u32)
    requires
        is_street_start(m),
        b.bet_type@ == "street"@,
        b.numbers@ == entry_text(street_of(m)),
    ensures
        streets().len() == 12,
        streets().contains(street_of(m)),
        forall|j: int|
            0 <= j < streets().len() ==> exists|m2: int| is_street_start(m2) && #[trigger] streets()[j] == street_of(m2),
        bet_return(b, spin) == if spin == m || spin == m + 1 || spin == m + 2 {
            12 * b.wager
        } else {
            0
        },
{
    lemma_bet_names();
    lemma_streets_layout();
    let e = street_of(m);
    let i = (m - 1) / 3;
    assert(0 <= i < 12 && 3 * i + 1 == m);
    assert(streets()[i] == e);
    assert forall|j: int| 0 <= j < streets().len() && j != i implies streets()[j] != e by {
        assert(streets()[j] == street_of(3 * j + 1));
        assert(street_of(3 * j + 1)[0] != e[0]);
    }
    assert forall|j: int|
        0 <= j < streets().len() implies exists|m2: int| is_street_start(m2) && #[trigger] streets()[j] == street_of(m2) by {
        assert(is_street_start(3 * j + 1));
    }
    assert(increasing(e)) by {
        assert forall|p: int, q: int| 0 <= p < q < e.len() implies e[p] < e[q] by {
            assert(e[0] == m && e[1] == m + 1 && e[2] == m + 2);
        }
    }
    lemma_listed_bet_pays(BetKind::Street, b, i, e, spin);
    if spin == m || spin == m + 1 || spin == m + 2 {
        if spin == m {
            assert(e[0] == spin);
        } else if spin == m + 1 {
            assert(e[1] == spin);
        } else if spin == m + 2 {
            assert(e[2] == spin);
        }
    } else if e.contains(spin) {
        let k = choose|k: int| 0 <= k < e.len() && e[k] == spin;
        if k == 0 {
            assert(e[0] == m + 0);
        } else if k == 1 {
            assert(e[1] == m + 1);
        } else if k == 2 {
            assert(e[2] == m + 2);
        }
    }
}

/// The two rows from `m`: m to m + 5.
pub open spec fn double_street_of(m: int) -> Seq<u32> {
    seq![(m) as u32, (m + 1) as u32, (m + 2) as u32, (m + 3) as u32, (m + 4) as u32, (m + 5) as u32]
}

/// Whether `m` begins two adjacent rows of the table: 1, 4, ..., 31.
pub open spec fn is_double_street_start(m: int) -> bool {
    1 <= m <= 31 && m % 3 == 1
}

proof fn lemma_double_streets_layout()
    ensures
        double_streets().len() == 11,
        forall|j: int| 0 <= j < 11 ==> #[trigger] double_streets()[j] == double_street_of(3 * j + 1),
{
    assert forall|j: int| 0 <= j < 11 implies #[trigger] double_streets()[j] == double_street_of(3 * j + 1) by {
        if j == 0 {
            assert(double_streets()[0] =~= double_street_of(1));
        } else if j == 1 {
            assert(double_streets()[1] =~= double_street_of(4));
        } else if j == 2 {
            assert(double_streets()[2] =~= double_street_of(7));
        } else if j == 3 {
            assert(double_streets()[3] =~= double_street_of(10));
        } else if j == 4 {
            assert(double_streets()[4] =~= double_street_of(13));
        } else if j == 5 {
            assert(double_streets()[5] =~= double_street_of(16));
        } else if j == 6 {
            assert(double_streets()[6] =~= double_street_of(19));
        } else if j == 7 {
            assert(double_streets()[7] =~= double_street_of(22));
        } else if j == 8 {
            assert(double_streets()[8] =~= double_street_of(25));
        } else if j == 9 {
            assert(double_streets()[9] =~= double_street_of(28));
        } else if j == 10 {
            assert(double_streets()[10] =~= double_street_of(31));
        }
    }
}

/// Every pair of adjacent rows is a double street bet, and no other list is: the table lists
/// the 11 blocks m to m + 5 (m = 1, 4, ..., 31), each once. A double street bet brings back
/// six times its wager (five to one, and the wager) when the spin is in the block, and nothing
/// otherwise.
pub proof fn lemma_every_double_street_pays(m: int, b: BetMsg, spin: u32)
    requires
        is_double_street_start(m),
        b.bet_type@ == "double_street"@,
        b.numbers@ == entry_text(double_street_of(m)),
    ensures
        double_streets().len() == 11,
        double_streets().contains(double_street_of(m)),
        forall|j: int|
            0 <= j < double_streets().len() ==> exists|m2: int| is_double_street_start(m2) && #[trigger] double_streets()[j] == double_street_of(m2),
        bet_return(b, spin) == if spin == m || spin == m + 1 || spin == m + 2 || spin == m + 3 || spin == m + 4 || spin == m + 5 {
            6 * b.wager
        } else {
            0
        },
{
    lemma_bet_names();
    lemma_double_streets_layout();
    let e = double_street_of(m);
    let i = (m - 1) / 3;
    assert(0 <= i < 11 && 3 * i + 1 == m);
    assert(double_streets()[i] == e);
    assert forall|j: int| 0 <= j < double_streets().len() && j != i implies double_streets()[j] != e by {
        assert(double_streets()[j] == double_street_of(3 * j + 1));
        assert(double_street_of(3 * j + 1)[0] != e[0]);
    }
    assert forall|j: int|
        0 <= j < double_streets().len() implies exists|m2: int| is_double_street_start(m2) && #[trigger] double_streets()[j] == double_street_of(m2) by {
        assert(is_double_street_start(3 * j + 1));
    }
    assert(increasing(e)) by {
        assert forall|p: int, q: int| 0 <= p < q < e.len() implies e[p] < e[q] by {
            assert(e[0] == m && e[1] == m + 1 && e[2] == m + 2 && e[3] == m + 3 && e[4] == m + 4 && e[5] == m + 5);
        }
    }
    lemma_listed_bet_pays(BetKind::DoubleStreet, b, i, e, spin);
    if spin == m || spin == m + 1 || spin == m + 2 || spin == m + 3 || spin == m + 4 || spin == m + 5 {
        if spin == m {
            assert(e[0] == spin);
        } else if spin == m + 1 {
            assert(e[1] == spin);
        } else if spin == m + 2 {
            assert(e[2] == spin);
        } else if spin == m + 3 {
            assert(e[3] == spin);
        } else if spin == m + 4 {
            assert(e[4] == spin);
        } else if spin == m + 5 {
            assert(e[5] == spin);
        }
    } else if e.contains(spin) {
        let k = choose|k: int| 0 <= k < e.len() && e[k] == spin;
        if k == 0 {
            assert(e[0] == m + 0);
        } else if k == 1 {
            assert(e[1] == m + 1);
        } else if k == 2 {
            assert(e[2] == m + 2);
        } else if k == 3 {
            assert(e[3] == m + 3);
        } else if k == 4 {
            assert(e[4] == m + 4);
        } else if k == 5 {
            assert(e[5] == m + 5);
        }
    }
}

/// The dozen from `m`: m to m + 11.
pub open spec fn dozen_of(m: int) -> Seq<u32> {
    seq![(m) as u32, (m + 1) as u32, (m + 2) as u32, (m + 3) as u32, (m + 4) as u32, (m + 5) as u32, (m + 6) as u32, (m + 7) as u32, (m + 8) as u32, (m + 9) as u32, (m + 10) as u32, (m + 11) as u32]
}

/// Whether `m` begins a dozen: 1, 13 or 25.
pub open spec fn is_dozen_start(m: int) -> bool {
    m == 1 || m == 13 || m == 25
}

proof fn lemma_dozens_layout()
    ensures
        dozens().len() == 3,
        forall|j: int| 0 <= j < 3 ==> #[trigger] dozens()[j] == dozen_of(12 * j + 1),
{
    assert forall|j: int| 0 <= j < 3 implies #[trigger] dozens()[j] == dozen_of(12 * j + 1) by {
        if j == 0 {
            assert(dozens()[0] =~= dozen_of(1));
        } else if j == 1 {
            assert(dozens()[1] =~= dozen_of(13));
        } else if j == 2 {
            assert(dozens()[2] =~= dozen_of(25));
        }
    }
}

/// The dozens are 1 to 12, 13 to 24 and 25 to 36, each listed once and nothing else. A dozen
/// bet brings back three times its wager (two to one, and the wager) when the spin is in the
/// dozen, and nothing otherwise.
pub proof fn lemma_every_dozen_pays(m: int, b: BetMsg, spin: u32)
    requires
        is_dozen_start(m),
        b.bet_type@ == "outside_dozen"@,
        b.numbers@ == entry_text(dozen_of(m)),
    ensures
        dozens().len() == 3,
        dozens().contains(dozen_of(m)),
        forall|j: int|
            0 <= j < dozens().len() ==> exists|m2: int| is_dozen_start(m2) && #[trigger] dozens()[j] == dozen_of(m2),
        bet_return(b, spin) == if spin == m || spin == m + 1 || spin == m + 2 || spin == m + 3 || spin == m + 4 || spin == m + 5 || spin == m + 6 || spin == m + 7 || spin == m + 8 || spin == m + 9 || spin == m + 10 || spin == m + 11 {
            3 * b.wager
        } else {
            0
        },
{
    lemma_bet_names();
    lemma_dozens_layout();
    let e = dozen_of(m);
    let i = (m - 1) / 12;
    assert(0 <= i < 3 && 12 * i + 1 == m);
    assert(dozens()[i] == e);
    assert forall|j: int| 0 <= j < dozens().len() && j != i implies dozens()[j] != e by {
        assert(dozens()[j] == dozen_of(12 * j + 1));
        assert(dozen_of(12 * j + 1)[0] != e[0]);
    }
    assert forall|j: int|
        0 <= j < dozens().len() implies exists|m2: int| is_dozen_start(m2) && #[trigger] dozens()[j] == dozen_of(m2) by {
        assert(is_dozen_start(12 * j + 1));
    }
    assert(increasing(e)) by {
        assert forall|p: int, q: int| 0 <= p < q < e.len() implies e[p] < e[q] by {
            assert(e[0] == m && e[1] == m + 1 && e[2] == m + 2 && e[3] == m + 3 && e[4] == m + 4 && e[5] == m + 5 && e[6] == m + 6 && e[7] == m + 7 && e[8] == m + 8 && e[9] == m + 9 && e[10] == m + 10 && e[11] == m + 11);
        }
    }
    lemma_listed_bet_pays(BetKind::Dozen, b, i, e, spin);
    if spin == m || spin == m + 1 || spin == m + 2 || spin == m + 3 || spin == m + 4 || spin == m + 5 || spin == m + 6 || spin == m + 7 || spin == m + 8 || spin == m + 9 || spin == m + 10 || spin == m + 11 {
        if spin == m {
            assert(e[0] == spin);
        } else if spin == m + 1 {
            assert(e[1] == spin);
        } else if spin == m + 2 {
            assert(e[2] == spin);
        } else if spin == m + 3 {
            assert(e[3] == spin);
        } else if spin == m + 4 {
            assert(e[4] == spin);
        } else if spin == m + 5 {
            assert(e[5] == spin);
        } else if spin == m + 6 {
            assert(e[6] == spin);
        } else if spin == m + 7 {
            assert(e[7] == spin);
        } else if spin == m + 8 {
            assert(e[8] == spin);
        } else if spin == m + 9 {
            assert(e[9] == spin);
        } else if spin == m + 10 {
            assert(e[10] == spin);
        } else if spin == m + 11 {
            assert(e[11] == spin);
        }
    } else if e.contains(spin) {
        let k = choose|k: int| 0 <= k < e.len() && e[k] == spin;
        if k == 0 {
            assert(e[0] == m + 0);
        } else if k == 1 {
            assert(e[1] == m + 1);
        } else if k == 2 {
            assert(e[2] == m + 2);
        } else if k == 3 {
            assert(e[3] == m + 3);
        } else if k == 4 {
            assert(e[4] == m + 4);
        } else if k == 5 {
            assert(e[5] == m + 5);
        } else if k == 6 {
            assert(e[6] == m + 6);
        } else if k == 7 {
            assert(e[7] == m + 7);
        } else if k == 8 {
            assert(e[8] == m + 8);
        } else if k == 9 {
            assert(e[9] == m + 9);
        } else if k == 10 {
            assert(e[10] == m + 10);
        } else if k == 11 {
            assert(e[11] == m + 11);
        }
    }
}

/// The half of the table from `m`: m to m + 17.
pub open spec fn half_of(m: int) -> Seq<u32> {
    seq![(m) as u32, (m + 1) as u32, (m + 2) as u32, (m + 3) as u32, (m + 4) as u32, (m + 5) as u32, (m + 6) as u32, (m + 7) as u32, (m + 8) as u32, (m + 9) as u32, (m + 10) as u32, (m + 11) as u32, (m + 12) as u32, (m + 13) as u32, (m + 14) as u32, (m + 15) as u32, (m + 16) as u32, (m + 17) as u32]
}

/// Whether `m` begins a half of the table: 1 or 19.
pub open spec fn is_half_start(m: int) -> bool {
    m == 1 || m == 19
}

proof fn lemma_highs_lows_layout()
    ensures
        highs_lows().len() == 2,
        forall|j: int| 0 <= j < 2 ==> #[trigger] highs_lows()[j] == half_of(18 * j + 1),
{
    assert forall|j: int| 0 <= j < 2 implies #[trigger] highs_lows()[j] == half_of(18 * j + 1) by {
        if j == 0 {
            assert(highs_lows()[0] =~= half_of(1));
        } else if j == 1 {
            assert(highs_lows()[1] =~= half_of(19));
        }
    }
}

/// The halves are 1 to 18 and 19 to 36, each listed once and nothing else. A high or low bet
/// brings back twice its wager (even money, and the wager) when the spin is in its half, and
/// nothing otherwise.
pub proof fn lemma_every_half_pays(m: int, b: BetMsg, spin: u32)
    requires
        is_half_start(m),
        b.bet_type@ == "outside_high_low"@,
        b.numbers@ == entry_text(half_of(m)),
    ensures
        highs_lows().len() == 2,
        highs_lows().contains(half_of(m)),
        forall|j: int|
            0 <= j < highs_lows().len() ==> exists|m2: int| is_half_start(m2) && #[trigger] highs_lows()[j] == half_of(m2),
        bet_return(b, spin) == if spin == m || spin == m + 1 || spin == m + 2 || spin == m + 3 || spin == m + 4 || spin == m + 5 || spin == m + 6 || spin == m + 7 || spin == m + 8 || spin == m + 9 || spin == m + 10 || spin == m + 11 || spin == m + 12 || spin == m + 13 || spin == m + 14 || spin == m + 15 || spin == m + 16 || spin == m + 17 {
            2 * b.wager
        } else {
            0
        },
{
    lemma_bet_names();
    lemma_highs_lows_layout();
    let e = half_of(m);
    let i = (m - 1) / 18;
    assert(0 <= i < 2 && 18 * i + 1 == m);
    assert(highs_lows()[i] == e);
    assert forall|j: int| 0 <= j < highs_lows().len() && j != i implies highs_lows()[j] != e by {
        assert(highs_lows()[j] == half_of(18 * j + 1));
        assert(half_of(18 * j + 1)[0] != e[0]);
    }
    assert forall|j: int|
        0 <= j < highs_lows().len() implies exists|m2: int| is_half_start(m2) && #[trigger] highs_lows()[j] == half_of(m2) by {
        assert(is_half_start(18 * j + 1));
    }
    assert(increasing(e)) by {
        assert forall|p: int, q: int| 0 <= p < q < e.len() implies e[p] < e[q] by {
            assert(e[0] == m && e[1] == m + 1 && e[2] == m + 2 && e[3] == m + 3 && e[4] == m + 4 && e[5] == m + 5 && e[6] == m + 6 && e[7] == m + 7 && e[8] == m + 8 && e[9] == m + 9 && e[10] == m + 10 && e[11] == m + 11 && e[12] == m + 12 && e[13] == m + 13 && e[14] == m + 14 && e[15] == m + 15 && e[16] == m + 16 && e[17] == m + 17);
        }
    }
    lemma_listed_bet_pays(BetKind::HighLow, b, i, e, spin);
    if spin == m || spin == m + 1 || spin == m + 2 || spin == m + 3 || spin == m + 4 || spin == m + 5 || spin == m + 6 || spin == m + 7 || spin == m + 8 || spin == m + 9 || spin == m + 10 || spin == m + 11 || spin == m + 12 || spin == m + 13 || spin == m + 14 || spin == m + 15 || spin == m + 16 || spin == m + 17 {
        if spin == m {
            assert(e[0] == spin);
        } else if spin == m + 1 {
            assert(e[1] == spin);
        } else if spin == m + 2 {
            assert(e[2] == spin);
        } else if spin == m + 3 {
            assert(e[3] == spin);
        } else if spin == m + 4 {
            assert(e[4] == spin);
        } else if spin == m + 5 {
            assert(e[5] == spin);
        } else if spin == m + 6 {
            assert(e[6] == spin);
        } else if spin == m + 7 {
            assert(e[7] == spin);
        } else if spin == m + 8 {
            assert(e[8] == spin);
        } else if spin == m + 9 {
            assert(e[9] == spin);
        } else if spin == m + 10 {
            assert(e[10] == spin);
        } else if spin == m + 11 {
            assert(e[11] == spin);
        } else if spin == m + 12 {
            assert(e[12] == spin);
        } else if spin == m + 13 {
            assert(e[13] == spin);
        } else if spin == m + 14 {
            assert(e[14] == spin);
        } else if spin == m + 15 {
            assert(e[15] == spin);
        } else if spin == m + 16 {
            assert(e[16] == spin);
        } else if spin == m + 17 {
            assert(e[17] == spin);
        }
    } else if e.contains(spin) {
        let k = choose|k: int| 0 <= k < e.len() && e[k] == spin;
        if k == 0 {
            assert(e[0] == m + 0);
        } else if k == 1 {
            assert(e[1] == m + 1);
        } else if k == 2 {
            assert(e[2] == m + 2);
        } else if k == 3 {
            assert(e[3] == m + 3);
        } else if k == 4 {
            assert(e[4] == m + 4);
        } else if k == 5 {
            assert(e[5] == m + 5);
        } else if k == 6 {
            assert(e[6] == m + 6);
        } else if k == 7 {
            assert(e[7] == m + 7);
        } else if k == 8 {
            assert(e[8] == m + 8);
        } else if k == 9 {
            assert(e[9] == m + 9);
        } else if k == 10 {
            assert(e[10] == m + 10);
        } else if k == 11 {
            assert(e[11] == m + 11);
        } else if k == 12 {
            assert(e[12] == m + 12);
        } else if k == 13 {
            assert(e[13] == m + 13);
        } else if k == 14 {
            assert(e[14] == m + 14);
        } else if k == 15 {
            assert(e[15] == m + 15);
        } else if k == 16 {
            assert(e[16] == m + 16);
        } else if k == 17 {
            assert(e[17] == m + 17);
        }
    }
}

/// The column from `m`: m, m + 3, ..., m + 33.
pub open spec fn column_of(m: int) -> Seq<u32> {
    seq![(m) as u32, (m + 3) as u32, (m + 6) as u32, (m + 9) as u32, (m + 12) as u32, (m + 15) as u32, (m + 18) as u32, (m + 21) as u32, (m + 24) as u32, (m + 27) as u32, (m + 30) as u32, (m + 33) as u32]
}

/// Whether `m` heads a column: 1, 2 or 3.
pub open spec fn is_column_start(m: int) -> bool {
    1 <= m <= 3
}

proof fn lemma_columns_layout()
    ensures
        columns().len() == 3,
        forall|j: int| 0 <= j < 3 ==> #[trigger] columns()[j] == column_of(3 - j),
{
    assert forall|j: int| 0 <= j < 3 implies #[trigger] columns()[j] == column_of(3 - j) by {
        if j == 0 {
            assert(columns()[0] =~= column_of(3));
        } else if j == 1 {
            assert(columns()[1] =~= column_of(2));
        } else if j == 2 {
            assert(columns()[2] =~= column_of(1));
        }
    }
}

/// The columns are 3, 6, ..., 36, then 2, 5, ..., 35, then 1, 4, ..., 34, each listed once and
/// nothing else. A column bet brings back three times its wager (two to one, and the wager)
/// when the spin is in the column, and nothing otherwise.
pub proof fn lemma_every_column_pays(m: int, b: BetMsg, spin: u32)
    requires
        is_column_start(m),
        b.bet_type@ == "outside_column"@,
        b.numbers@ == entry_text(column_of(m)),
    ensures
        columns().len() == 3,
        columns().contains(column_of(m)),
        forall|j: int|
            0 <= j < columns().len() ==> exists|m2: int| is_column_start(m2) && #[trigger] columns()[j] == column_of(m2),
        bet_return(b, spin) == if spin == m || spin == m + 3 || spin == m + 6 || spin == m + 9 || spin == m + 12 || spin == m + 15 || spin == m + 18 || spin == m + 21 || spin == m + 24 || spin == m + 27 || spin == m + 30 || spin == m + 33 {
            3 * b.wager
        } else {
            0
        },
{
    lemma_bet_names();
    lemma_columns_layout();
    let e = column_of(m);
    let i = 3 - m;
    assert(0 <= i < 3 && 3 - i == m);
    assert(columns()[i] == e);
    assert forall|j: int| 0 <= j < columns().len() && j != i implies columns()[j] != e by {
        assert(columns()[j] == column_of(3 - j));
        assert(column_of(3 - j)[0] != e[0]);
    }
    assert forall|j: int|
        0 <= j < columns().len() implies exists|m2: int| is_column_start(m2) && #[trigger] columns()[j] == column_of(m2) by {
        assert(is_column_start(3 - j));
    }
    assert(increasing(e)) by {
        assert forall|p: int, q: int| 0 <= p < q < e.len() implies e[p] < e[q] by {
            assert(e[0] == m && e[1] == m + 3 && e[2] == m + 6 && e[3] == m + 9 && e[4] == m + 12 && e[5] == m + 15 && e[6] == m + 18 && e[7] == m + 21 && e[8] == m + 24 && e[9] == m + 27 && e[10] == m + 30 && e[11] == m + 33);
        }
    }
    lemma_listed_bet_pays(BetKind::Column, b, i, e, spin);
    if spin == m || spin == m + 3 || spin == m + 6 || spin == m + 9 || spin == m + 12 || spin == m + 15 || spin == m + 18 || spin == m + 21 || spin == m + 24 || spin == m + 27 || spin == m + 30 || spin == m + 33 {
        if spin == m {
            assert(e[0] == spin);
        } else if spin == m + 3 {
            assert(e[1] == spin);
        } else if spin == m + 6 {
            assert(e[2] == spin);
        } else if spin == m + 9 {
            assert(e[3] == spin);
        } else if spin == m + 12 {
            assert(e[4] == spin);
        } else if spin == m + 15 {
            assert(e[5] == spin);
        } else if spin == m + 18 {
            assert(e[6] == spin);
        } else if spin == m + 21 {
            assert(e[7] == spin);
        } else if spin == m + 24 {
            assert(e[8] == spin);
        } else if spin == m + 27 {
            assert(e[9] == spin);
        } else if spin == m + 30 {
            assert(e[10] == spin);
        } else if spin == m + 33 {
            assert(e[11] == spin);
        }
    } else if e.contains(spin) {
        let k = choose|k: int| 0 <= k < e.len() && e[k] == spin;
        if k == 0 {
            assert(e[0] == m + 0);
        } else if k == 1 {
            assert(e[1] == m + 3);
        } else if k == 2 {
            assert(e[2] == m + 6);
        } else if k == 3 {
            assert(e[3] == m + 9);
        } else if k == 4 {
            assert(e[4] == m + 12);
        } else if k == 5 {
            assert(e[5] == m + 15);
        } else if k == 6 {
            assert(e[6] == m + 18);
        } else if k == 7 {
            assert(e[7] == m + 21);
        } else if k == 8 {
            assert(e[8] == m + 24);
        } else if k == 9 {
            assert(e[9] == m + 27);
        } else if k == 10 {
            assert(e[10] == m + 30);
        } else if k == 11 {
            assert(e[11] == m + 33);
        }
    }
}

/// The neighbours `a` and `a + d`: side by side in a row (d = 1) or one
/// above the other in a column (d = 3).
pub open spec fn split_of(a: int, d: int) -> Seq<u32> {
    seq![a as u32, (a + d) as u32]
}

/// Whether `a` and `a + d` are neighbours on the table: side by side in a
/// row (d = 1, `a` outside the right-hand column) or in a column (d = 3).
pub open spec fn is_split(a: int, d: int) -> bool {
    (d == 1 && 1 <= a <= 35 && a % 3 != 0) || (d == 3 && 1 <= a <= 33)
}

/// The smaller number of the split listed at position `j`.
spec fn split_first_at(j: int) -> int {
    if j < 11 {
        3 + 3 * j
    } else if j < 23 {
        35 - 3 * (j - 11)
    } else if j < 34 {
        2 + 3 * (j - 23)
    } else if j < 41 {
        34 - 3 * (j - 34)
    } else if j < 45 {
        10 - 3 * (j - 41)
    } else if j < 56 {
        1 + 3 * (j - 45)
    } else {
        13
    }
}

/// The distance between the numbers of the split listed at position `j`.
spec fn split_gap_at(j: int) -> int {
    if j < 11 || (23 <= j < 34) || (45 <= j < 56) {
        3
    } else {
        1
    }
}

/// Where the split of `a` and `a + d` is listed.
spec fn split_index(a: int, d: int) -> int {
    if d == 3 {
        if a % 3 == 0 {
            (a - 3) / 3
        } else if a % 3 == 2 {
            23 + (a - 2) / 3
        } else {
            45 + (a - 1) / 3
        }
    } else if a % 3 == 2 {
        11 + (35 - a) / 3
    } else if a >= 16 {
        34 + (34 - a) / 3
    } else if a == 13 {
        56
    } else {
        41 + (10 - a) / 3
    }
}

proof fn lemma_splits_layout()
    ensures
        splits().len() == 57,
        forall|j: int|
            0 <= j < 57 ==> #[trigger] splits()[j] == split_of(split_first_at(j), split_gap_at(j))
                && split_index(split_first_at(j), split_gap_at(j)) == j
                && is_split(split_first_at(j), split_gap_at(j)),
{
    assert forall|j: int| 0 <= j < 57 implies #[trigger] splits()[j] == split_of(
        split_first_at(j),
        split_gap_at(j),
    ) && split_index(split_first_at(j), split_gap_at(j)) == j && is_split(
        split_first_at(j),
        split_gap_at(j),
    ) by {
        if j == 0 {
            assert(splits()[0] =~= split_of(3, 3));
        } else if j == 1 {
            assert(splits()[1] =~= split_of(6, 3));
        } else if j == 2 {
            assert(splits()[2] =~= split_of(9, 3));
        } else if j == 3 {
            assert(splits()[3] =~= split_of(12, 3));
        } else if j == 4 {
            assert(splits()[4] =~= split_of(15, 3));
        } else if j == 5 {
            assert(splits()[5] =~= split_of(18, 3));
        } else if j == 6 {
            assert(splits()[6] =~= split_of(21, 3));
        } else if j == 7 {
            assert(splits()[7] =~= split_of(24, 3));
        } else if j == 8 {
            assert(splits()[8] =~= split_of(27, 3));
        } else if j == 9 {
            assert(splits()[9] =~= split_of(30, 3));
        } else if j == 10 {
            assert(splits()[10] =~= split_of(33, 3));
        } else if j == 11 {
            assert(splits()[11] =~= split_of(35, 1));
        } else if j == 12 {
            assert(splits()[12] =~= split_of(32, 1));
        } else if j == 13 {
            assert(splits()[13] =~= split_of(29, 1));
        } else if j == 14 {
            assert(splits()[14] =~= split_of(26, 1));
        } else if j == 15 {
            assert(splits()[15] =~= split_of(23, 1));
        } else if j == 16 {
            assert(splits()[16] =~= split_of(20, 1));
        } else if j == 17 {
            assert(splits()[17] =~= split_of(17, 1));
        } else if j == 18 {
            assert(splits()[18] =~= split_of(14, 1));
        } else if j == 19 {
            assert(splits()[19] =~= split_of(11, 1));
        } else if j == 20 {
            assert(splits()[20] =~= split_of(8, 1));
        } else if j == 21 {
            assert(splits()[21] =~= split_of(5, 1));
        } else if j == 22 {
            assert(splits()[22] =~= split_of(2, 1));
        } else if j == 23 {
            assert(splits()[23] =~= split_of(2, 3));
        } else if j == 24 {
            assert(splits()[24] =~= split_of(5, 3));
        } else if j == 25 {
            assert(splits()[25] =~= split_of(8, 3));
        } else if j == 26 {
            assert(splits()[26] =~= split_of(11, 3));
        } else if j == 27 {
            assert(splits()[27] =~= split_of(14, 3));
        } else if j == 28 {
            assert(splits()[28] =~= split_of(17, 3));
        } else if j == 29 {
            assert(splits()[29] =~= split_of(20, 3));
        } else if j == 30 {
            assert(splits()[30] =~= split_of(23, 3));
        } else if j == 31 {
            assert(splits()[31] =~= split_of(26, 3));
        } else if j == 32 {
            assert(splits()[32] =~= split_of(29, 3));
        } else if j == 33 {
            assert(splits()[33] =~= split_of(32, 3));
        } else if j == 34 {
            assert(splits()[34] =~= split_of(34, 1));
        } else if j == 35 {
            assert(splits()[35] =~= split_of(31, 1));
        } else if j == 36 {
            assert(splits()[36] =~= split_of(28, 1));
        } else if j == 37 {
            assert(splits()[37] =~= split_of(25, 1));
        } else if j == 38 {
            assert(splits()[38] =~= split_of(22, 1));
        } else if j == 39 {
            assert(splits()[39] =~= split_of(19, 1));
        } else if j == 40 {
            assert(splits()[40] =~= split_of(16, 1));
        } else if j == 41 {
            assert(splits()[41] =~= split_of(10, 1));
        } else if j == 42 {
            assert(splits()[42] =~= split_of(7, 1));
        } else if j == 43 {
            assert(splits()[43] =~= split_of(4, 1));
        } else if j == 44 {
            assert(splits()[44] =~= split_of(1, 1));
        } else if j == 45 {
            assert(splits()[45] =~= split_of(1, 3));
        } else if j == 46 {
            assert(splits()[46] =~= split_of(4, 3));
        } else if j == 47 {
            assert(splits()[47] =~= split_of(7, 3));
        } else if j == 48 {
            assert(splits()[48] =~= split_of(10, 3));
        } else if j == 49 {
            assert(splits()[49] =~= split_of(13, 3));
        } else if j == 50 {
            assert(splits()[50] =~= split_of(16, 3));
        } else if j == 51 {
            assert(splits()[51] =~= split_of(19, 3));
        } else if j == 52 {
            assert(splits()[52] =~= split_of(22, 3));
        } else if j == 53 {
            assert(splits()[53] =~= split_of(25, 3));
        } else if j == 54 {
            assert(splits()[54] =~= split_of(28, 3));
        } else if j == 55 {
            assert(splits()[55] =~= split_of(31, 3));
        } else if j == 56 {
            assert(splits()[56] =~= split_of(13, 1));
        }
    }
}

/// Where a split is listed: the position whose split it is.
proof fn lemma_split_index(a: int, d: int)
    requires
        is_split(a, d),
    ensures
        0 <= split_index(a, d) < 57,
        split_first_at(split_index(a, d)) == a,
        split_gap_at(split_index(a, d)) == d,
{
    let i = split_index(a, d);
    if d == 3 {
        if a % 3 == 0 {
            assert(0 <= i < 11 && 3 + 3 * i == a);
        } else if a % 3 == 2 {
            assert(23 <= i < 34 && 2 + 3 * (i - 23) == a);
        } else {
            assert(45 <= i < 56 && 1 + 3 * (i - 45) == a);
        }
    } else if a % 3 == 2 {
        assert(11 <= i < 23 && 35 - 3 * (i - 11) == a);
    } else if a >= 16 {
        assert(34 <= i < 41 && 34 - 3 * (i - 34) == a);
    } else if a == 13 {
    } else {
        assert(41 <= i < 45 && 10 - 3 * (i - 41) == a);
    }
}

/// Every pair of neighbours is a split bet, and no other list is: the table
/// lists the 57 splits, side by side in a row or one above the other in a
/// column, each once. A split bet brings back eighteen times its wager
/// (seventeen to one, and the wager) when the spin is one of its two
/// numbers, and nothing otherwise.
#[verifier::rlimit(50)]
pub proof fn lemma_every_split_pays(a: int, d: int, b: BetMsg, spin: u32)
    requires
        is_split(a, d),
        b.bet_type@ == "split"@,
        b.numbers@ == entry_text(split_of(a, d)),
    ensures
        splits().len() == 57,
        splits().contains(split_of(a, d)),
        forall|j: int|
            0 <= j < splits().len() ==> exists|a2: int, d2: int| is_split(a2, d2) && #[trigger] splits()[j]
                == split_of(a2, d2),
        bet_return(b, spin) == if spin == a || spin == a + d {
            18 * b.wager
        } else {
            0
        },
{
    lemma_bet_names();
    lemma_splits_layout();
    lemma_split_index(a, d);
    let e = split_of(a, d);
    let i = split_index(a, d);
    assert(splits()[i] == e);
    assert forall|j: int| 0 <= j < splits().len() && j != i implies splits()[j] != e by {
        let f = split_first_at(j);
        let g = split_gap_at(j);
        assert(splits()[j] == split_of(f, g));
        if split_of(f, g) == e {
            assert(split_of(f, g)[0] == e[0] && split_of(f, g)[1] == e[1]);
            assert(f == a && g == d);
        }
    }
    assert forall|j: int|
        0 <= j < splits().len() implies exists|a2: int, d2: int| is_split(a2, d2) && #[trigger] splits()[j]
            == split_of(a2, d2) by {
        assert(is_split(split_first_at(j), split_gap_at(j)));
    }
    assert(increasing(e)) by {
        assert forall|p: int, q: int| 0 <= p < q < e.len() implies e[p] < e[q] by {
            assert(e[0] == a && e[1] == a + d);
        }
    }
    lemma_listed_bet_pays(BetKind::Split, b, i, e, spin);
    if spin == a {
        assert(e[0] == spin);
    } else if spin == a + d {
        assert(e[1] == spin);
    } else if e.contains(spin) {
        let k = choose|k: int| 0 <= k < e.len() && e[k] == spin;
        assert(e[0] == a && e[1] == a + d);
    }
}

/// A straight-up bet on a single number `m`, written in decimal, brings
/// back thirty-six times its wager (thirty-five to one, and the wager) when
/// the spin is `m`, and nothing otherwise.
pub proof fn lemma_straight_up_pays(m: nat, b: BetMsg, spin: u32)
    requires
        b.bet_type@ == "inside_whole"@,
        b.numbers@ == decimal(m),
    ensures
        bet_return(b, spin) == if spin == m {
            36 * b.wager
        } else {
            0
        },
{
    lemma_bet_names();
    if decimal(spin as nat) == decimal(m) {
        lemma_parse_decimal(spin as nat);
        lemma_parse_decimal(m);
    }
    let w = b.wager as int;
    assert(36 * w * 1 == 36 * w && 36 * w * 0 == 0) by (nonlinear_arith);
}

/// A number below the first of an increasing list is not in it.
proof fn lemma_not_before_first(e: Seq<u32>, x: int)
    requires
        increasing(e),
        e.len() > 0,
        x < e[0],
    ensures
        !e.contains(x as u32) || x < 0,
{
    if 0 <= x && e.contains(x as u32) {
        let k = choose|k: int| 0 <= k < e.len() && e[k] == x as u32;
        if k > 0 {
            assert(e[0] < e[k]);
        }
    }
}

/// A number above the last of an increasing list is not in it.
proof fn lemma_not_after_last(e: Seq<u32>, x: int)
    requires
        increasing(e),
        e.len() > 0,
        e[e.len() - 1] < x <= u32::MAX,
    ensures
        !e.contains(x as u32),
{
    if e.contains(x as u32) {
        let k = choose|k: int| 0 <= k < e.len() && e[k] == x as u32;
        if k < e.len() - 1 {
            assert(e[k] < e[e.len() - 1]);
        }
    }
}

/// A number strictly between two neighbours of an increasing list is not in it.
proof fn lemma_not_in_gap(e: Seq<u32>, k: int, x: int)
    requires
        increasing(e),
        0 <= k < e.len() - 1,
        e[k] < x < e[k + 1],
    ensures
        !e.contains(x as u32),
{
    if e.contains(x as u32) {
        let k2 = choose|k2: int| 0 <= k2 < e.len() && e[k2] == x as u32;
        if k2 < k {
            assert(e[k2] < e[k]);
        } else if k2 > k + 1 {
            assert(e[k + 1] < e[k2]);
        }
    }
}

proof fn lemma_even_money_lists_increasing()
    ensures
        odds_evens_reds_blacks().len() == 4,
        forall|i: int| 0 <= i < 4 ==> #[trigger] increasing(odds_evens_reds_blacks()[i]),
        forall|i: int| 0 <= i < 4 ==> #[trigger] odds_evens_reds_blacks()[i].len() == 18,
{
    let t = odds_evens_reds_blacks();
    let l0 = t[0];
    let l1 = t[1];
    let l2 = t[2];
    let l3 = t[3];
    assert(increasing(l0)) by {
        assert forall|p: int, q: int| 0 <= p < q < l0.len() implies l0[p] < l0[q] by {
            assert(l0[0] == 1 && l0[1] == 3 && l0[2] == 5 && l0[3] == 7 && l0[4] == 9 && l0[5] == 12 && l0[6] == 14 && l0[7] == 16 && l0[8] == 18 && l0[9] == 19 && l0[10] == 21 && l0[11] == 23 && l0[12] == 25 && l0[13] == 27 && l0[14] == 30 && l0[15] == 32 && l0[16] == 34 && l0[17] == 36);
        }
    }
    assert(increasing(l1)) by {
        assert forall|p: int, q: int| 0 <= p < q < l1.len() implies l1[p] < l1[q] by {
            assert(l1[0] == 2 && l1[1] == 4 && l1[2] == 6 && l1[3] == 8 && l1[4] == 10 && l1[5] == 12 && l1[6] == 14 && l1[7] == 16 && l1[8] == 18 && l1[9] == 20 && l1[10] == 22 && l1[11] == 24 && l1[12] == 26 && l1[13] == 28 && l1[14] == 30 && l1[15] == 32 && l1[16] == 34 && l1[17] == 36);
        }
    }
    assert(increasing(l2)) by {
        assert forall|p: int, q: int| 0 <= p < q < l2.len() implies l2[p] < l2[q] by {
            assert(l2[0] == 2 && l2[1] == 4 && l2[2] == 6 && l2[3] == 8 && l2[4] == 10 && l2[5] == 11 && l2[6] == 13 && l2[7] == 15 && l2[8] == 17 && l2[9] == 20 && l2[10] == 22 && l2[11] == 24 && l2[12] == 26 && l2[13] == 28 && l2[14] == 29 && l2[15] == 31 && l2[16] == 33 && l2[17] == 35);
        }
    }
    assert(increasing(l3)) by {
        assert forall|p: int, q: int| 0 <= p < q < l3.len() implies l3[p] < l3[q] by {
            assert(l3[0] == 1 && l3[1] == 3 && l3[2] == 5 && l3[3] == 7 && l3[4] == 9 && l3[5] == 11 && l3[6] == 13 && l3[7] == 15 && l3[8] == 17 && l3[9] == 19 && l3[10] == 21 && l3[11] == 23 && l3[12] == 25 && l3[13] == 27 && l3[14] == 29 && l3[15] == 31 && l3[16] == 33 && l3[17] == 35);
        }
    }
    assert forall|i: int| 0 <= i < 4 implies #[trigger] increasing(t[i]) by {
        if i == 0 {
        } else if i == 1 {
        } else if i == 2 {
        } else {
        }
    }
}

/// The even-money lists, in the order red, even, black, odd: every number
/// from 1 to 36 is either red or black and not both, even numbers are the
/// even ones and odd numbers the odd ones, and 0 (or any number above 36)
/// is in none of them.
pub proof fn lemma_even_money_lists(x: u32)
    ensures
        odds_evens_reds_blacks().len() == 4,
        1 <= x <= 36 ==> odds_evens_reds_blacks()[0].contains(x) != odds_evens_reds_blacks()[2].contains(x),
        odds_evens_reds_blacks()[1].contains(x) <==> (1 <= x <= 36 && x % 2 == 0),
        odds_evens_reds_blacks()[3].contains(x) <==> (1 <= x <= 36 && x % 2 == 1),
        x == 0 || x > 36 ==> forall|i: int| 0 <= i < 4 ==> !#[trigger] odds_evens_reds_blacks()[i].contains(x),
{
    lemma_even_money_lists_increasing();
    let t = odds_evens_reds_blacks();
    let l0 = t[0];
    let l1 = t[1];
    let l2 = t[2];
    let l3 = t[3];
    assert(increasing(l0) && increasing(l1) && increasing(l2) && increasing(l3));
    assert(l0[0] == 1 && l1[0] == 2 && l2[0] == 2 && l3[0] == 1);
    assert(l0[17] == 36 && l1[17] == 36 && l2[17] == 35 && l3[17] == 35);
    if x == 1 {
        assert(l0[0] == 1);
        lemma_not_before_first(l1, 1);
        lemma_not_before_first(l2, 1);
        assert(l3[0] == 1);
    } else if x == 2 {
        lemma_not_in_gap(l0, 0, 2);
        assert(l1[0] == 2);
        assert(l2[0] == 2);
        lemma_not_in_gap(l3, 0, 2);
    } else if x == 3 {
        assert(l0[1] == 3);
        lemma_not_in_gap(l1, 0, 3);
        lemma_not_in_gap(l2, 0, 3);
        assert(l3[1] == 3);
    } else if x == 4 {
        lemma_not_in_gap(l0, 1, 4);
        assert(l1[1] == 4);
        assert(l2[1] == 4);
        lemma_not_in_gap(l3, 1, 4);
    } else if x == 5 {
        assert(l0[2] == 5);
        lemma_not_in_gap(l1, 1, 5);
        lemma_not_in_gap(l2, 1, 5);
        assert(l3[2] == 5);
    } else if x == 6 {
        lemma_not_in_gap(l0, 2, 6);
        assert(l1[2] == 6);
        assert(l2[2] == 6);
        lemma_not_in_gap(l3, 2, 6);
    } else if x == 7 {
        assert(l0[3] == 7);
        lemma_not_in_gap(l1, 2, 7);
        lemma_not_in_gap(l2, 2, 7);
        assert(l3[3] == 7);
    } else if x == 8 {
        lemma_not_in_gap(l0, 3, 8);
        assert(l1[3] == 8);
        assert(l2[3] == 8);
        lemma_not_in_gap(l3, 3, 8);
    } else if x == 9 {
        assert(l0[4] == 9);
        lemma_not_in_gap(l1, 3, 9);
        lemma_not_in_gap(l2, 3, 9);
        assert(l3[4] == 9);
    } else if x == 10 {
        lemma_not_in_gap(l0, 4, 10);
        assert(l1[4] == 10);
        assert(l2[4] == 10);
        lemma_not_in_gap(l3, 4, 10);
    } else if x == 11 {
        lemma_not_in_gap(l0, 4, 11);
        lemma_not_in_gap(l1, 4, 11);
        assert(l2[5] == 11);
        assert(l3[5] == 11);
    } else if x == 12 {
        assert(l0[5] == 12);
        assert(l1[5] == 12);
        lemma_not_in_gap(l2, 5, 12);
        lemma_not_in_gap(l3, 5, 12);
    } else if x == 13 {
        lemma_not_in_gap(l0, 5, 13);
        lemma_not_in_gap(l1, 5, 13);
        assert(l2[6] == 13);
        assert(l3[6] == 13);
    } else if x == 14 {
        assert(l0[6] == 14);
        assert(l1[6] == 14);
        lemma_not_in_gap(l2, 6, 14);
        lemma_not_in_gap(l3, 6, 14);
    } else if x == 15 {
        lemma_not_in_gap(l0, 6, 15);
        lemma_not_in_gap(l1, 6, 15);
        assert(l2[7] == 15);
        assert(l3[7] == 15);
    } else if x == 16 {
        assert(l0[7] == 16);
        assert(l1[7] == 16);
        lemma_not_in_gap(l2, 7, 16);
        lemma_not_in_gap(l3, 7, 16);
    } else if x == 17 {
        lemma_not_in_gap(l0, 7, 17);
        lemma_not_in_gap(l1, 7, 17);
        assert(l2[8] == 17);
        assert(l3[8] == 17);
    } else if x == 18 {
        assert(l0[8] == 18);
        assert(l1[8] == 18);
        lemma_not_in_gap(l2, 8, 18);
        lemma_not_in_gap(l3, 8, 18);
    } else if x == 19 {
        assert(l0[9] == 19);
        lemma_not_in_gap(l1, 8, 19);
        lemma_not_in_gap(l2, 8, 19);
        assert(l3[9] == 19);
    } else if x == 20 {
        lemma_not_in_gap(l0, 9, 20);
        assert(l1[9] == 20);
        assert(l2[9] == 20);
        lemma_not_in_gap(l3, 9, 20);
    } else if x == 21 {
        assert(l0[10] == 21);
        lemma_not_in_gap(l1, 9, 21);
        lemma_not_in_gap(l2, 9, 21);
        assert(l3[10] == 21);
    } else if x == 22 {
        lemma_not_in_gap(l0, 10, 22);
        assert(l1[10] == 22);
        assert(l2[10] == 22);
        lemma_not_in_gap(l3, 10, 22);
    } else if x == 23 {
        assert(l0[11] == 23);
        lemma_not_in_gap(l1, 10, 23);
        lemma_not_in_gap(l2, 10, 23);
        assert(l3[11] == 23);
    } else if x == 24 {
        lemma_not_in_gap(l0, 11, 24);
        assert(l1[11] == 24);
        assert(l2[11] == 24);
        lemma_not_in_gap(l3, 11, 24);
    } else if x == 25 {
        assert(l0[12] == 25);
        lemma_not_in_gap(l1, 11, 25);
        lemma_not_in_gap(l2, 11, 25);
        assert(l3[12] == 25);
    } else if x == 26 {
        lemma_not_in_gap(l0, 12, 26);
        assert(l1[12] == 26);
        assert(l2[12] == 26);
        lemma_not_in_gap(l3, 12, 26);
    } else if x == 27 {
        assert(l0[13] == 27);
        lemma_not_in_gap(l1, 12, 27);
        lemma_not_in_gap(l2, 12, 27);
        assert(l3[13] == 27);
    } else if x == 28 {
        lemma_not_in_gap(l0, 13, 28);
        assert(l1[13] == 28);
        assert(l2[13] == 28);
        lemma_not_in_gap(l3, 13, 28);
    } else if x == 29 {
        lemma_not_in_gap(l0, 13, 29);
        lemma_not_in_gap(l1, 13, 29);
        assert(l2[14] == 29);
        assert(l3[14] == 29);
    } else if x == 30 {
        assert(l0[14] == 30);
        assert(l1[14] == 30);
        lemma_not_in_gap(l2, 14, 30);
        lemma_not_in_gap(l3, 14, 30);
    } else if x == 31 {
        lemma_not_in_gap(l0, 14, 31);
        lemma_not_in_gap(l1, 14, 31);
        assert(l2[15] == 31);
        assert(l3[15] == 31);
    } else if x == 32 {
        assert(l0[15] == 32);
        assert(l1[15] == 32);
        lemma_not_in_gap(l2, 15, 32);
        lemma_not_in_gap(l3, 15, 32);
    } else if x == 33 {
        lemma_not_in_gap(l0, 15, 33);
        lemma_not_in_gap(l1, 15, 33);
        assert(l2[16] == 33);
        assert(l3[16] == 33);
    } else if x == 34 {
        assert(l0[16] == 34);
        assert(l1[16] == 34);
        lemma_not_in_gap(l2, 16, 34);
        lemma_not_in_gap(l3, 16, 34);
    } else if x == 35 {
        lemma_not_in_gap(l0, 16, 35);
        lemma_not_in_gap(l1, 16, 35);
        assert(l2[17] == 35);
        assert(l3[17] == 35);
    } else if x == 36 {
        assert(l0[17] == 36);
        assert(l1[17] == 36);
        lemma_not_after_last(l2, 36);
        lemma_not_after_last(l3, 36);
    } else {
        if x == 0 {
            lemma_not_before_first(l0, x as int);
            lemma_not_before_first(l1, x as int);
            lemma_not_before_first(l2, x as int);
            lemma_not_before_first(l3, x as int);
        } else {
            lemma_not_after_last(l0, x as int);
            lemma_not_after_last(l1, x as int);
            lemma_not_after_last(l2, x as int);
            lemma_not_after_last(l3, x as int);
        }
        assert forall|i: int| 0 <= i < 4 implies !#[trigger] t[i].contains(x) by {
            if i == 0 {
            } else if i == 1 {
            } else if i == 2 {
            } else {
            }
        }
    }
}

/// An even-money bet (red, even, black or odd) on one of the four lists
/// brings back twice its wager (even money, and the wager) when the spin is
/// in the list, and nothing otherwise.
pub proof fn lemma_even_money_pays(i: int, b: BetMsg, spin: u32)
    requires
        0 <= i < 4,
        b.bet_type@ == "outside_oerb"@,
        b.numbers@ == entry_text(odds_evens_reds_blacks()[i]),
    ensures
        bet_return(b, spin) == if odds_evens_reds_blacks()[i].contains(spin) {
            2 * b.wager
        } else {
            0
        },
{
    lemma_bet_names();
    lemma_even_money_lists_increasing();
    let t = odds_evens_reds_blacks();
    assert(t[0][0] == 1 && t[0][5] == 12 && t[1][0] == 2 && t[1][5] == 12);
    assert(t[2][0] == 2 && t[2][5] == 11 && t[3][0] == 1 && t[3][5] == 11);
    assert forall|j: int| 0 <= j < t.len() && j != i implies t[j] != t[i] by {
        if t[j] == t[i] {
            assert(t[j][0] == t[i][0] && t[j][5] == t[i][5]);
        }
    }
    assert(increasing(t[i]));
    lemma_listed_bet_pays(BetKind::OddEvenRedBlack, b, i, t[i], spin);
}

/// The four numbers meeting at a corner, from the top left one `n`:
/// n, n + 1, n + 3, n + 4.
pub open spec fn corner_of(n: int) -> Seq<u32> {
    seq![n as u32, (n + 1) as u32, (n + 3) as u32, (n + 4) as u32]
}

/// Whether `n` is the top left number of a corner of the table: 1 to 32,
/// outside the right-hand column.
pub open spec fn is_corner_start(n: int) -> bool {
    1 <= n <= 32 && n % 3 != 0
}

/// The top left number of the corner listed at position `j`.
spec fn corner_start_at(j: int) -> int {
    if j < 11 {
        3 * j + 2
    } else {
        31 - 3 * (j - 11)
    }
}

/// Where the corner with top left number `n` is listed.
spec fn corner_index(n: int) -> int {
    if n % 3 == 2 {
        (n - 2) / 3
    } else {
        11 + (31 - n) / 3
    }
}

proof fn lemma_corners_layout()
    ensures
        corners().len() == 22,
        forall|j: int| 0 <= j < 22 ==> #[trigger] corners()[j] == corner_of(corner_start_at(j)),
{
    assert forall|j: int| 0 <= j < 22 implies #[trigger] corners()[j] == corner_of(corner_start_at(j)) by {
        if j == 0 {
            assert(corners()[0] =~= corner_of(corner_start_at(0)));
        } else if j == 1 {
            assert(corners()[1] =~= corner_of(corner_start_at(1)));
        } else if j == 2 {
            assert(corners()[2] =~= corner_of(corner_start_at(2)));
        } else if j == 3 {
            assert(corners()[3] =~= corner_of(corner_start_at(3)));
        } else if j == 4 {
            assert(corners()[4] =~= corner_of(corner_start_at(4)));
        } else if j == 5 {
            assert(corners()[5] =~= corner_of(corner_start_at(5)));
        } else if j == 6 {
            assert(corners()[6] =~= corner_of(corner_start_at(6)));
        } else if j == 7 {
            assert(corners()[7] =~= corner_of(corner_start_at(7)));
        } else if j == 8 {
            assert(corners()[8] =~= corner_of(corner_start_at(8)));
        } else if j == 9 {
            assert(corners()[9] =~= corner_of(corner_start_at(9)));
        } else if j == 10 {
            assert(corners()[10] =~= corner_of(corner_start_at(10)));
        } else if j == 11 {
            assert(corners()[11] =~= corner_of(corner_start_at(11)));
        } else if j == 12 {
            assert(corners()[12] =~= corner_of(corner_start_at(12)));
        } else if j == 13 {
            assert(corners()[13] =~= corner_of(corner_start_at(13)));
        } else if j == 14 {
            assert(corners()[14] =~= corner_of(corner_start_at(14)));
        } else if j == 15 {
            assert(corners()[15] =~= corner_of(corner_start_at(15)));
        } else if j == 16 {
            assert(corners()[16] =~= corner_of(corner_start_at(16)));
        } else if j == 17 {
            assert(corners()[17] =~= corner_of(corner_start_at(17)));
        } else if j == 18 {
            assert(corners()[18] =~= corner_of(corner_start_at(18)));
        } else if j == 19 {
            assert(corners()[19] =~= corner_of(corner_start_at(19)));
        } else if j == 20 {
            assert(corners()[20] =~= corner_of(corner_start_at(20)));
        } else if j == 21 {
            assert(corners()[21] =~= corner_of(corner_start_at(21)));
        }
    }
}

/// Every corner of the table is a corner bet, and no other list is: the
/// table lists the 22 corners n, n + 1, n + 3, n + 4 (n from 1 to 32,
/// outside the right-hand column), each once. A corner bet on such a corner
/// brings back nine times its wager (eight to one, and the wager) when the
/// spin is one of its numbers, and nothing otherwise.
pub proof fn lemma_every_corner_pays(n: int, b: BetMsg, spin: u32)
    requires
        is_corner_start(n),
        b.bet_type@ == "corner_bet"@,
        b.numbers@ == entry_text(corner_of(n)),
    ensures
        corners().len() == 22,
        corners().contains(corner_of(n)),
        forall|j: int| 0 <= j < corners().len() ==> exists|m: int| is_corner_start(m) && #[trigger] corners()[j] == corner_of(m),
        bet_return(b, spin) == if spin == n || spin == n + 1 || spin == n + 3 || spin == n + 4 {
            9 * b.wager
        } else {
            0
        },
{
    lemma_bet_names();
    lemma_corners_layout();
    let i = corner_index(n);
    assert(0 <= i < 22 && corner_start_at(i) == n);
    assert(corners()[i] == corner_of(n));
    assert forall|j: int| 0 <= j < corners().len() && j != i implies corners()[j] != corner_of(n) by {
        assert(corners()[j] == corner_of(corner_start_at(j)));
        assert(corner_start_at(j) != n);
        assert(corner_of(corner_start_at(j))[0] != corner_of(n)[0]);
    }
    assert forall|j: int| 0 <= j < corners().len() implies exists|m: int| is_corner_start(m) && #[trigger] corners()[j] == corner_of(m) by {
        assert(is_corner_start(corner_start_at(j)));
    }
    lemma_table_hits_once(corners(), i, corner_of(n), spin);
    let e = corner_of(n);
    assert(increasing(e)) by {
        assert forall|p: int, q: int| 0 <= p < q < e.len() implies e[p] < e[q] by {
            assert(e[0] == n && e[1] == n + 1 && e[2] == n + 3 && e[3] == n + 4);
        }
    }
    lemma_count_in_increasing(e, spin);
    let hit = spin == n || spin == n + 1 || spin == n + 3 || spin == n + 4;
    if hit {
        if spin == n {
            assert(e[0] == spin);
        } else if spin == n + 1 {
            assert(e[1] == spin);
        } else if spin == n + 3 {
            assert(e[2] == spin);
        } else {
            assert(e[3] == spin);
        }
    } else if e.contains(spin) {
        let k = choose|k: int| 0 <= k < e.len() && e[k] == spin;
        assert(e[0] == n && e[1] == n + 1 && e[2] == n + 3 && e[3] == n + 4);
    }
    assert(bet_kind(b.bet_type@) == Some(BetKind::Corner));
    assert(hits(BetKind::Corner, b.numbers@, spin) == if hit { 1int } else { 0int });
    let w = b.wager as int;
    assert((8 + 1) * w * 1 == 9 * w && (8 + 1) * w * 0 == 0) by (nonlinear_arith);
}

/// Bets that all lose bring nothing back.
pub proof fn lemma_losing_bets_return_nothing(bets: Seq<BetMsg>, spin: u32)
    requires
        forall|i: int| 0 <= i < bets.len() ==> #[trigger] bet_return(bets[i], spin) == 0,
    ensures
        total_return(bets, spin) == 0,
    decreases bets.len(),
{
    if bets.len() > 0 {
        assert(bet_return(bets[bets.len() - 1], spin) == 0);
        lemma_losing_bets_return_nothing(bets.drop_last(), spin);
    }
}

} // verus!
