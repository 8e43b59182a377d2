//! Decimal rendering of integers and comma-joined lists, as they appear in
//! bet descriptions and in response attributes.

use vstd::prelude::*;

verus! {

/// The character of a single decimal digit.
pub open spec fn digit_char(d: nat) -> char {
    if d == 0 {
        '0'
    } else if d == 1 {
        '1'
    } else if d == 2 {
        '2'
    } else if d == 3 {
        '3'
    } else if d == 4 {
        '4'
    } else if d == 5 {
        '5'
    } else if d == 6 {
        '6'
    } else if d == 7 {
        '7'
    } else if d == 8 {
        '8'
    } else {
        '9'
    }
}

/// The decimal representation of `n`, without leading zeros ("0" for zero).
pub open spec fn decimal(n: nat) -> Seq<char>
    decreases n,
{
    if n < 10 {
        seq![digit_char(n)]
    } else {
        decimal(n / 10) + seq![digit_char(n % 10)]
    }
}

/// The decimal representations of `items`, separated by `sep`.
pub open spec fn join_decimal(items: Seq<int>, sep: Seq<char>) -> Seq<char>
    decreases items.len(),
{
    if items.len() == 0 {
        Seq::empty()
    } else if items.len() == 1 {
        decimal(items[0] as nat)
    } else {
        join_decimal(items.drop_last(), sep) + sep + decimal(items.last() as nat)
    }
}

/// A string holding exactly the characters of `s`.
pub fn text(s: &str) -> (r: String)
    ensures
        r@ == s@,
{
    s.to_owned()
}

/// Whether `s` spells exactly `lit`.
pub fn is_text(s: &String, lit: &str) -> (b: bool)
    ensures
        b == (s@ == lit@),
{
    let t = text(lit);
    *s == t
}

fn digit_str(d: u128) -> (r: &'static str)
    requires
        d < 10,
    ensures
        r@ == seq![digit_char(d as nat)],
{
    if d == 0 {
        proof {
            reveal_strlit("0");
        }
        "0"
    } else if d == 1 {
        proof {
            reveal_strlit("1");
        }
        "1"
    } else if d == 2 {
        proof {
            reveal_strlit("2");
        }
        "2"
    } else if d == 3 {
        proof {
            reveal_strlit("3");
        }
        "3"
    } else if d == 4 {
        proof {
            reveal_strlit("4");
        }
        "4"
    } else if d == 5 {
        proof {
            reveal_strlit("5");
        }
        "5"
    } else if d == 6 {
        proof {
            reveal_strlit("6");
        }
        "6"
    } else if d == 7 {
        proof {
            reveal_strlit("7");
        }
        "7"
    } else if d == 8 {
        proof {
            reveal_strlit("8");
        }
        "8"
    } else {
        proof {
            reveal_strlit("9");
        }
        "9"
    }
}

/// Appends the decimal representation of `n` to `s`.
pub fn push_decimal(s: &mut String, n: u128)
    ensures
        final(s)@ == old(s)@ + decimal(n as nat),
    decreases n,
{
    if n >= 10 {
        push_decimal(s, n / 10);
    }
    s.append(digit_str(n % 10));
    proof {
        if n < 10 {
            assert(n % 10 == n);
        }
    }
}

/// The decimal representation of `n`, as `to_string` renders an integer.
pub fn decimal_string(n: u128) -> (r: String)
    ensures
        r@ == decimal(n as nat),
{
    let mut s = String::new();
    push_decimal(&mut s, n);
    s
}

/// The decimal representations of `items`, separated by `sep`.
pub fn join_numbers(items: &Vec<u32>, sep: &str) -> (r: String)
    ensures
        r@ == join_decimal(items@.map_values(|x: u32| x as int), sep@),
{
    let ghost ints = items@.map_values(|x: u32| x as int);
    let mut s = String::new();
    let mut i: usize = 0;
    while i < items.len()
        invariant
            i <= items.len(),
            ints == items@.map_values(|x: u32| x as int),
            s@ == join_decimal(ints.take(i as int), sep@),
        decreases items.len() - i,
    {
        proof {
            assert(ints.take(i + 1).drop_last() =~= ints.take(i as int));
        }
        if i > 0 {
            s.append(sep);
        }
        push_decimal(&mut s, items[i] as u128);
        proof {
            if i == 0 {
                assert(ints.take(1) =~= seq![items@[0] as int]);
            }
        }
        i = i + 1;
    }
    proof {
        assert(ints.take(items.len() as int) =~= ints);
    }
    s
}

/// The value of a decimal digit (0 for a character that is no digit).
pub open spec fn digit_value(c: char) -> int {
    if c == '1' {
        1
    } else if c == '2' {
        2
    } else if c == '3' {
        3
    } else if c == '4' {
        4
    } else if c == '5' {
        5
    } else if c == '6' {
        6
    } else if c == '7' {
        7
    } else if c == '8' {
        8
    } else if c == '9' {
        9
    } else {
        0
    }
}

/// The number that a string of decimal digits spells, most significant
/// digit first ("0" and the empty string give 0). Meant for strings of
/// digits only, where it agrees with `str::parse`.
pub open spec fn parse_decimal(s: Seq<char>) -> int
    decreases s.len(),
{
    if s.len() == 0 {
        0
    } else {
        parse_decimal(s.drop_last()) * 10 + digit_value(s.last())
    }
}

/// Each piece parsed as a decimal number.
pub open spec fn parse_all(pieces: Seq<Seq<char>>) -> Seq<int> {
    pieces.map_values(|t: Seq<char>| parse_decimal(t))
}

/// The pieces of `s` between occurrences of `sep`, in order, as `str::split`
/// yields them: one piece more than there are separators, empty pieces
/// included (the empty string gives one empty piece).
pub open spec fn split_on(s: Seq<char>, sep: char) -> Seq<Seq<char>>
    decreases s.len(),
{
    if s.len() == 0 {
        seq![Seq::empty()]
    } else {
        let p = split_on(s.drop_last(), sep);
        if s.last() == sep {
            p.push(Seq::empty())
        } else {
            p.update(p.len() - 1, p.last().push(s.last()))
        }
    }
}

/// Splitting always gives at least one piece.
proof fn lemma_split_nonempty(s: Seq<char>, sep: char)
    ensures
        split_on(s, sep).len() >= 1,
    decreases s.len(),
{
    if s.len() > 0 {
        lemma_split_nonempty(s.drop_last(), sep);
    }
}

/// Appending text without a separator extends the last piece.
proof fn lemma_split_append(x: Seq<char>, d: Seq<char>, sep: char)
    requires
        forall|i: int| 0 <= i < d.len() ==> d[i] != sep,
    ensures
        split_on(x + d, sep) == split_on(x, sep).update(
            split_on(x, sep).len() - 1,
            split_on(x, sep).last() + d,
        ),
    decreases d.len(),
{
    lemma_split_nonempty(x, sep);
    let p = split_on(x, sep);
    if d.len() == 0 {
        assert(x + d =~= x);
        assert(p.last() + d =~= p.last());
        assert(p.update(p.len() - 1, p.last() + d) =~= p);
    } else {
        let d1 = d.drop_last();
        lemma_split_append(x, d1, sep);
        assert((x + d).drop_last() =~= x + d1);
        assert((x + d).last() == d.last());
        assert(p.last() + d1 + seq![d.last()] =~= p.last() + d);
        let q = split_on(x + d1, sep);
        assert(q.last() == p.last() + d1);
        assert(q.len() == p.len());
        assert(q.last().push(d.last()) =~= p.last() + d);
        assert(q.update(q.len() - 1, q.last().push(d.last())) =~= p.update(p.len() - 1, p.last() + d));
    }
}

/// Decimal digits are never the separator `sep`, and a decimal
/// representation is never empty.
proof fn lemma_decimal_shape(n: nat, sep: char)
    requires
        forall|d: nat| d < 10 ==> digit_char(d) != sep,
    ensures
        decimal(n).len() > 0,
        forall|i: int| 0 <= i < decimal(n).len() ==> decimal(n)[i] != sep,
    decreases n,
{
    if n >= 10 {
        lemma_decimal_shape(n / 10, sep);
        assert(digit_char((n % 10) as nat) != sep);
    } else {
        assert(digit_char(n) != sep);
    }
}

/// Parsing a decimal representation gives the number back.
pub proof fn lemma_parse_decimal(n: nat)
    ensures
        parse_decimal(decimal(n)) == n,
    decreases n,
{
    let d = (n % 10) as nat;
    assert(digit_value(digit_char(d)) == d);
    if n >= 10 {
        lemma_parse_decimal(n / 10);
        let s = decimal(n);
        assert(s.drop_last() =~= decimal(n / 10));
        assert(s.last() == digit_char(d));
        assert((n / 10) * 10 + d == n);
        assert(parse_decimal(s) == parse_decimal(s.drop_last()) * 10 + digit_value(s.last()));
        assert(parse_decimal(s.drop_last()) == n / 10);
    } else {
        assert(d == n);
        assert(decimal(n).drop_last() =~= Seq::<char>::empty());
        assert(decimal(n).last() == digit_char(n));
        assert(parse_decimal(decimal(n)) == parse_decimal(decimal(n).drop_last()) * 10 + digit_value(
            decimal(n).last(),
        ));
    }
}

/// Splitting a list of decimals joined by `sep` followed by `pad` (where
/// `pad` holds no `sep`) at `sep` gives back the decimals, one piece for
/// each item, every piece but the first led by `pad`; the joined text is
/// empty only where the list is.
pub proof fn lemma_split_join_padded(items: Seq<int>, sep: char, pad: Seq<char>)
    requires
        forall|d: nat| d < 10 ==> digit_char(d) != sep,
        forall|i: int| 0 <= i < pad.len() ==> pad[i] != sep,
        forall|i: int| 0 <= i < items.len() ==> items[i] >= 0,
    ensures
        join_decimal(items, seq![sep] + pad).len() == 0 <==> items.len() == 0,
        items.len() > 0 ==> split_on(join_decimal(items, seq![sep] + pad), sep).len() == items.len(),
        items.len() > 0 ==> split_on(join_decimal(items, seq![sep] + pad), sep)[0] == decimal(
            items[0] as nat,
        ),
        items.len() > 0 ==> forall|i: int|
            0 < i < items.len() ==> #[trigger] split_on(join_decimal(items, seq![sep] + pad), sep)[i]
                == pad + decimal(items[i] as nat),
    decreases items.len(),
{
    let glue = seq![sep] + pad;
    if items.len() == 1 {
        let d = decimal(items[0] as nat);
        lemma_decimal_shape(items[0] as nat, sep);
        lemma_split_append(Seq::empty(), d, sep);
        assert(Seq::<char>::empty() + d =~= d);
    } else if items.len() > 1 {
        let front = items.drop_last();
        let x = join_decimal(front, glue);
        let d = decimal(items.last() as nat);
        lemma_split_join_padded(front, sep, pad);
        lemma_decimal_shape(items.last() as nat, sep);
        let xs = x.push(sep);
        assert(xs.drop_last() =~= x);
        assert(split_on(xs, sep) == split_on(x, sep).push(Seq::empty()));
        let tail = pad + d;
        assert forall|i: int| 0 <= i < tail.len() implies tail[i] != sep by {
            if i >= pad.len() {
                assert(tail[i] == d[i - pad.len()]);
            }
        }
        lemma_split_append(xs, tail, sep);
        assert(x + glue + d =~= xs + tail);
        assert(Seq::<char>::empty() + tail =~= tail);
        assert(front[0] == items[0]);
        assert forall|i: int| 0 < i < items.len() implies #[trigger] split_on(
            join_decimal(items, glue),
            sep,
        )[i] == pad + decimal(items[i] as nat) by {
            if i < items.len() - 1 {
                assert(front[i] == items[i]);
            }
        }
    }
}

/// Splitting a list of decimals joined by `sep` at `sep` gives back the
/// decimals, one piece for each item; the joined text is empty only where
/// the list is.
pub proof fn lemma_split_join(items: Seq<int>, sep: char)
    requires
        forall|d: nat| d < 10 ==> digit_char(d) != sep,
        forall|i: int| 0 <= i < items.len() ==> items[i] >= 0,
    ensures
        join_decimal(items, seq![sep]).len() == 0 <==> items.len() == 0,
        items.len() > 0 ==> split_on(join_decimal(items, seq![sep]), sep).len() == items.len(),
        items.len() > 0 ==> forall|i: int|
            0 <= i < items.len() ==> #[trigger] split_on(join_decimal(items, seq![sep]), sep)[i]
                == decimal(items[i] as nat),
{
    let empty = Seq::<char>::empty();
    assert(seq![sep] + empty =~= seq![sep]);
    lemma_split_join_padded(items, sep, empty);
    assert forall|i: int| 0 <= i < items.len() implies #[trigger] split_on(
        join_decimal(items, seq![sep]),
        sep,
    )[i] == decimal(items[i] as nat) by {
        assert(empty + decimal(items[i] as nat) =~= decimal(items[i] as nat));
    }
}

/// A leading space does not change the number that digits spell.
pub proof fn lemma_parse_after_space(d: Seq<char>)
    ensures
        parse_decimal(seq![' '] + d) == parse_decimal(d),
    decreases d.len(),
{
    if d.len() == 0 {
        assert(seq![' '] + d =~= seq![' ']);
        assert(seq![' '].drop_last() =~= Seq::<char>::empty());
        assert(seq![' '].last() == ' ');
        assert(digit_value(' ') == 0);
        assert(parse_decimal(seq![' ']) == parse_decimal(Seq::<char>::empty()) * 10 + digit_value(' '));
    } else {
        lemma_parse_after_space(d.drop_last());
        let sd = seq![' '] + d;
        assert(sd.drop_last() =~= seq![' '] + d.drop_last());
        assert(sd.last() == d.last());
        assert(parse_decimal(sd) == parse_decimal(sd.drop_last()) * 10 + digit_value(sd.last()));
        assert(parse_decimal(d) == parse_decimal(d.drop_last()) * 10 + digit_value(d.last()));
    }
}

/// Numbers written as a list "a, b, c" can be read back: splitting at the
/// commas and parsing each piece gives them again, and the text is empty
/// only for the empty list.
pub proof fn lemma_list_text_round_trip(items: Seq<int>)
    requires
        forall|i: int| 0 <= i < items.len() ==> items[i] >= 0,
    ensures
        join_decimal(items, ", "@).len() == 0 <==> items.len() == 0,
        items.len() > 0 ==> parse_all(split_on(join_decimal(items, ", "@), ',')) == items,
{
    reveal_strlit(", ");
    assert(", "@ =~= seq![','] + seq![' ']);
    lemma_split_join_padded(items, ',', seq![' ']);
    if items.len() > 0 {
        let pieces = split_on(join_decimal(items, ", "@), ',');
        assert forall|i: int| 0 <= i < items.len() implies #[trigger] parse_all(pieces)[i] == items[i] by {
            lemma_parse_decimal(items[i] as nat);
            if i > 0 {
                lemma_parse_after_space(decimal(items[i] as nat));
            }
        }
        assert(parse_all(pieces) =~= items);
    }
}

} // verus!
