//! The visitor counter's report.

use vstd::prelude::*;

verus! {

/// The decimal digit for `d < 10`.
pub open spec fn digit_char(d: nat) -> char {
    if d == 0 {
        '0'
    } else if d == 1 {
        '1'
    } else if d == 2 {
        '2'
    } else if d == 3 {
        '3'
    } else if d == 4 {
        '4'
    } else if d == 5 {
        '5'
    } else if d == 6 {
        '6'
    } else if d == 7 {
        '7'
    } else if d == 8 {
        '8'
    } else {
        '9'
    }
}

/// The decimal numeral of `n`, without leading zeros.
pub open spec fn decimal(n: nat) -> Seq<char>
    decreases n,
{
    if n < 10 {
        seq![digit_char(n)]
    } else {
        decimal(n / 10) + seq![digit_char(n % 10)]
    }
}

/// Whether `c` is a decimal digit.
pub open spec fn is_digit(c: char) -> bool {
    '0' <= c <= '9'
}

/// The number that a string of decimal digits denotes, most significant
/// digit first: the sum of each digit times ten to the number of digits
/// after it.
pub open spec fn numeral_value(s: Seq<char>) -> int
    decreases s.len(),
{
    if s.len() == 0 {
        0
    } else {
        numeral_value(s.drop_last()) * 10 + (s.last() as int - '0' as int)
    }
}

proof fn lemma_digit_char_value(d: nat)
    requires
        d < 10,
    ensures
        is_digit(digit_char(d)),
        digit_char(d) as int - '0' as int == d,
{
    if d == 0 {
    } else if d == 1 {
    } else if d == 2 {
    } else if d == 3 {
    } else if d == 4 {
    } else if d == 5 {
    } else if d == 6 {
    } else if d == 7 {
    } else if d == 8 {
    } else {
    }
}

/// `decimal(n)` spells `n`: it is made of decimal digits, it has no leading
/// zero, and read as a decimal numeral it denotes `n`.
pub proof fn lemma_decimal_spells_the_number(n: nat)
    ensures
        decimal(n).len() >= 1,
        forall|i: int| 0 <= i < decimal(n).len() ==> is_digit(#[trigger] decimal(n)[i]),
        n >= 1 ==> decimal(n)[0] != '0',
        numeral_value(decimal(n)) == n,
    decreases n,
{
    lemma_digit_char_value(n % 10);
    if n < 10 {
        lemma_digit_char_value(n);
        assert(decimal(n).drop_last() =~= Seq::<char>::empty());
        assert(numeral_value(decimal(n)) == numeral_value(Seq::<char>::empty()) * 10 + (digit_char(n) as int - '0' as int));
    } else {
        lemma_decimal_spells_the_number(n / 10);
        let head = decimal(n / 10);
        let d = n % 10;
        assert(decimal(n).drop_last() =~= head);
        assert(decimal(n).last() == digit_char(d));
        assert forall|i: int| 0 <= i < decimal(n).len() implies is_digit(#[trigger] decimal(n)[i]) by {
            if i < head.len() {
                assert(decimal(n)[i] == head[i]);
            }
        }
        assert(decimal(n)[0] == head[0]);
        assert(numeral_value(decimal(n)) == numeral_value(head) * 10 + (digit_char(d) as int - '0' as int));
        assert(n == (n / 10) * 10 + n % 10);
    }
}

/// The visitor report reads back as the count: after `Visitors: ` come only
/// decimal digits, without a leading zero, that denote the count.
pub proof fn lemma_report_reads_back(current_count: usize)
    ensures
        ("Visitors: "@ + decimal(current_count as nat)).subrange(10, ("Visitors: "@ + decimal(current_count as nat)).len() as int)
            == decimal(current_count as nat),
        numeral_value(decimal(current_count as nat)) == current_count,
        forall|i: int| 0 <= i < decimal(current_count as nat).len() ==> is_digit(#[trigger] decimal(current_count as nat)[i]),
        current_count >= 1 ==> decimal(current_count as nat)[0] != '0',
        current_count == 0 ==> decimal(current_count as nat) == seq!['0'],
{
    reveal_strlit("Visitors: ");
    lemma_decimal_spells_the_number(current_count as nat);
    let s = "Visitors: "@ + decimal(current_count as nat);
    assert(s.subrange(10, s.len() as int) =~= decimal(current_count as nat));
}

fn digit_str(d: usize) -> (res: &'static str)
    requires
        d < 10,
    ensures
        res@ == seq![digit_char(d as nat)],
{
    proof {
        reveal_strlit("0");
        reveal_strlit("1");
        reveal_strlit("2");
        reveal_strlit("3");
        reveal_strlit("4");
        reveal_strlit("5");
        reveal_strlit("6");
        reveal_strlit("7");
        reveal_strlit("8");
        reveal_strlit("9");
    }
    if d == 0 {
        "0"
    } else if d == 1 {
        "1"
    } else if d == 2 {
        "2"
    } else if d == 3 {
        "3"
    } else if d == 4 {
        "4"
    } else if d == 5 {
        "5"
    } else if d == 6 {
        "6"
    } else if d == 7 {
        "7"
    } else if d == 8 {
        "8"
    } else {
        "9"
    }
}

fn append_decimal(out: &mut String, n: usize)
    ensures
        final(out)@ == old(out)@ + decimal(n as nat),
    decreases n,
{
    if n >= 10 {
        append_decimal(out, n / 10);
    }
    out.append(digit_str(n % 10));
}

/// The report of the visitor counter: `Visitors: ` and the count in decimal.
pub fn get_count(current_count: usize) -> (res: String)
    ensures
        res@ == "Visitors: "@ + decimal(current_count as nat),
        res@.len() > 10,
        res@.subrange(0, 10) == "Visitors: "@,
        forall|i: int| 10 <= i < res@.len() ==> is_digit(#[trigger] res@[i]),
        current_count >= 1 ==> res@[10] != '0',
        numeral_value(res@.subrange(10, res@.len() as int)) == current_count,
{
    let mut res = "Visitors: ".to_owned();
    append_decimal(&mut res, current_count);
    proof {
        reveal_strlit("Visitors: ");
        lemma_report_reads_back(current_count);
        let d = decimal(current_count as nat);
        assert(res@.subrange(0, 10) =~= "Visitors: "@);
        assert forall|i: int| 10 <= i < res@.len() implies is_digit(#[trigger] res@[i]) by {
            assert(res@[i] == d[i - 10]);
        }
        assert(res@[10] == d[0]);
    }
    res
}

} // verus!
