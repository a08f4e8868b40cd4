//! Numbers as they are written.
use vstd::prelude::*;

verus! {

/// The digit for a number below ten.
pub open spec fn digit(n: u64) -> char {
    match n {
        0 => '0',
        1 => '1',
        2 => '2',
        3 => '3',
        4 => '4',
        5 => '5',
        6 => '6',
        7 => '7',
        8 => '8',
        _ => '9',
    }
}

/// What a digit stands for.
pub open spec fn worth(c: char) -> Option<int> {
    match c {
        '0' => Some(0),
        '1' => Some(1),
        '2' => Some(2),
        '3' => Some(3),
        '4' => Some(4),
        '5' => Some(5),
        '6' => Some(6),
        '7' => Some(7),
        '8' => Some(8),
        '9' => Some(9),
        _ => None,
    }
}

/// A number in decimal.
pub open spec fn decimal(n: nat) -> Seq<char>
    decreases n,
{
    if n < 10 {
        seq![digit(n as u64)]
    } else {
        decimal(n / 10).push(digit((n % 10) as u64))
    }
}

/// The number that digits write, where they all are digits.
pub open spec fn value_of(s: Seq<char>) -> Option<nat>
    decreases s.len(),
{
    if s.len() == 0 {
        Some(0)
    } else {
        match (value_of(s.drop_last()), worth(s.last())) {
            (Some(v), Some(d)) => Some((v * 10 + d) as nat),
            _ => None,
        }
    }
}

/// The number that a text writes: digits, with a plus in front or not, for a
/// number of `most` at the most.
pub open spec fn read_number(s: Seq<char>, most: nat) -> Option<nat> {
    let digits = if s.len() > 0 && s[0] == '+' { s.skip(1) } else { s };
    if digits.len() == 0 {
        None
    } else {
        match value_of(digits) {
            Some(v) => if v <= most { Some(v) } else { None },
            None => None,
        }
    }
}

/// What a digit stands for.
pub fn digit_worth(c: char) -> (r: Option<u64>)
    ensures
        match worth(c) {
            Some(d) => r == Some(d as u64) && 0 <= d < 10,
            None => r is None,
        },
{
    match c {
        '0' => Some(0),
        '1' => Some(1),
        '2' => Some(2),
        '3' => Some(3),
        '4' => Some(4),
        '5' => Some(5),
        '6' => Some(6),
        '7' => Some(7),
        '8' => Some(8),
        '9' => Some(9),
        _ => None,
    }
}

fn to_digit(n: u64) -> (c: char)
    requires
        n < 10,
    ensures
        c == digit(n),
{
    match n {
        0 => '0',
        1 => '1',
        2 => '2',
        3 => '3',
        4 => '4',
        5 => '5',
        6 => '6',
        7 => '7',
        8 => '8',
        _ => '9',
    }
}

/// A number in decimal, at the end of a text.
pub fn write_number(out: &mut String, n: u64)
    ensures
        final(out)@ == old(out)@ + decimal(n as nat),
    decreases n,
{
    if n >= 10 {
        write_number(out, n / 10);
    }
    let ghost had = out@;
    out.push(to_digit(n % 10));
    assert(out@ =~= old(out)@ + decimal(n as nat));
}

/// A number in decimal.
pub fn show_number(n: u64) -> (s: String)
    ensures
        s@ == decimal(n as nat),
{
    let mut s: String = String::new();
    write_number(&mut s, n);
    assert(s@ =~= decimal(n as nat));
    s
}

proof fn lemma_not_a_digit(s: Seq<char>, n: int)
    requires
        0 <= n < s.len(),
        worth(s[n]) is None,
    ensures
        value_of(s) is None,
    decreases s.len(),
{
    if n < s.len() - 1 {
        assert(s.drop_last()[n] == s[n]);
        lemma_not_a_digit(s.drop_last(), n);
    }
}

/// The number that a text writes, if it writes one of `most` at the most.
pub fn parse_number(v: &Vec<char>, most: u64) -> (r: Option<u64>)
    ensures
        match read_number(v@, most as nat) {
            Some(n) => r == Some(n as u64) && n <= most,
            None => r is None,
        },
{
    let from: usize = if v.len() > 0 && v[0] == '+' { 1 } else { 0 };
    let ghost digits = v@.skip(from as int);
    assert(from == 0 ==> digits =~= v@);
    if from == v.len() {
        return None;
    }
    let mut total: u128 = 0;
    let mut over: bool = false;
    let mut at: usize = from;
    assert(digits.take(0) =~= Seq::<char>::empty());
    while at < v.len()
        invariant
            from <= at <= v@.len(),
            digits == if v@[0] == '+' { v@.skip(1) } else { v@ },
            digits == v@.skip(from as int),
            value_of(digits.take(at - from)) is Some,
            !over ==> total == value_of(digits.take(at - from))->0 && total <= most,
            over ==> value_of(digits.take(at - from))->0 > most,
        decreases v@.len() - at,
    {
        assert(digits.take(at + 1 - from).drop_last() =~= digits.take(at - from));
        assert(digits[at - from] == v@[at as int]);
        match digit_worth(v[at]) {
            Some(d) => {
                if !over {
                    total = total * 10 + d as u128;
                    if total > most as u128 {
                        over = true;
                    }
                }
            },
            None => {
                proof {
                    lemma_not_a_digit(digits, at - from);
                }
                return None;
            },
        }
        at = at + 1;
    }
    assert(digits.take(at - from) =~= digits);
    if over {
        None
    } else {
        Some(total as u64)
    }
}

proof fn lemma_decimal_value(n: nat)
    ensures
        decimal(n).len() > 0,
        value_of(decimal(n)) == Some(n),
        worth(decimal(n)[0]) is Some,
    decreases n,
{
    reveal_with_fuel(value_of, 2);
    if n >= 10 {
        lemma_decimal_value(n / 10);
        assert(decimal(n).drop_last() =~= decimal(n / 10));
        assert(decimal(n)[0] == decimal(n / 10)[0]);
    } else {
        assert(decimal(n).drop_last() =~= Seq::<char>::empty());
    }
}

/// A number that is written down reads back.
pub proof fn law_a_number_reads_back(n: nat, most: nat)
    requires
        n <= most,
    ensures
        read_number(decimal(n), most) == Some(n),
{
    lemma_decimal_value(n);
}

} // verus!
