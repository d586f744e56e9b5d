use vstd::prelude::*;
use crate::lexer::is_digit;
use crate::text::{chars_of, push_char};

verus! {

/// The value of a decimal digit character.
pub open spec fn digit_value(c: char) -> nat {
    (c as u32 - '0' as u32) as nat
}

/// The character of a decimal digit.
pub open spec fn digit_char(d: nat) -> char {
    if d == 0 {
        '0'
    } else if d == 1 {
        '1'
    } else if d == 2 {
        '2'
    } else if d == 3 {
        '3'
    } else if d == 4 {
        '4'
    } else if d == 5 {
        '5'
    } else if d == 6 {
        '6'
    } else if d == 7 {
        '7'
    } else if d == 8 {
        '8'
    } else {
        '9'
    }
}

pub open spec fn all_digits(s: Seq<char>) -> bool {
    forall|i: int| 0 <= i < s.len() ==> is_digit(#[trigger] s[i])
}

/// The number that a sequence of digits spells in base ten.
pub open spec fn digits_value(s: Seq<char>) -> nat
    decreases s.len(),
{
    if s.len() == 0 {
        0
    } else {
        digits_value(s.drop_last()) * 10 + digit_value(s.last())
    }
}

/// The integer that a text spells: an optional sign (`-` only where `signed`),
/// then one digit or more.
pub open spec fn int_text_value(s: Seq<char>, signed: bool) -> Option<int> {
    if s.len() > 1 && s[0] == '-' && signed && all_digits(s.drop_first()) {
        Some(-(digits_value(s.drop_first()) as int))
    } else if s.len() > 1 && s[0] == '+' && all_digits(s.drop_first()) {
        Some(digits_value(s.drop_first()) as int)
    } else if s.len() > 0 && all_digits(s) {
        Some(digits_value(s) as int)
    } else {
        None
    }
}

/// The integer a text spells, where it lies in `min ..= max`.
pub open spec fn int_in_range(s: Seq<char>, signed: bool, min: int, max: int) -> Option<int> {
    match int_text_value(s, signed) {
        Some(n) => if min <= n <= max {
            Some(n)
        } else {
            None
        },
        None => None,
    }
}

/// The shortest decimal digits of a natural number.
pub open spec fn nat_digits(n: nat) -> Seq<char>
    decreases n,
{
    if n < 10 {
        seq![digit_char(n)]
    } else {
        nat_digits(n / 10).push(digit_char(n % 10))
    }
}

/// The decimal text of an integer, with `-` before a negative one.
pub open spec fn int_digits(n: int) -> Seq<char> {
    if n < 0 {
        seq!['-'] + nat_digits((-n) as nat)
    } else {
        nat_digits(n as nat)
    }
}

proof fn lemma_digits_prefix_le(s: Seq<char>, i: int)
    requires
        0 <= i <= s.len(),
    ensures
        digits_value(s.subrange(0, i)) <= digits_value(s),
    decreases s.len() - i,
{
    if i < s.len() {
        lemma_digits_prefix_le(s, i + 1);
        let t = s.subrange(0, i + 1);
        assert(t.drop_last() =~= s.subrange(0, i));
    } else {
        assert(s.subrange(0, i) =~= s);
    }
}

fn digit_of(c: char) -> (r: u8)
    requires
        is_digit(c),
    ensures
        r as nat == digit_value(c),
        r < 10,
{
    (c as u32 - '0' as u32) as u8
}

/// The value of the digits `cs[from..]`, where it is at most `limit`.
fn digits_upto(cs: &Vec<char>, from: usize, limit: u128) -> (r: Option<u128>)
    requires
        from <= cs@.len(),
        limit < u64::MAX as u128 * 2,
    ensures
        match r {
            Some(v) => all_digits(cs@.skip(from as int)) && v == digits_value(cs@.skip(from as int))
                && v <= limit,
            None => !all_digits(cs@.skip(from as int)) || digits_value(cs@.skip(from as int))
                > limit,
        },
{
    let ghost s = cs@.skip(from as int);
    let mut acc: u128 = 0;
    let mut i: usize = from;
    assert(s.subrange(0, 0) =~= Seq::<char>::empty());
    while i < cs.len()
        invariant
            from <= i <= cs@.len(),
            s == cs@.skip(from as int),
            limit < u64::MAX as u128 * 2,
            all_digits(s.subrange(0, i - from)),
            acc == digits_value(s.subrange(0, i - from)),
            acc <= limit,
        decreases cs@.len() - i,
    {
        let c = cs[i];
        if !('0' <= c && c <= '9') {
            assert(s[i - from] == c);
            return None;
        }
        let d = digit_of(c);
        let ghost t = s.subrange(0, i - from + 1);
        assert(t.drop_last() =~= s.subrange(0, i - from));
        assert(t.last() == c);
        let next = acc * 10 + d as u128;
        if next > limit {
            proof {
                lemma_digits_prefix_le(s, i - from + 1);
            }
            return None;
        }
        acc = next;
        i = i + 1;
        assert(all_digits(s.subrange(0, i - from))) by {
            assert forall|j: int| 0 <= j < i - from implies is_digit(
                #[trigger] s.subrange(0, i - from)[j],
            ) by {
                if j < i - from - 1 {
                    assert(s.subrange(0, i - from)[j] == s.subrange(0, i - from - 1)[j]);
                }
            }
        }
    }
    assert(s.subrange(0, i - from) =~= s);
    Some(acc)
}

/// The integer that `s` spells, where it lies in `min ..= max`.
pub fn parse_int(s: &String, signed: bool, min: i128, max: i128) -> (r: Option<i128>)
    requires
        -(u64::MAX as i128) <= min,
        max <= u64::MAX as i128,
    ensures
        match r {
            Some(v) => int_in_range(s@, signed, min as int, max as int) == Some(v as int),
            None => int_in_range(s@, signed, min as int, max as int) is None,
        },
{
    let cs = chars_of(s.as_str());
    if cs.len() == 0 {
        return None;
    }
    if cs.len() > 1 && cs[0] == '-' && signed {
        assert(cs@.skip(1) =~= cs@.drop_first());
        let limit: u128 = if min < 0 { (-min) as u128 } else { 0 };
        match digits_upto(&cs, 1, limit) {
            Some(v) => {
                let n: i128 = -(v as i128);
                if n < min || n > max {
                    return None;
                }
                return Some(n);
            },
            None => {
                return None;
            },
        }
    }
    if cs.len() > 1 && cs[0] == '+' {
        assert(cs@.skip(1) =~= cs@.drop_first());
        let limit: u128 = if max < 0 { 0 } else { max as u128 };
        match digits_upto(&cs, 1, limit) {
            Some(v) => {
                let n: i128 = v as i128;
                if n < min || n > max {
                    return None;
                }
                return Some(n);
            },
            None => {
                if max < 0 {
                    assert(!(cs[0] == '-' && signed));
                }
                return None;
            },
        }
    }
    assert(cs@.skip(0) =~= cs@);
    let limit: u128 = if max < 0 { 0 } else { max as u128 };
    match digits_upto(&cs, 0, limit) {
        Some(v) => {
            assert(is_digit(cs@.skip(0)[0]));
            let n: i128 = v as i128;
            if n < min || n > max {
                return None;
            }
            Some(n)
        },
        None => None,
    }
}

fn digit_to_char(d: u128) -> (r: char)
    requires
        d < 10,
    ensures
        r == digit_char(d as nat),
{
    if d == 0 {
        '0'
    } else if d == 1 {
        '1'
    } else if d == 2 {
        '2'
    } else if d == 3 {
        '3'
    } else if d == 4 {
        '4'
    } else if d == 5 {
        '5'
    } else if d == 6 {
        '6'
    } else if d == 7 {
        '7'
    } else if d == 8 {
        '8'
    } else {
        '9'
    }
}

fn push_digits(out: &mut String, n: u128)
    ensures
        final(out)@ == old(out)@ + nat_digits(n as nat),
    decreases n,
{
    if n >= 10 {
        push_digits(out, n / 10);
    }
    push_char(out, digit_to_char(n % 10));
    assert(out@ =~= old(out)@ + nat_digits(n as nat));
}

/// The decimal text of an integer.
pub fn int_text(v: i128) -> (r: String)
    requires
        v > i128::MIN,
    ensures
        r@ == int_digits(v as int),
{
    let mut out = String::new();
    if v < 0 {
        push_char(&mut out, '-');
        push_digits(&mut out, (-v) as u128);
    } else {
        push_digits(&mut out, v as u128);
    }
    assert(out@ =~= int_digits(v as int));
    out
}

} // verus!
