//! Decimal rendering and reading of line numbers, proved inverse to each
//! other.

use vstd::prelude::*;

verus! {

/// The digit character for a value between 0 and 9.
pub open spec fn digit_char(d: int) -> char {
    if d == 0 {
        '0'
    } else if d == 1 {
        '1'
    } else if d == 2 {
        '2'
    } else if d == 3 {
        '3'
    } else if d == 4 {
        '4'
    } else if d == 5 {
        '5'
    } else if d == 6 {
        '6'
    } else if d == 7 {
        '7'
    } else if d == 8 {
        '8'
    } else {
        '9'
    }
}

/// Whether `c` is a decimal digit.
pub open spec fn is_digit_char(c: char) -> bool {
    48 <= c as int <= 57
}

/// The value of a digit character.
pub open spec fn digit_val(c: char) -> int {
    c as int - 48
}

/// The decimal digits of `n`, most significant first; empty when `n <= 0`.
pub open spec fn spec_decimal(n: int) -> Seq<char>
    decreases n,
{
    if n <= 0 {
        Seq::empty()
    } else {
        spec_decimal(n / 10).push(digit_char(n % 10))
    }
}

/// The decimal rendering of a non-negative number: `0` renders as one digit.
pub open spec fn spec_usize_decimal(n: int) -> Seq<char> {
    if n == 0 {
        seq!['0']
    } else {
        spec_decimal(n)
    }
}

/// The value of a digit string, read most significant first.
pub open spec fn spec_parse_decimal(s: Seq<char>) -> int
    decreases s.len(),
{
    if s.len() == 0 {
        0
    } else {
        spec_parse_decimal(s.drop_last()) * 10 + digit_val(s.last())
    }
}

/// Index of the first character that is not a digit, or `s.len()`.
pub open spec fn digits_end(s: Seq<char>) -> int
    decreases s.len(),
{
    if s.len() == 0 {
        0
    } else if !is_digit_char(s[0]) {
        0
    } else {
        1 + digits_end(s.drop_first())
    }
}

/// `digits_end` is pinned down by its characteristic properties.
pub proof fn lemma_digits_end_unique(s: Seq<char>, k: int)
    requires
        0 <= k <= s.len(),
        forall|j: int| 0 <= j < k ==> is_digit_char(#[trigger] s[j]),
        k < s.len() ==> !is_digit_char(s[k]),
    ensures
        digits_end(s) == k,
    decreases s.len(),
{
    if s.len() == 0 {
    } else if !is_digit_char(s[0]) {
        assert(k == 0);
    } else {
        assert(k >= 1);
        assert forall|j: int| 0 <= j < k - 1 implies is_digit_char(
            #[trigger] s.drop_first()[j],
        ) by {
            assert(s.drop_first()[j] == s[j + 1]);
        }
        if k - 1 < s.drop_first().len() {
            assert(s.drop_first()[k - 1] == s[k as int]);
        }
        lemma_digits_end_unique(s.drop_first(), k - 1);
    }
}

/// The decimal rendering of a positive number is a non-empty digit string
/// that reads back as the same number.
pub proof fn lemma_decimal_props(n: int)
    requires
        n >= 1,
    ensures
        spec_decimal(n).len() >= 1,
        forall|j: int|
            0 <= j < spec_decimal(n).len() ==> is_digit_char(#[trigger] spec_decimal(n)[j]),
        spec_parse_decimal(spec_decimal(n)) == n,
    decreases n,
{
    if n < 10 {
        assert(spec_decimal(n / 10) =~= Seq::<char>::empty());
        assert(spec_decimal(n) =~= seq![digit_char(n)]);
        assert(spec_decimal(n).drop_last() =~= Seq::<char>::empty());
        assert(spec_decimal(n).last() == digit_char(n));
        assert(digit_val(digit_char(n)) == n);
        assert(spec_parse_decimal(spec_decimal(n)) == spec_parse_decimal(
            spec_decimal(n).drop_last(),
        ) * 10 + digit_val(spec_decimal(n).last()));
        assert(spec_parse_decimal(Seq::<char>::empty()) == 0);
    } else {
        lemma_decimal_props(n / 10);
        let s = spec_decimal(n);
        assert(s == spec_decimal(n / 10).push(digit_char(n % 10)));
        assert(s.drop_last() =~= spec_decimal(n / 10));
        assert(s.last() == digit_char(n % 10));
        assert(digit_val(digit_char(n % 10)) == n % 10);
        assert((n / 10) * 10 + n % 10 == n);
        assert forall|j: int| 0 <= j < s.len() implies is_digit_char(#[trigger] s[j]) by {
            if j < s.len() - 1 {
                assert(s[j] == spec_decimal(n / 10)[j]);
            }
        }
    }
}

/// A single digit as text.
fn digit_str(d: usize) -> (r: &'static str)
    requires
        d < 10,
    ensures
        r@ == seq![digit_char(d as int)],
{
    proof {
        reveal_strlit("0");
        reveal_strlit("1");
        reveal_strlit("2");
        reveal_strlit("3");
        reveal_strlit("4");
        reveal_strlit("5");
        reveal_strlit("6");
        reveal_strlit("7");
        reveal_strlit("8");
        reveal_strlit("9");
    }
    let r = if d == 0 {
        "0"
    } else if d == 1 {
        "1"
    } else if d == 2 {
        "2"
    } else if d == 3 {
        "3"
    } else if d == 4 {
        "4"
    } else if d == 5 {
        "5"
    } else if d == 6 {
        "6"
    } else if d == 7 {
        "7"
    } else if d == 8 {
        "8"
    } else {
        "9"
    };
    proof {
        assert(r@ =~= seq![digit_char(d as int)]);
    }
    r
}

/// Render `n` in decimal.
pub fn usize_to_decimal(n: usize) -> (r: String)
    ensures
        r@ == spec_usize_decimal(n as int),
    decreases n,
{
    if n < 10 {
        let r = String::from_str(digit_str(n));
        proof {
            if n >= 1 {
                assert(spec_decimal(n as int / 10) =~= Seq::<char>::empty());
                assert(spec_decimal(n as int) =~= seq![digit_char(n as int)]);
            }
            assert(r@ =~= spec_usize_decimal(n as int));
        }
        r
    } else {
        let mut r = usize_to_decimal(n / 10);
        r.append(digit_str(n % 10));
        proof {
            assert(n as int / 10 >= 1);
            assert(spec_usize_decimal(n as int / 10) == spec_decimal(n as int / 10));
            assert(r@ =~= spec_decimal(n as int / 10).push(digit_char(n as int % 10)));
            assert(r@ =~= spec_usize_decimal(n as int));
        }
        r
    }
}

/// The digit value of `c`, when it has one.
pub fn char_digit_value(c: char) -> (r: Option<usize>)
    ensures
        (match r {
            Option::Some(v) => is_digit_char(c) && v == digit_val(c),
            Option::None => !is_digit_char(c),
        }),
{
    let x = c as u32;
    if 48 <= x && x <= 57 {
        Option::Some((x - 48) as usize)
    } else {
        Option::None
    }
}

/// Whether `c` is a decimal digit.
pub fn char_is_digit(c: char) -> (r: bool)
    ensures
        r == is_digit_char(c),
{
    let x = c as u32;
    48 <= x && x <= 57
}

} // verus!
