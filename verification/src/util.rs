//! Decimal rendering and digit counting, used to size and fill the numeric
//! columns of the long listing format, and the hidden-name test.
use vstd::prelude::*;
use vstd::arithmetic::div_mod::lemma_div_is_ordered;
use vstd::string::*;

verus! {

/// Number of decimal digits in the base-10 representation of `n`
/// (0 through 9 take one digit).
pub open spec fn num_digits(n: nat) -> nat
    decreases n,
{
    if n < 10 {
        1
    } else {
        1 + num_digits(n / 10)
    }
}

/// The character for one decimal digit.
pub open spec fn digit_char(d: nat) -> char {
    if d == 0 {
        '0'
    } else if d == 1 {
        '1'
    } else if d == 2 {
        '2'
    } else if d == 3 {
        '3'
    } else if d == 4 {
        '4'
    } else if d == 5 {
        '5'
    } else if d == 6 {
        '6'
    } else if d == 7 {
        '7'
    } else if d == 8 {
        '8'
    } else {
        '9'
    }
}

/// The base-10 representation of `n`, most significant digit first.
pub open spec fn dec_rep(n: nat) -> Seq<char>
    decreases n,
{
    if n < 10 {
        seq![digit_char(n)]
    } else {
        dec_rep(n / 10).push(digit_char(n % 10))
    }
}

/// `n` spaces.
pub open spec fn spaces(n: nat) -> Seq<char>
    decreases n,
{
    if n == 0 {
        Seq::empty()
    } else {
        spaces((n - 1) as nat).push(' ')
    }
}

/// `n` rendered in decimal and right-justified in a field of `width`
/// characters; a representation longer than `width` is not truncated.
pub open spec fn padded_dec(n: nat, width: nat) -> Seq<char> {
    if num_digits(n) < width {
        spaces((width - num_digits(n)) as nat) + dec_rep(n)
    } else {
        dec_rep(n)
    }
}

pub proof fn lemma_spaces_len(n: nat)
    ensures
        spaces(n).len() == n,
    decreases n,
{
    if n > 0 {
        lemma_spaces_len((n - 1) as nat);
    }
}

pub proof fn lemma_dec_rep_len(n: nat)
    ensures
        dec_rep(n).len() == num_digits(n),
    decreases n,
{
    if n >= 10 {
        lemma_dec_rep_len(n / 10);
    }
}

/// Digit counts grow with the number: a smaller value never needs a wider
/// column than a larger one.
pub proof fn lemma_num_digits_monotone(a: nat, b: nat)
    requires
        a <= b,
    ensures
        num_digits(a) <= num_digits(b),
    decreases b,
{
    if a >= 10 {
        lemma_div_is_ordered(a as int, b as int, 10);
        lemma_num_digits_monotone(a / 10, b / 10);
    }
}

/// The padded rendering fills the field exactly whenever the field was sized
/// for some value at least as large.
pub proof fn lemma_padded_dec_width(n: nat, m: nat)
    requires
        n <= m,
    ensures
        padded_dec(n, num_digits(m)).len() == num_digits(m),
{
    lemma_num_digits_monotone(n, m);
    lemma_dec_rep_len(n);
    if num_digits(n) < num_digits(m) {
        lemma_spaces_len((num_digits(m) - num_digits(n)) as nat);
    }
}

pub proof fn lemma_num_digits_u64_bound(n: nat)
    requires
        n <= u64::MAX,
    ensures
        num_digits(n) <= 20,
{
    assert(num_digits(u64::MAX as nat) == 20) by {
        reveal_with_fuel(num_digits, 21);
    }
    lemma_num_digits_monotone(n, u64::MAX as nat);
}

/// Number of decimal digits of `num`, e.g. 0-9 need 1, 10-99 need 2.
pub fn count_digits(num: u64) -> (r: usize)
    ensures
        r == num_digits(num as nat),
{
    proof {
        lemma_num_digits_u64_bound(num as nat);
    }
    let mut n: u64 = num;
    let mut d: usize = 1;
    while n >= 10
        invariant
            d >= 1,
            d + num_digits(n as nat) == 1 + num_digits(num as nat),
            num_digits(num as nat) <= 20,
        decreases n,
    {
        n = n / 10;
        d = d + 1;
    }
    d
}

/// The one-character string for a decimal digit.
fn digit_str(d: u64) -> (r: &'static str)
    requires
        d < 10,
    ensures
        r@ =~= seq![digit_char(d as nat)],
{
    proof {
        reveal_strlit("0");
        reveal_strlit("1");
        reveal_strlit("2");
        reveal_strlit("3");
        reveal_strlit("4");
        reveal_strlit("5");
        reveal_strlit("6");
        reveal_strlit("7");
        reveal_strlit("8");
        reveal_strlit("9");
    }
    if d == 0 {
        "0"
    } else if d == 1 {
        "1"
    } else if d == 2 {
        "2"
    } else if d == 3 {
        "3"
    } else if d == 4 {
        "4"
    } else if d == 5 {
        "5"
    } else if d == 6 {
        "6"
    } else if d == 7 {
        "7"
    } else if d == 8 {
        "8"
    } else {
        "9"
    }
}

/// Renders `n` in decimal.
pub fn fmt_u64(n: u64) -> (r: String)
    ensures
        r@ =~= dec_rep(n as nat),
    decreases n,
{
    if n < 10 {
        String::from_str(digit_str(n))
    } else {
        let mut s = fmt_u64(n / 10);
        s.append(digit_str(n % 10));
        s
    }
}

/// Renders `n` in decimal, right-justified with spaces to `width` characters.
pub fn fmt_u64_padded(n: u64, width: usize) -> (r: String)
    ensures
        r@ =~= padded_dec(n as nat, width as nat),
{
    let digits = count_digits(n);
    let mut s = String::new();
    if digits < width {
        let mut pad: usize = width - digits;
        proof {
            reveal_strlit(" ");
        }
        while pad > 0
            invariant
                s@ =~= spaces((width - digits - pad) as nat),
                pad <= width - digits,
                " "@ =~= seq![' '],
            decreases pad,
        {
            s.append(" ");
            pad = pad - 1;
        }
    }
    let d = fmt_u64(n);
    let mut out = s;
    out.append(d.as_str());
    out
}

/// A name is hidden when it begins with a dot.
pub open spec fn hidden_name(name: Seq<char>) -> bool {
    name.len() > 0 && name[0] == '.'
}

/// Tests whether a file name denotes a hidden entry.
pub fn is_hidden(name: &str) -> (r: bool)
    ensures
        r == hidden_name(name@),
{
    if name.unicode_len() == 0 {
        false
    } else {
        name.get_char(0) == '.'
    }
}

} // verus!
