use vstd::prelude::*;

verus! {

/// Whether `c` is one of the ASCII digits `0` to `9`.
pub open spec fn is_digit(c: char) -> bool {
    '0' <= c && c <= '9'
}

/// The numeric value of a digit character.
pub open spec fn digit_value(c: char) -> nat {
    ((c as u32) - ('0' as u32)) as nat
}

/// The character of a single decimal digit `d < 10`.
pub open spec fn digit_char(d: nat) -> char {
    ((d + 48) as u8) as char
}

/// Whether every character of `s` is a digit.
pub open spec fn all_digits(s: Seq<char>) -> bool {
    forall|i: int| 0 <= i < s.len() ==> is_digit(#[trigger] s[i])
}

/// The value of a string of digits read in base ten, most significant first.
pub open spec fn digits_value(s: Seq<char>) -> nat
    decreases s.len(),
{
    if s.len() == 0 {
        0
    } else {
        digits_value(s.drop_last()) * 10 + digit_value(s.last())
    }
}

/// Whether `s` is a valid price text: one or more decimal digits whose value
/// fits in an unsigned 128-bit integer. Leading zeros are allowed.
pub open spec fn is_price_text(s: Seq<char>) -> bool {
    s.len() > 0 && all_digits(s) && digits_value(s) <= u128::MAX
}

/// The canonical decimal form of `n`: no sign, no leading zeros, `"0"` for zero.
pub open spec fn decimal(n: nat) -> Seq<char>
    decreases n,
{
    if n < 10 {
        seq![digit_char(n)]
    } else {
        decimal(n / 10).push(digit_char(n % 10))
    }
}

/// Parses the text form of a price. Returns `None` exactly when the text is
/// empty, holds a character other than a digit, or has a value above
/// `u128::MAX`.
pub fn parse_price(s: &str) -> (r: Option<u128>)
    ensures
        r.is_some() == is_price_text(s@),
        r matches Some(v) ==> v as nat == digits_value(s@),
{
    let n = s.unicode_len();
    if n == 0 {
        return None;
    }
    let ghost d = s@;
    let mut value: u128 = 0;
    let mut overflow = false;
    let mut i: usize = 0;
    while i < n
        invariant
            i <= n,
            n == d.len(),
            d == s@,
            all_digits(d.subrange(0, i as int)),
            !overflow ==> value as nat == digits_value(d.subrange(0, i as int)),
            overflow ==> digits_value(d.subrange(0, i as int)) > u128::MAX,
        decreases n - i,
    {
        let c = s.get_char(i);
        if !('0' <= c && c <= '9') {
            assert(d[i as int] == c);
            assert(!all_digits(d));
            return None;
        }
        let dv = (c as u32 - '0' as u32) as u128;
        let ghost pre = d.subrange(0, i as int);
        let ghost next = d.subrange(0, i + 1);
        assert(next.drop_last() =~= pre);
        assert(next.last() == c);
        assert(digits_value(next) == digits_value(pre) * 10 + dv);
        if !overflow {
            if value > (u128::MAX - dv) / 10 {
                overflow = true;
                assert(digits_value(next) > u128::MAX) by (nonlinear_arith)
                    requires
                        value > (u128::MAX - dv) / 10,
                        digits_value(next) == value * 10 + dv,
                        dv <= 9,
                ;
            } else {
                assert(value * 10 + dv <= u128::MAX) by (nonlinear_arith)
                    requires
                        value <= (u128::MAX - dv) / 10,
                        dv <= 9,
                ;
                value = value * 10 + dv;
            }
        } else {
            assert(digits_value(next) >= digits_value(pre));
        }
        assert(all_digits(next)) by {
            assert forall|j: int| 0 <= j < next.len() implies is_digit(#[trigger] next[j]) by {
                if j < pre.len() {
                    assert(next[j] == pre[j]);
                }
            }
        }
        i = i + 1;
    }
    assert(d.subrange(0, n as int) =~= d);
    if overflow {
        None
    } else {
        Some(value)
    }
}

/// Relies on `String::push`: the character is appended at the end.
pub assume_specification[ String::push ](s: &mut String, ch: char)
    ensures
        final(s)@ == old(s)@.push(ch),
;

/// Appends the canonical decimal form of `v` to `out`.
fn push_decimal(out: &mut String, v: u128)
    ensures
        final(out)@ == old(out)@ + decimal(v as nat),
    decreases v,
{
    if v >= 10 {
        push_decimal(out, v / 10);
    }
    let d: u8 = (v % 10) as u8;
    out.push((d + 48) as char);
    assert(decimal(v as nat) == if v < 10 {
        seq![digit_char(v as nat)]
    } else {
        decimal((v / 10) as nat).push(digit_char((v % 10) as nat))
    });
}

/// The text form of a price: its canonical decimal digits.
pub fn price_to_string(p: u128) -> (r: String)
    ensures
        r@ == decimal(p as nat),
{
    let mut out = String::new();
    push_decimal(&mut out, p);
    out
}

proof fn lemma_digit_char(d: nat)
    requires
        d < 10,
    ensures
        is_digit(digit_char(d)),
        digit_value(digit_char(d)) == d,
{
    let b = (d + 48) as u8;
    assert(b as char as u32 == b as u32);
}

/// The canonical decimal form of a number is a non-empty string of digits
/// whose value is that number.
pub proof fn lemma_decimal_digits(n: nat)
    ensures
        decimal(n).len() > 0,
        all_digits(decimal(n)),
        digits_value(decimal(n)) == n,
    decreases n,
{
    if n < 10 {
        lemma_digit_char(n);
        assert(decimal(n).drop_last() =~= Seq::<char>::empty());
        assert(digits_value(Seq::<char>::empty()) == 0);
    } else {
        lemma_decimal_digits(n / 10);
        lemma_digit_char(n % 10);
        let s = decimal(n);
        assert(s.drop_last() =~= decimal(n / 10));
        assert(digits_value(s) == digits_value(decimal(n / 10)) * 10 + digit_value(s.last()));
        assert((n / 10) * 10 + n % 10 == n) by (nonlinear_arith);
        assert(all_digits(s)) by {
            assert forall|i: int| 0 <= i < s.len() implies is_digit(#[trigger] s[i]) by {
                if i < s.len() - 1 {
                    assert(s[i] == decimal(n / 10)[i]);
                }
            }
        }
    }
}

/// Printing a price and parsing the text back gives the same price.
pub proof fn lemma_price_round_trip(p: u128)
    ensures
        is_price_text(decimal(p as nat)),
        digits_value(decimal(p as nat)) == p,
{
    lemma_decimal_digits(p as nat);
}

} // verus!
