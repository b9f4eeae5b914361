use vstd::prelude::*;

verus! {

pub open spec fn is_digit_char(c: char) -> bool {
    0x30 <= c as u32 <= 0x39
}

/// Numeric value of a digit character.
pub open spec fn digit_val(c: char) -> nat {
    ((c as u32) - 0x30) as nat
}

/// The digit character for a value below ten.
pub open spec fn digit_char(d: int) -> char {
    if d == 0 {
        '0'
    } else if d == 1 {
        '1'
    } else if d == 2 {
        '2'
    } else if d == 3 {
        '3'
    } else if d == 4 {
        '4'
    } else if d == 5 {
        '5'
    } else if d == 6 {
        '6'
    } else if d == 7 {
        '7'
    } else if d == 8 {
        '8'
    } else {
        '9'
    }
}

/// The decimal digit string of `n`, most significant digit first.
pub open spec fn dec_digits(n: nat) -> Seq<char>
    decreases n,
{
    if n < 10 {
        seq![digit_char(n as int)]
    } else {
        dec_digits(n / 10).push(digit_char((n % 10) as int))
    }
}

/// The decimal digit string of a signed number: a minus sign for negative
/// values, then the digits of the magnitude.
pub open spec fn signed_dec_digits(n: int) -> Seq<char> {
    if n < 0 {
        seq!['-'] + dec_digits((-n) as nat)
    } else {
        dec_digits(n as nat)
    }
}

pub open spec fn all_digits(s: Seq<char>) -> bool {
    s.len() > 0 && forall|i: int| 0 <= i < s.len() ==> is_digit_char(#[trigger] s[i])
}

/// The number denoted by a digit string.
pub open spec fn dec_val(s: Seq<char>) -> nat
    decreases s.len(),
{
    if s.len() == 0 {
        0
    } else {
        dec_val(s.drop_last()) * 10 + digit_val(s.last())
    }
}

/// What a plain digit string denotes, when it is one and its value fits.
pub open spec fn spec_parse_digits(s: Seq<char>) -> Option<u64> {
    if all_digits(s) && dec_val(s) <= u64::MAX {
        Some(dec_val(s) as u64)
    } else {
        None
    }
}

/// What `str::parse::<u64>` accepts: a digit string, optionally preceded by
/// a single plus sign.
pub open spec fn spec_parse_u64(s: Seq<char>) -> Option<u64> {
    if s.len() > 0 && s[0] == '+' {
        spec_parse_digits(s.drop_first())
    } else {
        spec_parse_digits(s)
    }
}

/// What `str::parse::<i64>` accepts: a digit string, optionally preceded by
/// a single plus or minus sign, denoting a value in the range of `i64`.
pub open spec fn spec_parse_i64(s: Seq<char>) -> Option<i64> {
    if s.len() > 0 && s[0] == '-' {
        let mag = s.drop_first();
        if all_digits(mag) && dec_val(mag) <= 0x8000_0000_0000_0000 {
            Some((-(dec_val(mag) as int)) as i64)
        } else {
            None
        }
    } else {
        let mag = if s.len() > 0 && s[0] == '+' {
            s.drop_first()
        } else {
            s
        };
        if all_digits(mag) && dec_val(mag) <= i64::MAX {
            Some(dec_val(mag) as i64)
        } else {
            None
        }
    }
}

/// As `spec_parse_i64`, with the range of `i32`.
pub open spec fn spec_parse_i32(s: Seq<char>) -> Option<i32> {
    if s.len() > 0 && s[0] == '-' {
        let mag = s.drop_first();
        if all_digits(mag) && dec_val(mag) <= 0x8000_0000 {
            Some((-(dec_val(mag) as int)) as i32)
        } else {
            None
        }
    } else {
        let mag = if s.len() > 0 && s[0] == '+' {
            s.drop_first()
        } else {
            s
        };
        if all_digits(mag) && dec_val(mag) <= i32::MAX {
            Some(dec_val(mag) as i32)
        } else {
            None
        }
    }
}

/// Printing then reading a decimal number gives the number back.
pub proof fn lemma_dec_digits_val(n: nat)
    ensures
        all_digits(dec_digits(n)),
        dec_val(dec_digits(n)) == n,
        dec_digits(n).len() >= 1,
    decreases n,
{
    if n < 10 {
        assert(seq![digit_char(n as int)].drop_last() =~= Seq::<char>::empty());
        assert(dec_val(Seq::<char>::empty()) == 0);
        assert(dec_val(dec_digits(n)) == digit_val(digit_char(n as int)));
    } else {
        lemma_dec_digits_val(n / 10);
        let d = digit_char((n % 10) as int);
        assert(dec_digits(n) == dec_digits(n / 10).push(d));
        assert(dec_digits(n / 10).push(d).drop_last() =~= dec_digits(n / 10));
        assert(dec_digits(n).last() == d);
        assert(digit_val(d) == n % 10);
        assert(dec_val(dec_digits(n)) == (n / 10) * 10 + (n % 10));
        assert((n / 10) * 10 + (n % 10) == n) by {
            vstd::arithmetic::div_mod::lemma_fundamental_div_mod(n as int, 10);
        }
        assert(dec_val(dec_digits(n)) == n);
        assert(forall|i: int|
            0 <= i < dec_digits(n).len() ==> is_digit_char(#[trigger] dec_digits(n)[i]));
    }
}

/// Appending digits to a digit string never shrinks its value.
proof fn lemma_dec_val_prefix(s: Seq<char>, k: int)
    requires
        0 <= k <= s.len(),
    ensures
        dec_val(s.take(k)) <= dec_val(s),
    decreases s.len() - k,
{
    if k < s.len() {
        assert(s.take(k + 1).drop_last() =~= s.take(k));
        assert(dec_val(s.take(k + 1)) == dec_val(s.take(k)) * 10 + digit_val(s.take(k + 1).last()));
        lemma_dec_val_prefix(s, k + 1);
    } else {
        assert(s.take(k) =~= s);
    }
}

fn digit_to_str(d: u64) -> (s: &'static str)
    requires
        d < 10,
    ensures
        s@ == seq![digit_char(d as int)],
{
    proof {
        reveal_strlit("0");
        reveal_strlit("1");
        reveal_strlit("2");
        reveal_strlit("3");
        reveal_strlit("4");
        reveal_strlit("5");
        reveal_strlit("6");
        reveal_strlit("7");
        reveal_strlit("8");
        reveal_strlit("9");
        assert("0"@ =~= seq![digit_char(0)]);
        assert("1"@ =~= seq![digit_char(1)]);
        assert("2"@ =~= seq![digit_char(2)]);
        assert("3"@ =~= seq![digit_char(3)]);
        assert("4"@ =~= seq![digit_char(4)]);
        assert("5"@ =~= seq![digit_char(5)]);
        assert("6"@ =~= seq![digit_char(6)]);
        assert("7"@ =~= seq![digit_char(7)]);
        assert("8"@ =~= seq![digit_char(8)]);
        assert("9"@ =~= seq![digit_char(9)]);
    }
    match d {
        0 => "0",
        1 => "1",
        2 => "2",
        3 => "3",
        4 => "4",
        5 => "5",
        6 => "6",
        7 => "7",
        8 => "8",
        _ => "9",
    }
}

pub fn u64_to_string(n: u64) -> (s: String)
    ensures
        s@ == dec_digits(n as nat),
    decreases n,
{
    if n < 10 {
        String::from_str(digit_to_str(n))
    } else {
        let mut s = u64_to_string(n / 10);
        s.append(digit_to_str(n % 10));
        proof {
            assert(dec_digits((n as nat) / 10).push(digit_char(((n as nat) % 10) as int))
                =~= dec_digits((n as nat) / 10) + seq![digit_char(((n as nat) % 10) as int)]);
        }
        s
    }
}

pub fn i64_to_string(n: i64) -> (s: String)
    ensures
        s@ == signed_dec_digits(n as int),
{
    if n >= 0 {
        u64_to_string(n as u64)
    } else {
        let mag: u64 = if n == -9223372036854775807i64 - 1 {
            9223372036854775808u64
        } else {
            (-n) as u64
        };
        let mut s = String::from_str("-");
        let digits = u64_to_string(mag);
        s.append(digits.as_str());
        proof {
            reveal_strlit("-");
            assert("-"@ =~= seq!['-']);
        }
        s
    }
}

/// Reads a plain digit string.
fn parse_digits_str(s: &str) -> (r: Option<u64>)
    ensures
        r == spec_parse_digits(s@),
{
    let len = s.unicode_len();
    if len == 0 {
        return None;
    }
    let mut acc: u64 = 0;
    let mut i: usize = 0;
    while i < len
        invariant
            0 <= i <= len,
            len == s@.len(),
            all_digits(s@.take(i as int)) || i == 0,
            acc == dec_val(s@.take(i as int)),
        decreases len - i,
    {
        let c = s.get_char(i);
        let u = c as u32;
        if u < 0x30 || u > 0x39 {
            return None;
        }
        let d = (u - 0x30) as u64;
        if acc > (u64::MAX - d) / 10 {
            proof {
                assert(s@.take(i as int + 1).drop_last() =~= s@.take(i as int));
                assert(dec_val(s@.take(i as int + 1)) > u64::MAX);
                lemma_dec_val_prefix(s@, i as int + 1);
                if all_digits(s@) {
                    assert(dec_val(s@) > u64::MAX);
                }
            }
            return None;
        }
        acc = acc * 10 + d;
        proof {
            assert(s@.take(i as int + 1).drop_last() =~= s@.take(i as int));
        }
        i = i + 1;
    }
    proof {
        assert(s@.take(len as int) =~= s@);
    }
    Some(acc)
}

/// Reads an unsigned decimal number, as `str::parse::<u64>` does: digits,
/// optionally preceded by a plus sign.
pub fn parse_u64_str(s: &str) -> (r: Option<u64>)
    ensures
        r == spec_parse_u64(s@),
{
    let len = s.unicode_len();
    if len > 0 && s.get_char(0) == '+' {
        let mag_str = s.substring_char(1, len);
        proof {
            assert(mag_str@ =~= s@.drop_first());
        }
        parse_digits_str(mag_str)
    } else {
        parse_digits_str(s)
    }
}

/// Reads a signed decimal number, as `str::parse::<i64>` does on a digit
/// string with an optional leading plus or minus sign.
pub fn parse_i64_str(s: &str) -> (r: Option<i64>)
    ensures
        r == spec_parse_i64(s@),
{
    let len = s.unicode_len();
    if len > 0 && s.get_char(0) == '-' {
        let mag_str = s.substring_char(1, len);
        proof {
            assert(mag_str@ =~= s@.drop_first());
        }
        match parse_digits_str(mag_str) {
            Some(mag) => {
                if mag <= 9223372036854775808u64 {
                    if mag == 9223372036854775808u64 {
                        Some(-9223372036854775807i64 - 1)
                    } else {
                        Some(-(mag as i64))
                    }
                } else {
                    None
                }
            },
            None => {
                // A magnitude beyond `u64` is far beyond `i64` as well.
                proof {
                    if all_digits(s@.drop_first()) && dec_val(s@.drop_first())
                        <= 0x8000_0000_0000_0000 {
                        assert(spec_parse_digits(mag_str@) is Some);
                    }
                }
                None
            },
        }
    } else {
        let mag_str = if len > 0 && s.get_char(0) == '+' {
            s.substring_char(1, len)
        } else {
            s
        };
        proof {
            if s@.len() > 0 && s@[0] == '+' {
                assert(mag_str@ =~= s@.drop_first());
            }
        }
        match parse_digits_str(mag_str) {
            Some(v) => {
                if v <= i64::MAX as u64 {
                    Some(v as i64)
                } else {
                    None
                }
            },
            None => None,
        }
    }
}

/// Reads a signed decimal number, as `str::parse::<i32>` does.
pub fn parse_i32_str(s: &str) -> (r: Option<i32>)
    ensures
        r == spec_parse_i32(s@),
{
    let len = s.unicode_len();
    if len > 0 && s.get_char(0) == '-' {
        let mag_str = s.substring_char(1, len);
        proof {
            assert(mag_str@ =~= s@.drop_first());
        }
        match parse_digits_str(mag_str) {
            Some(mag) => {
                if mag <= 0x8000_0000u64 {
                    if mag == 0x8000_0000u64 {
                        Some(-2147483647i32 - 1)
                    } else {
                        Some(-(mag as i32))
                    }
                } else {
                    None
                }
            },
            None => {
                proof {
                    if all_digits(s@.drop_first()) && dec_val(s@.drop_first()) <= 0x8000_0000 {
                        assert(spec_parse_digits(mag_str@) is Some);
                    }
                }
                None
            },
        }
    } else {
        let mag_str = if len > 0 && s.get_char(0) == '+' {
            s.substring_char(1, len)
        } else {
            s
        };
        proof {
            if s@.len() > 0 && s@[0] == '+' {
                assert(mag_str@ =~= s@.drop_first());
            }
        }
        match parse_digits_str(mag_str) {
            Some(v) => {
                if v <= i32::MAX as u64 {
                    Some(v as i32)
                } else {
                    None
                }
            },
            None => None,
        }
    }
}

/// Reading back what `u64_to_string` printed gives the number.
pub proof fn lemma_parse_u64_round_trip(n: u64)
    ensures
        spec_parse_u64(dec_digits(n as nat)) == Some(n),
{
    lemma_dec_digits_val(n as nat);
    assert(dec_digits(n as nat)[0] != '+') by {
        assert(is_digit_char(dec_digits(n as nat)[0]));
    }
}

/// Reading back what `i64_to_string` printed gives the number.
pub proof fn lemma_parse_i64_round_trip(n: i64)
    ensures
        spec_parse_i64(signed_dec_digits(n as int)) == Some(n),
{
    if n < 0 {
        let s = seq!['-'] + dec_digits((-n) as nat);
        assert(s[0] == '-');
        assert(s.drop_first() =~= dec_digits((-n) as nat));
        lemma_dec_digits_val((-n) as nat);
    } else {
        lemma_dec_digits_val(n as nat);
        let s = dec_digits(n as nat);
        assert(s[0] != '-' && s[0] != '+') by {
            assert(is_digit_char(s[0]));
        }
    }
}

/// Reading back a printed `i32` (printed through `i64_to_string`) gives the
/// number.
pub proof fn lemma_parse_i32_round_trip(n: i32)
    ensures
        spec_parse_i32(signed_dec_digits(n as int)) == Some(n),
{
    if n < 0 {
        let s = seq!['-'] + dec_digits((-n) as nat);
        assert(s[0] == '-');
        assert(s.drop_first() =~= dec_digits((-n) as nat));
        lemma_dec_digits_val((-n) as nat);
    } else {
        lemma_dec_digits_val(n as nat);
        let s = dec_digits(n as nat);
        assert(s[0] != '-' && s[0] != '+') by {
            assert(is_digit_char(s[0]));
        }
    }
}

} // verus!
