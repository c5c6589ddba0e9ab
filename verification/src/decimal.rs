//! Canonical decimal notation for version numbers.
//!
//! A number's canonical notation has no leading zero (except for `0` itself).
//! Formatting always produces the canonical notation, and parsing accepts
//! nothing else, so each of the two is exactly the other's inverse.

use vstd::prelude::*;

use crate::strutil::push_char;

verus! {

/// Is `c` one of the ten decimal digit characters?
pub open spec fn is_digit_char(c: char) -> bool {
    48 <= (c as u32) <= 57
}

/// The numeric value of a digit character.
pub open spec fn digit_val(c: char) -> nat {
    ((c as u32) - 48) as nat
}

/// The digit character for a value below ten.
pub open spec fn digit_char(d: nat) -> char {
    if d == 0 {
        '0'
    } else if d == 1 {
        '1'
    } else if d == 2 {
        '2'
    } else if d == 3 {
        '3'
    } else if d == 4 {
        '4'
    } else if d == 5 {
        '5'
    } else if d == 6 {
        '6'
    } else if d == 7 {
        '7'
    } else if d == 8 {
        '8'
    } else {
        '9'
    }
}

/// The canonical decimal notation of `n`, most significant digit first.
pub open spec fn dec_digits(n: nat) -> Seq<char>
    decreases n,
{
    if n < 10 {
        seq![digit_char(n)]
    } else {
        dec_digits(n / 10).push(digit_char(n % 10))
    }
}

/// The numeric value of a digit sequence, by Horner's rule.
pub open spec fn dec_val(s: Seq<char>) -> nat
    decreases s.len(),
{
    if s.len() == 0 {
        0
    } else {
        dec_val(s.drop_last()) * 10 + digit_val(s.last())
    }
}

/// Is every character of `s` a decimal digit?
pub open spec fn all_digits(s: Seq<char>) -> bool {
    forall|i: int| 0 <= i < s.len() ==> is_digit_char(s[i])
}

/// Is `s` the canonical decimal notation of some number?
pub open spec fn canonical_dec(s: Seq<char>) -> bool {
    &&& all_digits(s)
    &&& s.len() > 0
    &&& (s.len() > 1 ==> s[0] != '0')
}

/// Ten to the `k`.
pub open spec fn pow10(k: nat) -> nat
    decreases k,
{
    if k == 0 {
        1
    } else {
        10 * pow10((k - 1) as nat)
    }
}

proof fn lemma_digit_char_val(d: nat)
    requires
        d < 10,
    ensures
        is_digit_char(digit_char(d)),
        digit_val(digit_char(d)) == d,
{
}

proof fn lemma_digit_char_of_val(c: char)
    requires
        is_digit_char(c),
    ensures
        digit_char(digit_val(c)) == c,
{
    assert(digit_char(digit_val(c)) == c) by {
        let v = c as u32;
        assert(48 <= v <= 57);
        if v == 48 {
            assert(c == '0');
        } else if v == 49 {
            assert(c == '1');
        } else if v == 50 {
            assert(c == '2');
        } else if v == 51 {
            assert(c == '3');
        } else if v == 52 {
            assert(c == '4');
        } else if v == 53 {
            assert(c == '5');
        } else if v == 54 {
            assert(c == '6');
        } else if v == 55 {
            assert(c == '7');
        } else if v == 56 {
            assert(c == '8');
        } else {
            assert(c == '9');
        }
    }
}

/// A decimal notation has at least one character.
proof fn lemma_dec_digits_nonempty(n: nat)
    ensures
        dec_digits(n).len() >= 1,
    decreases n,
{
    if n >= 10 {
        lemma_dec_digits_nonempty(n / 10);
    }
}

/// The notation of a positive number does not start with a zero.
proof fn lemma_dec_digits_first_nonzero(n: nat)
    requires
        n >= 1,
    ensures
        dec_digits(n)[0] != '0',
    decreases n,
{
    if n < 10 {
        lemma_digit_char_val(n);
        assert(digit_val(dec_digits(n)[0]) == n);
        assert(digit_val('0') == 0);
    } else {
        lemma_dec_digits_first_nonzero(n / 10);
        lemma_dec_digits_nonempty(n / 10);
        assert(dec_digits(n)[0] == dec_digits(n / 10)[0]);
    }
}

/// Formatting produces the canonical notation, and its value is the number
/// formatted.
pub proof fn lemma_dec_digits_canonical(n: nat)
    ensures
        canonical_dec(dec_digits(n)),
        dec_val(dec_digits(n)) == n,
    decreases n,
{
    if n < 10 {
        lemma_digit_char_val(n);
        let s = dec_digits(n);
        assert(s == seq![digit_char(n)]);
        assert(s.drop_last() =~= Seq::<char>::empty());
        assert(dec_val(Seq::<char>::empty()) == 0);
        assert(dec_val(s) == 0 * 10 + digit_val(digit_char(n)));
        if n >= 1 {
            lemma_dec_digits_first_nonzero(n);
        }
    } else {
        lemma_dec_digits_canonical(n / 10);
        lemma_digit_char_val(n % 10);
        lemma_dec_digits_first_nonzero(n);
        let s = dec_digits(n);
        let head = dec_digits(n / 10);
        assert(s == head.push(digit_char(n % 10)));
        assert(s.drop_last() =~= head);
        assert(dec_val(s) == dec_val(head) * 10 + digit_val(digit_char(n % 10)));
        assert((n / 10) * 10 + n % 10 == n) by {
            vstd::arithmetic::div_mod::lemma_fundamental_div_mod(n as int, 10);
        }
    }
}

/// The value of a digit string with a nonzero first digit is at least one.
proof fn lemma_dec_val_nonzero(s: Seq<char>)
    requires
        all_digits(s),
        s.len() > 0,
        s[0] != '0',
    ensures
        dec_val(s) >= 1,
    decreases s.len(),
{
    if s.len() == 1 {
        assert(digit_val(s[0]) >= 1) by {
            lemma_digit_char_of_val(s[0]);
        }
    } else {
        let head = s.drop_last();
        assert(head[0] == s[0]);
        lemma_dec_val_nonzero(head);
    }
}

/// Parsing a canonical notation and formatting the value gives the notation
/// back: the two directions of the codec are inverse.
pub proof fn lemma_canonical_unparse(s: Seq<char>)
    requires
        canonical_dec(s),
    ensures
        dec_digits(dec_val(s)) == s,
    decreases s.len(),
{
    if s.len() == 1 {
        assert(digit_val(s[0]) < 10) by {
            lemma_digit_char_of_val(s[0]);
        }
        assert(s.drop_last() =~= Seq::<char>::empty());
        assert(dec_val(Seq::<char>::empty()) == 0);
        assert(dec_val(s) == 0 * 10 + digit_val(s.last()));
        assert(dec_val(s) == digit_val(s[0]));
        lemma_digit_char_of_val(s[0]);
        assert(dec_digits(dec_val(s)) =~= s);
    } else {
        let head = s.drop_last();
        let d = digit_val(s.last());
        assert(head[0] == s[0]);
        lemma_canonical_unparse(head);
        lemma_dec_val_nonzero(head);
        assert(d < 10) by {
            lemma_digit_char_of_val(s.last());
        }
        let v = dec_val(s);
        assert(v == dec_val(head) * 10 + d);
        assert(v >= 10) by {
            assert(dec_val(head) >= 1);
        }
        assert(v / 10 == dec_val(head) && v % 10 == d) by {
            vstd::arithmetic::div_mod::lemma_fundamental_div_mod_converse(
                v as int,
                10,
                dec_val(head) as int,
                d as int,
            );
        }
        lemma_digit_char_of_val(s.last());
        assert(dec_digits(v) == dec_digits(dec_val(head)).push(digit_char(d)));
        assert(dec_digits(v) =~= s);
    }
}

/// A number below ten to the `k` has at most `k` digits.
pub proof fn lemma_dec_digits_len(n: nat, k: nat)
    requires
        1 <= k,
        n < pow10(k),
    ensures
        dec_digits(n).len() <= k,
    decreases k,
{
    if n < 10 {
    } else {
        assert(k >= 2) by {
            if k == 1 {
                assert(pow10(1) == 10 * pow10(0));
            }
        }
        assert(pow10(k) == 10 * pow10((k - 1) as nat));
        assert(n / 10 < pow10((k - 1) as nat)) by {
            vstd::arithmetic::div_mod::lemma_fundamental_div_mod(n as int, 10);
        }
        lemma_dec_digits_len(n / 10, (k - 1) as nat);
    }
}

/// The digit character for a value below ten, as executable code.
fn digit_to_char(d: u32) -> (c: char)
    requires
        d < 10,
    ensures
        c == digit_char(d as nat),
{
    if d == 0 {
        '0'
    } else if d == 1 {
        '1'
    } else if d == 2 {
        '2'
    } else if d == 3 {
        '3'
    } else if d == 4 {
        '4'
    } else if d == 5 {
        '5'
    } else if d == 6 {
        '6'
    } else if d == 7 {
        '7'
    } else if d == 8 {
        '8'
    } else {
        '9'
    }
}

/// The canonical decimal notation of `n`.
pub fn u32_to_string(n: u32) -> (s: String)
    ensures
        s@ == dec_digits(n as nat),
    decreases n,
{
    if n < 10 {
        let mut s = String::new();
        push_char(&mut s, digit_to_char(n));
        proof {
            assert(s@ =~= dec_digits(n as nat));
        }
        s
    } else {
        let mut s = u32_to_string(n / 10);
        push_char(&mut s, digit_to_char(n % 10));
        s
    }
}

/// Parse the canonical decimal notation of a `u32`.  Returns `None` on
/// anything else: an empty string, a non-digit, a leading zero, or a value
/// that does not fit.
pub fn parse_canonical_u32(s: &str) -> (r: Option<u32>)
    ensures
        match r {
            Some(n) => s@ == dec_digits(n as nat),
            None => forall|n: u32| s@ != dec_digits(n as nat),
        },
{
    let len = s.unicode_len();
    if len == 0 {
        proof {
            assert forall|n: u32| s@ != dec_digits(n as nat) by {
                lemma_dec_digits_canonical(n as nat);
            }
        }
        return None;
    }
    if len > 10 {
        proof {
            lemma_pow10_vals();
            assert forall|n: u32| s@ != dec_digits(n as nat) by {
                lemma_dec_digits_len(n as nat, 10);
            }
        }
        return None;
    }
    if len > 1 && s.get_char(0) == '0' {
        proof {
            assert forall|n: u32| s@ != dec_digits(n as nat) by {
                lemma_dec_digits_canonical(n as nat);
            }
        }
        return None;
    }
    let mut val: u64 = 0;
    let mut i: usize = 0;
    while i < len
        invariant
            len == s@.len(),
            0 < len <= 10,
            0 <= i <= len,
            all_digits(s@.take(i as int)),
            val == dec_val(s@.take(i as int)),
            val < pow10(i as nat),
        decreases len - i,
    {
        let c = s.get_char(i);
        let code = c as u32;
        if code < 48 || code > 57 {
            proof {
                assert(!is_digit_char(s@[i as int]));
                assert forall|n: u32| s@ != dec_digits(n as nat) by {
                    lemma_dec_digits_canonical(n as nat);
                }
            }
            return None;
        }
        proof {
            assert(pow10(i as nat) <= pow10(9)) by {
                lemma_pow10_increases(i as nat, 9);
            }
            assert(pow10(9) == 1000000000) by {
                lemma_pow10_vals();
            }
            assert(s@.take(i + 1).drop_last() =~= s@.take(i as int));
            assert(s@.take(i + 1).last() == s@[i as int]);
            assert(pow10((i + 1) as nat) == 10 * pow10(i as nat));
        }
        val = val * 10 + ((code - 48) as u64);
        i = i + 1;
    }
    proof {
        assert(s@.take(len as int) =~= s@);
    }
    if val > 0xffff_ffff {
        proof {
            assert forall|n: u32| s@ != dec_digits(n as nat) by {
                lemma_dec_digits_canonical(n as nat);
            }
        }
        return None;
    }
    proof {
        assert(canonical_dec(s@));
        lemma_canonical_unparse(s@);
    }
    Some(val as u32)
}

/// The concrete powers of ten that the parser's bounds rest on.
proof fn lemma_pow10_vals()
    ensures
        pow10(9) == 1000000000,
        pow10(10) == 10000000000,
{
    assert(pow10(0) == 1);
    assert(pow10(1) == 10);
    assert(pow10(2) == 100);
    assert(pow10(3) == 1000);
    assert(pow10(4) == 10000);
    assert(pow10(5) == 100000);
    assert(pow10(6) == 1000000);
    assert(pow10(7) == 10000000);
    assert(pow10(8) == 100000000);
    assert(pow10(9) == 1000000000);
    assert(pow10(10) == 10000000000);
}

/// Ten to the `k` does not shrink as `k` grows.
proof fn lemma_pow10_increases(j: nat, k: nat)
    requires
        j <= k,
    ensures
        pow10(j) <= pow10(k),
    decreases k,
{
    if j < k {
        lemma_pow10_increases(j, (k - 1) as nat);
        assert(pow10(k) == 10 * pow10((k - 1) as nat));
    }
}

} // verus!
