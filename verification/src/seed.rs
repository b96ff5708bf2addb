//! Reading a map seed written as a hexadecimal number.

use vstd::prelude::*;

use crate::network_handler::chars_of;

verus! {

/// The value of a hexadecimal digit (either case), or `None` for any other
/// character.
pub open spec fn hex_digit(c: char) -> Option<u64> {
    let u = c as u32;
    if 48 <= u <= 57 {
        Option::Some((u - 48) as u64)
    } else if 97 <= u <= 102 {
        Option::Some((u - 87) as u64)
    } else if 65 <= u <= 70 {
        Option::Some((u - 55) as u64)
    } else {
        None
    }
}

/// True when every character of `d` is a hexadecimal digit.
pub open spec fn all_hex_digits(d: Seq<char>) -> bool {
    forall|i: int| 0 <= i < d.len() ==> #[trigger] hex_digit(d[i]) is Some
}

/// The number the hexadecimal digits `d` write, most significant first.
pub open spec fn hex_value(d: Seq<char>) -> int
    decreases d.len(),
{
    if d.len() == 0 {
        0
    } else {
        hex_value(d.drop_last()) * 16 + hex_digit(d.last())->Some_0
    }
}

/// The digits of a seed: the text without one leading `+`.
pub open spec fn seed_digits(s: Seq<char>) -> Seq<char> {
    if s.len() > 0 && s[0] == '+' {
        s.drop_first()
    } else {
        s
    }
}

/// The seed a text writes, as `u64::from_str_radix` with radix 16 reads
/// it: one optional leading `+`, then at least one hexadecimal digit, for
/// a value that fits in a `u64`; `None` for anything else.
pub open spec fn spec_parse_seed(s: Seq<char>) -> Option<u64> {
    let d = seed_digits(s);
    if d.len() > 0 && all_hex_digits(d) && hex_value(d) <= u64::MAX {
        Option::Some(hex_value(d) as u64)
    } else {
        None
    }
}

/// A longer run of digits is worth at least as much as its prefix.
proof fn lemma_hex_value_prefix(d: Seq<char>, k: int)
    requires
        all_hex_digits(d),
        0 <= k <= d.len(),
    ensures
        0 <= hex_value(d.take(k)) <= hex_value(d),
    decreases d.len(),
{
    if k == d.len() {
        assert(d.take(k) =~= d);
        lemma_hex_value_nonneg(d);
    } else {
        let rest = d.drop_last();
        assert(d.take(k) =~= rest.take(k));
        assert(all_hex_digits(rest)) by {
            assert forall|i: int| 0 <= i < rest.len() implies #[trigger] hex_digit(rest[i]) is Some by {
                assert(rest[i] == d[i]);
            }
        }
        lemma_hex_value_prefix(rest, k);
        assert(hex_digit(d[d.len() - 1]) is Some);
    }
}

/// Digits are worth nothing negative.
proof fn lemma_hex_value_nonneg(d: Seq<char>)
    requires
        all_hex_digits(d),
    ensures
        hex_value(d) >= 0,
    decreases d.len(),
{
    if d.len() > 0 {
        let rest = d.drop_last();
        assert(all_hex_digits(rest)) by {
            assert forall|i: int| 0 <= i < rest.len() implies #[trigger] hex_digit(rest[i]) is Some by {
                assert(rest[i] == d[i]);
            }
        }
        lemma_hex_value_nonneg(rest);
        assert(hex_digit(d[d.len() - 1]) is Some);
    }
}

/// The upper-case hexadecimal digit of `d`, for `d` in `0..16`.
pub open spec fn hex_char(d: int) -> char {
    if d < 10 {
        (48 + d) as char
    } else {
        (55 + d) as char
    }
}

/// The upper-case hexadecimal numeral of `n`, without leading zeros: how
/// a seed is written out for the map server's page.
pub open spec fn hex_text(n: nat) -> Seq<char>
    decreases n,
{
    if n < 16 {
        seq![hex_char(n as int)]
    } else {
        hex_text(n / 16).push(hex_char((n % 16) as int))
    }
}

/// The digits of `hex_text(n)` are hexadecimal digits worth `n`, and it
/// does not start with `+`.
proof fn lemma_hex_text(n: nat)
    ensures
        hex_text(n).len() > 0,
        all_hex_digits(hex_text(n)),
        hex_value(hex_text(n)) == n,
        hex_text(n)[0] != '+',
    decreases n,
{
    if n < 16 {
        let t = hex_text(n);
        assert(t.drop_last() =~= Seq::<char>::empty());
        assert(t.last() == hex_char(n as int));
        assert(hex_digit(hex_char(n as int)) == Option::Some(n as u64));
        assert(hex_value(t.drop_last()) == 0);
    } else {
        let t = hex_text(n);
        let rest = hex_text(n / 16);
        lemma_hex_text(n / 16);
        assert(t.drop_last() =~= rest);
        assert(t.last() == hex_char((n % 16) as int));
        assert(hex_digit(hex_char((n % 16) as int)) == Option::Some((n % 16) as u64));
        assert(hex_value(t) == hex_value(rest) * 16 + (n % 16));
        assert forall|i: int| 0 <= i < t.len() implies #[trigger] hex_digit(t[i]) is Some by {
            if i < rest.len() {
                assert(t[i] == rest[i]);
            }
        }
        assert(t[0] == rest[0]);
        assert(n == (n / 16) * 16 + n % 16);
    }
}

/// A seed written out as its upper-case hexadecimal numeral reads back as
/// the same seed.
pub proof fn lemma_parse_seed_round_trip(s: u64)
    ensures
        spec_parse_seed(hex_text(s as nat)) == Option::Some(s),
{
    lemma_hex_text(s as nat);
}

/// The lower-case hexadecimal digit of `d`, for `d` in `0..16`.
pub open spec fn hex_char_lower(d: int) -> char {
    if d < 10 {
        (48 + d) as char
    } else {
        (87 + d) as char
    }
}

/// The lower-case hexadecimal numeral of `n`, without leading zeros.
pub open spec fn hex_text_lower(n: nat) -> Seq<char>
    decreases n,
{
    if n < 16 {
        seq![hex_char_lower(n as int)]
    } else {
        hex_text_lower(n / 16).push(hex_char_lower((n % 16) as int))
    }
}

/// The digits of `hex_text_lower(n)` are hexadecimal digits worth `n`,
/// and it does not start with `+`.
proof fn lemma_hex_text_lower(n: nat)
    ensures
        hex_text_lower(n).len() > 0,
        all_hex_digits(hex_text_lower(n)),
        hex_value(hex_text_lower(n)) == n,
        hex_text_lower(n)[0] != '+',
    decreases n,
{
    if n < 16 {
        let t = hex_text_lower(n);
        assert(t.drop_last() =~= Seq::<char>::empty());
        assert(t.last() == hex_char_lower(n as int));
        assert(hex_digit(hex_char_lower(n as int)) == Option::Some(n as u64));
        assert(hex_value(t.drop_last()) == 0);
    } else {
        let t = hex_text_lower(n);
        let rest = hex_text_lower(n / 16);
        lemma_hex_text_lower(n / 16);
        assert(t.drop_last() =~= rest);
        assert(t.last() == hex_char_lower((n % 16) as int));
        assert(hex_digit(hex_char_lower((n % 16) as int)) == Option::Some((n % 16) as u64));
        assert(hex_value(t) == hex_value(rest) * 16 + (n % 16));
        assert forall|i: int| 0 <= i < t.len() implies #[trigger] hex_digit(t[i]) is Some by {
            if i < rest.len() {
                assert(t[i] == rest[i]);
            }
        }
        assert(t[0] == rest[0]);
        assert(n == (n / 16) * 16 + n % 16);
    }
}

/// Letters read the same in either case: a seed written out as its
/// lower-case hexadecimal numeral reads back as the same seed, just as its
/// upper-case numeral does (`lemma_parse_seed_round_trip`).
pub proof fn lemma_parse_seed_round_trip_lower(s: u64)
    ensures
        spec_parse_seed(hex_text_lower(s as nat)) == Option::Some(s),
{
    lemma_hex_text_lower(s as nat);
}

/// The value of a hexadecimal digit, or `None` for any other character.
fn hex_digit_exec(c: char) -> (r: Option<u64>)
    ensures
        r == hex_digit(c),
{
    let u = c as u32;
    if 48 <= u && u <= 57 {
        Some((u - 48) as u64)
    } else if 97 <= u && u <= 102 {
        Some((u - 87) as u64)
    } else if 65 <= u && u <= 70 {
        Some((u - 55) as u64)
    } else {
        None
    }
}

/// Reads a seed written as a hexadecimal number (see `spec_parse_seed`);
/// `None` when the text is not one.
pub fn parse_seed(source: &str) -> (r: Option<u64>)
    ensures
        r == spec_parse_seed(source@),
{
    let chars = chars_of(source);
    let ghost d = seed_digits(chars@);
    let start: usize = if chars.len() > 0 && chars[0] == '+' {
        1
    } else {
        0
    };
    proof {
        if start == 1 {
            assert(d =~= chars@.subrange(1, chars@.len() as int));
        } else {
            assert(d =~= chars@.subrange(0, chars@.len() as int));
        }
    }
    if start == chars.len() {
        return None;
    }
    let mut value: u64 = 0;
    let mut i: usize = start;
    proof {
        assert(d.take(0) =~= Seq::<char>::empty());
    }
    while i < chars.len()
        invariant
            start <= i <= chars.len(),
            chars@ == source@,
            d == seed_digits(source@),
            d == chars@.subrange(start as int, chars@.len() as int),
            all_hex_digits(d.take(i - start)),
            value == hex_value(d.take(i - start)),
        decreases chars.len() - i,
    {
        let k = i - start;
        let digit = match hex_digit_exec(chars[i]) {
            Option::Some(x) => x,
            None => {
                proof {
                    assert(d[k as int] == chars@[i as int]);
                    assert(!all_hex_digits(d));
                }
                return None;
            },
        };
        proof {
            assert(d[k as int] == chars@[i as int]);
            assert(d.take(k + 1).drop_last() =~= d.take(k as int));
            assert(d.take(k + 1).last() == d[k as int]);
            assert(all_hex_digits(d.take(k + 1))) by {
                assert forall|j: int| 0 <= j < d.take(k + 1).len() implies #[trigger] hex_digit(
                    d.take(k + 1)[j],
                ) is Some by {
                    if j < k {
                        assert(d.take(k + 1)[j] == d.take(k as int)[j]);
                    }
                }
            }
        }
        let grown = match value.checked_mul(16) {
            Option::Some(x) => x.checked_add(digit),
            None => None,
        };
        match grown {
            Option::Some(x) => {
                value = x;
            },
            None => {
                proof {
                    if all_hex_digits(d) {
                        lemma_hex_value_prefix(d, k + 1);
                    }
                }
                return None;
            },
        }
        i = i + 1;
    }
    proof {
        assert(d.take(i - start) =~= d);
    }
    Some(value)
}

} // verus!
