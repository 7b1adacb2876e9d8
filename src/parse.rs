use vstd::prelude::*;

verus! {

/// `ch` is one of '0'..='9'.
pub open spec fn is_digit(ch: char) -> bool {
    '0' as u32 <= ch as u32 <= '9' as u32
}

/// The value of a digit.
pub open spec fn digit_value(ch: char) -> int {
    ch as u32 - '0' as u32
}

/// Every character of `d` is a digit.
pub open spec fn all_digits(d: Seq<char>) -> bool {
    forall|i: int| 0 <= i < d.len() ==> is_digit(#[trigger] d[i])
}

/// The number that the digits `d` write in base 10.
pub open spec fn decimal_value(d: Seq<char>) -> int
    decreases d.len(),
{
    if d.len() == 0 {
        0
    } else {
        decimal_value(d.drop_last()) * 10 + digit_value(d.last())
    }
}

/// The cell value that one character stands for: '.' and '0' for an empty
/// cell, '1'..='9' for themselves, 'A'..='G' (or 'a'..='g') for 10..=16.
pub open spec fn char_value(ch: char) -> Option<u8> {
    if ch == '.' {
        Some(0u8)
    } else if is_digit(ch) {
        Some(digit_value(ch) as u8)
    } else if 'A' as u32 <= ch as u32 <= 'G' as u32 {
        Some((ch as u32 - 'A' as u32 + 10) as u8)
    } else if 'a' as u32 <= ch as u32 <= 'g' as u32 {
        Some((ch as u32 - 'a' as u32 + 10) as u8)
    } else {
        None
    }
}

/// The cell value that a token stands for: a single character as in
/// `char_value`, or else a number 0..=16 written in base 10 with an
/// optional leading '+'.
pub open spec fn token_value(s: Seq<char>) -> Option<u8> {
    if s.len() == 1 {
        char_value(s[0])
    } else {
        let d = if s.len() > 0 && s[0] == '+' {
            s.drop_first()
        } else {
            s
        };
        if d.len() > 0 && all_digits(d) && decimal_value(d) <= 16 {
            Some(decimal_value(d) as u8)
        } else {
            None
        }
    }
}

/// Reads one character of a grid row; `None` when it stands for no value.
pub fn parse_char(ch: char) -> (res: Option<u8>)
    ensures
        res == char_value(ch),
        res matches Some(v) ==> v <= 16,
{
    let code = ch as u32;
    if ch == '.' {
        Some(0)
    } else if code >= '0' as u32 && code <= '9' as u32 {
        Some((code - '0' as u32) as u8)
    } else if code >= 'A' as u32 && code <= 'G' as u32 {
        Some((code - 'A' as u32 + 10) as u8)
    } else if code >= 'a' as u32 && code <= 'g' as u32 {
        Some((code - 'a' as u32 + 10) as u8)
    } else {
        None
    }
}

/// Reads one whitespace-separated token of a grid row; `None` when it
/// stands for no value.
pub fn parse_token(tok: &str) -> (res: Option<u8>)
    ensures
        res == token_value(tok@),
        res matches Some(v) ==> v <= 16,
{
    let n = tok.unicode_len();
    if n == 1 {
        return parse_char(tok.get_char(0));
    }
    let mut i: usize = 0;
    if n > 0 && tok.get_char(0) == '+' {
        i = 1;
    }
    let ghost d = tok@.subrange(i as int, n as int);
    proof {
        if n > 0 && tok@[0] == '+' {
            assert(d =~= tok@.drop_first());
        } else {
            assert(d =~= tok@);
        }
    }
    if i >= n {
        return None;
    }
    let start = i;
    let mut acc: u32 = 0;
    while i < n
        invariant
            n == tok@.len(),
            d == tok@.subrange(start as int, n as int),
            token_value(tok@) == if d.len() > 0 && all_digits(d) && decimal_value(d) <= 16 {
                Some(decimal_value(d) as u8)
            } else {
                None
            },
            start < n,
            start <= i <= n,
            all_digits(tok@.subrange(start as int, i as int)),
            acc as int == decimal_value(tok@.subrange(start as int, i as int)),
            acc <= 16,
        decreases n - i,
    {
        let ch = tok.get_char(i);
        let code = ch as u32;
        if code < '0' as u32 || code > '9' as u32 {
            proof {
                assert(d[i - start] == ch);
            }
            return None;
        }
        let ghost prev = tok@.subrange(start as int, i as int);
        let ghost next = tok@.subrange(start as int, i + 1);
        proof {
            assert(next.drop_last() =~= prev);
            assert(next.last() == ch);
            assert(all_digits(next));
        }
        acc = acc * 10 + (code - '0' as u32);
        if acc > 16 {
            proof {
                if all_digits(d) {
                    assert(next =~= d.subrange(0, i + 1 - start));
                    lemma_decimal_prefix(d, i + 1 - start);
                }
            }
            return None;
        }
        i += 1;
    }
    proof {
        assert(tok@.subrange(start as int, n as int) =~= d);
    }
    Some(acc as u8)
}

/// Digits appended to a number never make it smaller.
proof fn lemma_decimal_prefix(d: Seq<char>, k: int)
    requires
        all_digits(d),
        0 <= k <= d.len(),
    ensures
        0 <= decimal_value(d.subrange(0, k)) <= decimal_value(d),
    decreases d.len(),
{
    if k == d.len() {
        assert(d.subrange(0, k) =~= d);
        lemma_decimal_nonneg(d);
    } else {
        let e = d.drop_last();
        assert(all_digits(e)) by {
            assert forall|i: int| 0 <= i < e.len() implies is_digit(#[trigger] e[i]) by {
                assert(e[i] == d[i]);
            }
        }
        lemma_decimal_prefix(e, k);
        assert(e.subrange(0, k) =~= d.subrange(0, k));
        assert(is_digit(d[d.len() - 1]));
    }
}

proof fn lemma_decimal_nonneg(d: Seq<char>)
    requires
        all_digits(d),
    ensures
        decimal_value(d) >= 0,
    decreases d.len(),
{
    if d.len() > 0 {
        let e = d.drop_last();
        assert forall|i: int| 0 <= i < e.len() implies is_digit(#[trigger] e[i]) by {
            assert(e[i] == d[i]);
        }
        lemma_decimal_nonneg(e);
        assert(is_digit(d[d.len() - 1]));
    }
}

} // verus!
