//! Plain-text helpers: decimal rendering of integers, digit parsing, and
//! character-wise string comparison. Everything here is verified against
//! spec-level sequences of characters.

use vstd::prelude::*;

verus! {

/// The decimal digit character for a value in `0..=9`.
pub open spec fn digit_char(v: int) -> char {
    if v == 0 {
        '0'
    } else if v == 1 {
        '1'
    } else if v == 2 {
        '2'
    } else if v == 3 {
        '3'
    } else if v == 4 {
        '4'
    } else if v == 5 {
        '5'
    } else if v == 6 {
        '6'
    } else if v == 7 {
        '7'
    } else if v == 8 {
        '8'
    } else {
        '9'
    }
}

/// Whether `c` is a decimal digit character.
pub open spec fn is_digit_char(c: char) -> bool {
    '0' <= c && c <= '9'
}

/// The numeric value of a digit character.
pub open spec fn char_digit(c: char) -> int {
    c as int - 48
}

/// The decimal digits of `n`, most significant first, without leading zeros
/// (`0` renders as the single digit `0`).
pub open spec fn dec_chars(n: int) -> Seq<char>
    decreases n,
{
    if n < 10 {
        seq![digit_char(n)]
    } else {
        dec_chars(n / 10) + seq![digit_char(n % 10)]
    }
}

/// A single-character string for the digit `d`.
pub fn digit_str(d: u8) -> (r: &'static str)
    requires
        d < 10,
    ensures
        r@ == seq![digit_char(d as int)],
{
    proof {
        reveal_strlit("0");
        reveal_strlit("1");
        reveal_strlit("2");
        reveal_strlit("3");
        reveal_strlit("4");
        reveal_strlit("5");
        reveal_strlit("6");
        reveal_strlit("7");
        reveal_strlit("8");
        reveal_strlit("9");
    }
    let r = match d {
        0 => "0",
        1 => "1",
        2 => "2",
        3 => "3",
        4 => "4",
        5 => "5",
        6 => "6",
        7 => "7",
        8 => "8",
        _ => "9",
    };
    proof {
        assert(r@ =~= seq![digit_char(d as int)]);
    }
    r
}

/// Renders `n` in decimal, without padding.
pub fn u128_to_string(n: u128) -> (s: String)
    ensures
        s@ == dec_chars(n as int),
    decreases n,
{
    if n < 10 {
        String::from_str(digit_str(n as u8))
    } else {
        let mut s = u128_to_string(n / 10);
        s.append(digit_str((n % 10) as u8));
        proof {
            assert(s@ =~= dec_chars(n as int));
        }
        s
    }
}

/// Renders `n` in decimal, without padding.
pub fn u64_to_string(n: u64) -> (s: String)
    ensures
        s@ == dec_chars(n as int),
{
    u128_to_string(n as u128)
}

/// Whether every character is a decimal digit.
pub open spec fn all_digits(s: Seq<char>) -> bool {
    forall|i: int| 0 <= i < s.len() ==> is_digit_char(#[trigger] s[i])
}

/// The number a digit string denotes.
pub open spec fn dec_value(s: Seq<char>) -> int
    decreases s.len(),
{
    if s.len() == 0 {
        0
    } else {
        dec_value(s.drop_last()) * 10 + char_digit(s.last())
    }
}

/// What reading a whole string as a decimal number yields: it must be
/// nonempty, all digits, and fit in a `u32`.
pub open spec fn spec_parse_u32(s: Seq<char>) -> Option<u32> {
    if s.len() > 0 && all_digits(s) && dec_value(s) <= u32::MAX {
        Some(dec_value(s) as u32)
    } else {
        None
    }
}

/// A digit string denotes a nonnegative number.
proof fn lemma_dec_value_nonneg(s: Seq<char>)
    requires
        all_digits(s),
    ensures
        dec_value(s) >= 0,
    decreases s.len(),
{
    if s.len() > 0 {
        let t = s.drop_last();
        assert(forall|i: int| 0 <= i < t.len() ==> t[i] == s[i]);
        lemma_dec_value_nonneg(t);
    }
}

/// Appending digits never shrinks the number a digit string denotes.
proof fn lemma_dec_value_extend(a: Seq<char>, b: Seq<char>)
    requires
        all_digits(a),
        all_digits(b),
    ensures
        dec_value(a + b) >= dec_value(a),
    decreases b.len(),
{
    if b.len() == 0 {
        assert(a + b =~= a);
    } else {
        let t = b.drop_last();
        assert(forall|i: int| 0 <= i < t.len() ==> t[i] == b[i]);
        assert((a + b).drop_last() =~= a + t);
        lemma_dec_value_extend(a, t);
        assert(all_digits(a + t)) by {
            assert(forall|i: int|
                0 <= i < (a + t).len() ==> (a + t)[i] == (if i < a.len() {
                    a[i]
                } else {
                    t[i - a.len()]
                }));
        }
        lemma_dec_value_nonneg(a + t);
        assert(dec_value(a + b) == dec_value(a + t) * 10 + char_digit((a + b).last()));
    }
}

/// A filler character of the override page's day cells: a no-break space or
/// the marker star.
pub open spec fn is_filler(c: char) -> bool {
    c == '\u{a0}' || c == '*'
}

/// The predicate that keeps the characters that are not filler.
pub open spec fn strip_keep() -> spec_fn(char) -> bool {
    |c: char| !is_filler(c)
}

/// The text with its filler characters removed.
pub open spec fn stripped(s: Seq<char>) -> Seq<char> {
    s.filter(strip_keep())
}

/// Filtering one more character extends the kept sequence by that character
/// exactly when the predicate keeps it.
proof fn lemma_char_filter_step(s: Seq<char>, i: int, pred: spec_fn(char) -> bool)
    requires
        0 <= i < s.len(),
    ensures
        pred(s[i]) ==> s.take(i + 1).filter(pred) == s.take(i).filter(pred).push(s[i]),
        !pred(s[i]) ==> s.take(i + 1).filter(pred) == s.take(i).filter(pred),
{
    reveal(Seq::filter);
    assert(s.take(i + 1).drop_last() =~= s.take(i));
    assert(s.take(i + 1).last() == s[i]);
}

/// What is kept of a text splits at any position into what is kept of the
/// prefix and what is kept of the rest.
proof fn lemma_stripped_split(s: Seq<char>, i: int)
    requires
        0 <= i <= s.len(),
    ensures
        stripped(s) == stripped(s.take(i)) + stripped(s.skip(i)),
{
    assert(s.take(i) + s.skip(i) =~= s);
    Seq::filter_distributes_over_add(s.take(i), s.skip(i), strip_keep());
}

/// Reads a day-cell text as a decimal number, ignoring filler characters.
/// Yields nothing when what remains is empty, holds a character that is no
/// digit, or denotes a number too large for a `u32`.
pub fn parse_day_text(s: &str) -> (r: Option<u32>)
    ensures
        r == spec_parse_u32(stripped(s@)),
{
    let n = s.unicode_len();
    let mut value: u64 = 0;
    let mut any = false;
    let mut i: usize = 0;
    while i < n
        invariant
            i <= n,
            n == s@.len(),
            value == dec_value(stripped(s@.take(i as int))),
            any == (stripped(s@.take(i as int)).len() > 0),
            all_digits(stripped(s@.take(i as int))),
            value <= u32::MAX,
        decreases n - i,
    {
        let c = s.get_char(i);
        let code = c as u32;
        proof {
            lemma_char_filter_step(s@, i as int, strip_keep());
        }
        if code == 0xa0 || code == 42 {
            proof {
                assert(is_filler(s@[i as int]));
            }
        } else if 48 <= code && code <= 57 {
            let ghost prev = stripped(s@.take(i as int));
            let ghost a = stripped(s@.take(i as int + 1));
            proof {
                assert(!is_filler(s@[i as int]));
                assert(a == prev.push(s@[i as int]));
                assert(all_digits(a)) by {
                    assert(forall|j: int|
                        0 <= j < a.len() ==> a[j] == (if j < prev.len() {
                            prev[j]
                        } else {
                            s@[i as int]
                        }));
                }
                assert(a.drop_last() =~= prev);
                assert(dec_value(a) == dec_value(prev) * 10 + char_digit(s@[i as int]));
            }
            let d = (code - 48) as u64;
            let nv = value * 10 + d;
            if nv > u32::MAX as u64 {
                proof {
                    lemma_stripped_split(s@, i as int + 1);
                    let b = stripped(s@.skip(i as int + 1));
                    if all_digits(stripped(s@)) {
                        assert(all_digits(b)) by {
                            assert(forall|j: int|
                                0 <= j < b.len() ==> b[j] == stripped(s@)[a.len() + j]);
                        }
                        lemma_dec_value_extend(a, b);
                    }
                }
                return None;
            }
            value = nv;
            any = true;
        } else {
            proof {
                assert(!is_filler(s@[i as int]));
                assert(!is_digit_char(s@[i as int]));
                let a = stripped(s@.take(i as int + 1));
                lemma_stripped_split(s@, i as int + 1);
                assert(stripped(s@)[a.len() - 1] == a.last());
                assert(!all_digits(stripped(s@)));
            }
            return None;
        }
        i += 1;
    }
    proof {
        assert(s@.take(n as int) =~= s@);
    }
    if any {
        Some(value as u32)
    } else {
        None
    }
}

/// Whether two string slices hold the same characters.
pub fn str_eq(a: &str, b: &str) -> (r: bool)
    ensures
        r == (a@ == b@),
{
    let la = a.unicode_len();
    let lb = b.unicode_len();
    if la != lb {
        return false;
    }
    let mut i: usize = 0;
    while i < la
        invariant
            i <= la,
            la == a@.len(),
            lb == b@.len(),
            la == lb,
            forall|j: int| 0 <= j < i ==> a@[j] == b@[j],
        decreases la - i,
    {
        if a.get_char(i) != b.get_char(i) {
            return false;
        }
        i += 1;
    }
    proof {
        assert(a@ =~= b@);
    }
    true
}

} // verus!
