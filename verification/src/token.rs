//! The lexical layer: whitespace tokenization and integer literals.
//!
//! Source text is split on ASCII whitespace; a token is a maximal run of
//! non-whitespace characters.  An integer literal is an optional `+` or
//! `-` sign followed by one or more ASCII digits, whose value fits a
//! signed 32-bit cell; any other token is a word.

use vstd::prelude::*;
use vstd::string::StrSliceExecFns;

verus! {

/// The characters that separate tokens: ASCII whitespace.
pub open spec fn is_space(c: char) -> bool {
    c == ' ' || c == '\t' || c == '\n' || c == '\r' || c == '\u{c}'
}

/// Where the token starting at `i` ends: the first position at or after
/// `i` holding whitespace, or the end of the text.
pub open spec fn token_end(s: Seq<char>, i: int) -> int
    decreases s.len() - i when 0 <= i <= s.len()
{
    if i >= s.len() {
        i
    } else if is_space(s[i]) {
        i
    } else {
        token_end(s, i + 1)
    }
}

/// `token_end` stays within the text and does not move backwards; every
/// character it skips is non-whitespace, and it stops at whitespace or
/// at the end.
pub proof fn lemma_token_end(s: Seq<char>, i: int)
    requires
        0 <= i <= s.len(),
    ensures
        i <= token_end(s, i) <= s.len(),
        forall|j: int| i <= j < token_end(s, i) ==> !is_space(s[j]),
        token_end(s, i) == s.len() || is_space(s[token_end(s, i)]),
    decreases s.len() - i,
{
    if i < s.len() && !is_space(s[i]) {
        lemma_token_end(s, i + 1);
    }
}

/// The position where a maximal run of non-whitespace characters ends is
/// exactly `token_end` of its start.
pub proof fn lemma_token_end_of_run(s: Seq<char>, start: int, end: int)
    requires
        0 <= start <= end <= s.len(),
        forall|j: int| start <= j < end ==> !is_space(s[j]),
        end == s.len() || is_space(s[end]),
    ensures
        token_end(s, start) == end,
    decreases end - start,
{
    if start < end {
        lemma_token_end_of_run(s, start + 1, end);
    }
}

/// The tokens of the text from position `i` on.
pub open spec fn tokens_from(s: Seq<char>, i: int) -> Seq<Seq<char>>
    decreases s.len() - i when 0 <= i <= s.len() via tokens_from_dec
{
    if i >= s.len() {
        Seq::empty()
    } else if is_space(s[i]) {
        tokens_from(s, i + 1)
    } else {
        seq![s.subrange(i, token_end(s, i))] + tokens_from(s, token_end(s, i))
    }
}

#[via_fn]
proof fn tokens_from_dec(s: Seq<char>, i: int) {
    if 0 <= i <= s.len() && i < s.len() && !is_space(s[i]) {
        lemma_token_end(s, i);
    }
}

/// The whole text split into tokens.
pub open spec fn tokenize_spec(s: Seq<char>) -> Seq<Seq<char>> {
    tokens_from(s, 0)
}

/// The views of a sequence of owned tokens.
pub open spec fn token_views(ts: Seq<String>) -> Seq<Seq<char>> {
    ts.map_values(|t: String| t@)
}

/// Whether `c` separates tokens.
pub fn is_space_char(c: char) -> (r: bool)
    ensures
        r == is_space(c),
{
    c == ' ' || c == '\t' || c == '\n' || c == '\r' || c == '\u{c}'
}

/// Whether two strings hold the same characters.
pub fn str_eq(a: &str, b: &str) -> (r: bool)
    ensures
        r == (a@ == b@),
{
    let la = a.unicode_len();
    let lb = b.unicode_len();
    if la != lb {
        return false;
    }
    let mut i: usize = 0;
    while i < la
        invariant
            i <= la,
            la == a@.len(),
            la == b@.len(),
            forall|j: int| 0 <= j < i ==> a@[j] == b@[j],
        decreases la - i,
    {
        if a.get_char(i) != b.get_char(i) {
            return false;
        }
        i = i + 1;
    }
    proof {
        assert(a@ =~= b@);
    }
    true
}

/// Splits the text into its whitespace-separated tokens.
pub fn tokenize(s: &str) -> (tokens: Vec<String>)
    ensures
        token_views(tokens@) == tokenize_spec(s@),
{
    let len = s.unicode_len();
    let mut tokens: Vec<String> = Vec::new();
    let mut i: usize = 0;
    while i < len
        invariant
            i <= len,
            len == s@.len(),
            token_views(tokens@) + tokens_from(s@, i as int) == tokenize_spec(s@),
        decreases len - i,
    {
        let c = s.get_char(i);
        if is_space_char(c) {
            i = i + 1;
        } else {
            let start = i;
            i = i + 1;
            while i < len && !is_space_char(s.get_char(i))
                invariant
                    start < i <= len,
                    len == s@.len(),
                    forall|j: int| start <= j < i ==> !is_space(s@[j]),
                decreases len - i,
            {
                i = i + 1;
            }
            proof {
                lemma_token_end_of_run(s@, start as int, i as int);
            }
            let tok = s.substring_char(start, i);
            tokens.push(tok.to_owned());
            proof {
                assert(token_views(tokens@) =~= token_views(tokens@.drop_last()).push(
                    s@.subrange(start as int, i as int),
                ));
                assert(token_views(tokens@) + tokens_from(s@, i as int) =~= token_views(
                    tokens@.drop_last(),
                ) + (seq![s@.subrange(start as int, i as int)] + tokens_from(s@, i as int)));
            }
        }
    }
    proof {
        assert(token_views(tokens@) =~= token_views(tokens@) + tokens_from(s@, len as int));
    }
    tokens
}

/// An ASCII digit.
pub open spec fn is_digit(c: char) -> bool {
    '0' as u32 <= c as u32 && c as u32 <= '9' as u32
}

/// Its value.
pub open spec fn digit_val(c: char) -> int {
    c as u32 - '0' as u32
}

/// All characters are digits.
pub open spec fn all_digits(s: Seq<char>) -> bool {
    forall|i: int| 0 <= i < s.len() ==> is_digit(s[i])
}

/// The number a digit run denotes, most significant digit first.
pub open spec fn digits_val(s: Seq<char>) -> int
    decreases s.len(),
{
    if s.len() == 0 {
        0
    } else {
        digits_val(s.drop_last()) * 10 + digit_val(s.last())
    }
}

/// A token's digit run: the token without its sign, if it carries one.
pub open spec fn literal_body(t: Seq<char>) -> Seq<char> {
    if t.len() > 0 && (t[0] == '+' || t[0] == '-') {
        t.drop_first()
    } else {
        t
    }
}

/// Whether the token carries a minus sign.
pub open spec fn literal_negative(t: Seq<char>) -> bool {
    t.len() > 0 && t[0] == '-'
}

/// An integer literal: an optional sign, then one or more digits, with a
/// value that fits a signed 32-bit cell.
pub open spec fn is_int_literal(t: Seq<char>) -> bool {
    let b = literal_body(t);
    b.len() > 0 && all_digits(b) && (if literal_negative(t) {
        digits_val(b) <= 0x8000_0000
    } else {
        digits_val(b) <= 0x7fff_ffff
    })
}

/// The value of an integer literal.
pub open spec fn literal_val(t: Seq<char>) -> int {
    if literal_negative(t) {
        -digits_val(literal_body(t))
    } else {
        digits_val(literal_body(t))
    }
}

/// Reads a token as a signed 32-bit integer: `Some` exactly on integer
/// literals, with the literal's value.
pub fn parse_i32(t: &str) -> (r: Option<i32>)
    ensures
        is_int_literal(t@) ==> (r matches Some(v) && v as int == literal_val(t@)),
        !is_int_literal(t@) ==> r is None,
{
    let len = t.unicode_len();
    if len == 0 {
        return None;
    }
    let c0 = t.get_char(0);
    let neg = c0 == '-';
    let has_sign = c0 == '-' || c0 == '+';
    let start: usize = if has_sign {
        1
    } else {
        0
    };
    if start >= len {
        return None;
    }
    let ghost body = literal_body(t@);
    proof {
        assert(body.len() == len - start);
        assert(forall|j: int| 0 <= j < body.len() ==> body[j] == t@[j + start]);
    }
    let mut acc: u64 = 0;
    let mut i: usize = start;
    while i < len
        invariant
            start <= i <= len,
            len == t@.len(),
            start == (if t@.len() > 0 && (t@[0] == '+' || t@[0] == '-') { 1int } else { 0int }),
            body == literal_body(t@),
            body.len() == len - start,
            forall|j: int| 0 <= j < body.len() ==> body[j] == t@[j + start],
            all_digits(body.take(i - start)),
            digits_val(body.take(i - start)) < 0x1_0000_0000 ==> acc == digits_val(
                body.take(i - start),
            ),
            digits_val(body.take(i - start)) >= 0x1_0000_0000 ==> acc == 0x1_0000_0000,
            acc <= 0x1_0000_0000,
        decreases len - i,
    {
        let c = t.get_char(i);
        let d32 = c as u32;
        if d32 < '0' as u32 || d32 > '9' as u32 {
            proof {
                assert(body[i - start] == t@[i as int]);
                assert(!is_digit(t@[i as int]));
                assert(!all_digits(body));
            }
            return None;
        }
        let d = (d32 - '0' as u32) as u64;
        let ghost prev = body.take(i - start);
        let ghost curr = body.take(i + 1 - start);
        proof {
            assert(curr.drop_last() =~= prev);
            assert(curr.last() == t@[i as int]);
            assert(digits_val(curr) == digits_val(prev) * 10 + d);
            if digits_val(prev) >= 0x1_0000_0000 {
                assert(digits_val(prev) * 10 >= 0x1_0000_0000 * 10) by (nonlinear_arith)
                    requires
                        digits_val(prev) >= 0x1_0000_0000,
                ;
            }
        }
        acc = if acc >= 0x1_0000_0000 {
            0x1_0000_0000
        } else if acc * 10 + d >= 0x1_0000_0000 {
            0x1_0000_0000
        } else {
            acc * 10 + d
        };
        i = i + 1;
    }
    proof {
        assert(body.take(i - start) =~= body);
    }
    if neg {
        if acc > 0x8000_0000 {
            None
        } else if acc == 0x8000_0000 {
            Some(i32::MIN)
        } else {
            Some(-(acc as i32))
        }
    } else {
        if acc > 0x7fff_ffff {
            None
        } else {
            Some(acc as i32)
        }
    }
}

} // verus!
