//! The JSON grammar as spec functions over a sequence of characters.
//! Each `*_at` function gives, for a start position, the parsed item and the
//! position just past it, or `None` where the text is rejected.
use crate::model::{DecimalModel, NumberModel, Tree};
use vstd::prelude::*;

verus! {

/// Characters with the Unicode `White_Space` property.
pub open spec fn is_ws(c: char) -> bool {
    ('\u{9}' <= c && c <= '\u{d}') || c == ' ' || c == '\u{85}' || c == '\u{a0}'
        || c == '\u{1680}' || ('\u{2000}' <= c && c <= '\u{200a}') || c == '\u{2028}'
        || c == '\u{2029}' || c == '\u{202f}' || c == '\u{205f}' || c == '\u{3000}'
}

/// Whitespace between tokens: any Unicode whitespace character.
pub fn is_space(c: char) -> (r: bool)
    ensures
        r == is_ws(c),
{
    ('\u{9}' <= c && c <= '\u{d}') || c == ' ' || c == '\u{85}' || c == '\u{a0}'
        || c == '\u{1680}' || ('\u{2000}' <= c && c <= '\u{200a}') || c == '\u{2028}'
        || c == '\u{2029}' || c == '\u{202f}' || c == '\u{205f}' || c == '\u{3000}'
}

/// The first position at or after `i` that does not hold whitespace.
pub open spec fn skip_ws(s: Seq<char>, i: int) -> int
    decreases s.len() - i,
{
    if 0 <= i < s.len() && is_ws(s[i]) {
        skip_ws(s, i + 1)
    } else {
        i
    }
}

pub open spec fn is_digit(c: char) -> bool {
    '0' <= c && c <= '9'
}

/// The first position at or after `i` that does not hold an ASCII digit.
pub open spec fn digits_end(s: Seq<char>, i: int) -> int
    decreases s.len() - i,
{
    if 0 <= i < s.len() && is_digit(s[i]) {
        digits_end(s, i + 1)
    } else {
        i
    }
}

/// The value of a run of decimal digits.
pub open spec fn digits_value(d: Seq<char>) -> nat
    decreases d.len(),
{
    if d.len() == 0 {
        0
    } else {
        digits_value(d.drop_last()) * 10 + (d.last() as nat - '0' as nat) as nat
    }
}

pub open spec fn hex_val(c: char) -> int {
    if '0' <= c && c <= '9' {
        c as int - '0' as int
    } else if 'a' <= c && c <= 'f' {
        c as int - 'a' as int + 10
    } else if 'A' <= c && c <= 'F' {
        c as int - 'A' as int + 10
    } else {
        16
    }
}

/// Four hexadecimal digits stand at `k`.
pub open spec fn hex4_at(s: Seq<char>, k: int) -> bool {
    0 <= k && k + 4 <= s.len() && hex_val(s[k]) < 16 && hex_val(s[k + 1]) < 16
        && hex_val(s[k + 2]) < 16 && hex_val(s[k + 3]) < 16
}

/// The code that four hexadecimal digits at `k` spell, most significant first.
pub open spec fn hex4_value(s: Seq<char>, k: int) -> int {
    ((hex_val(s[k]) * 16 + hex_val(s[k + 1])) * 16 + hex_val(s[k + 2])) * 16 + hex_val(s[k + 3])
}

/// The code of a character.
pub open spec fn code_of(c: char) -> int {
    c as int
}

/// A code is a Unicode scalar value: in range and not a surrogate.
pub open spec fn is_scalar(v: int) -> bool {
    0 <= v <= 0x10FFFF && !(0xD800 <= v <= 0xDFFF)
}

/// The character that a `\u` escape with code `v` stands for; a code that is
/// no scalar value (half of a surrogate pair) becomes U+FFFD.
pub open spec fn code_char(v: int) -> char {
    if is_scalar(v) {
        choose|c: char| #[trigger] code_of(c) == v
    } else {
        '\u{fffd}'
    }
}

/// What a backslash followed by `e` stands for (`u`, newline and carriage
/// return are handled apart); an unknown escape stands for `e` itself.
pub open spec fn unescape(e: char) -> char {
    if e == 'b' {
        '\u{8}'
    } else if e == 'f' {
        '\u{c}'
    } else if e == 'n' {
        '\n'
    } else if e == 'r' {
        '\r'
    } else if e == 't' {
        '\t'
    } else {
        e
    }
}

/// The rest of a string literal from `k`, with `acc` decoded so far: the
/// decoded text and the position past the closing quote.
pub open spec fn string_body(s: Seq<char>, k: int, acc: Seq<char>) -> Option<(Seq<char>, int)>
    decreases s.len() - k,
{
    if k < 0 || k >= s.len() {
        None
    } else if s[k] == '"' {
        Some((acc, k + 1))
    } else if s[k] == '\\' {
        if k + 1 >= s.len() {
            None
        } else {
            let e = s[k + 1];
            if e == 'u' {
                if hex4_at(s, k + 2) {
                    string_body(s, k + 6, acc.push(code_char(hex4_value(s, k + 2))))
                } else {
                    string_body(s, k + 2, acc.push('\u{fffd}'))
                }
            } else if e == '\n' || e == '\r' {
                string_body(s, k + 2, acc)
            } else {
                string_body(s, k + 2, acc.push(unescape(e)))
            }
        }
    } else {
        string_body(s, k + 1, acc.push(s[k]))
    }
}

/// A string literal whose opening quote stands at `i`.
pub open spec fn string_at(s: Seq<char>, i: int) -> Option<(Seq<char>, int)> {
    if 0 <= i < s.len() && s[i] == '"' {
        string_body(s, i + 1, Seq::empty())
    } else {
        None
    }
}

/// The word `w` stands at `i`.
pub open spec fn word_at(s: Seq<char>, i: int, w: Seq<char>) -> bool {
    0 <= i && i + w.len() <= s.len() && s.subrange(i, i + w.len()) == w
}

pub const TWO_64: u128 = 0x1_0000_0000_0000_0000;

/// The negation of `m`, wrapped to a signed 64-bit integer.
pub open spec fn neg_wrap(m: u64) -> i64 {
    (if m <= 0x8000_0000_0000_0000 {
        -(m as int)
    } else {
        TWO_64 as int - m
    }) as i64
}

/// A number literal at `i`: an optional `-`, then `0` or a run of digits, then
/// optionally `.` and digits, then optionally `e`/`E`, a sign and digits.
pub open spec fn number_at(s: Seq<char>, i: int) -> Option<(NumberModel, int)> {
    let neg = 0 <= i < s.len() && s[i] == '-';
    let k = if neg { i + 1 } else { i };
    if !(0 <= k < s.len() && is_digit(s[k])) {
        None
    } else {
        let ie = if s[k] == '0' { k + 1 } else { digits_end(s, k) };
        let has_frac = ie < s.len() && s[ie] == '.';
        let fe = if has_frac { digits_end(s, ie + 1) } else { ie };
        let has_exp = fe < s.len() && (s[fe] == 'e' || s[fe] == 'E');
        let signed_exp = has_exp && fe + 1 < s.len() && (s[fe + 1] == '+' || s[fe + 1] == '-');
        let es = if signed_exp { fe + 2 } else if has_exp { fe + 1 } else { fe };
        let ee = digits_end(s, es);
        if has_frac && fe == ie + 1 {
            None
        } else if has_exp && ee == es {
            None
        } else if has_frac || has_exp {
            Some((NumberModel::Float(DecimalModel {
                negative: neg,
                integer: s.subrange(k, ie),
                fraction: if has_frac { s.subrange(ie + 1, fe) } else { Seq::empty() },
                exp_negative: signed_exp && s[fe + 1] == '-',
                exponent: if has_exp { s.subrange(es, ee) } else { Seq::empty() },
            }), if has_exp { ee } else { fe }))
        } else {
            let m = (digits_value(s.subrange(k, ie)) % (TWO_64 as nat)) as u64;
            if neg {
                Some((NumberModel::I64(neg_wrap(m)), ie))
            } else {
                Some((NumberModel::U64(m), ie))
            }
        }
    }
}

pub proof fn lemma_skip_ws_ge(s: Seq<char>, i: int)
    ensures
        skip_ws(s, i) >= i,
    decreases s.len() - i,
{
    if 0 <= i < s.len() && is_ws(s[i]) {
        lemma_skip_ws_ge(s, i + 1);
    }
}

pub proof fn lemma_digits_end_bounds(s: Seq<char>, i: int)
    requires
        0 <= i <= s.len(),
    ensures
        i <= digits_end(s, i) <= s.len(),
    decreases s.len() - i,
{
    if 0 <= i < s.len() && is_digit(s[i]) {
        lemma_digits_end_bounds(s, i + 1);
    }
}

pub proof fn lemma_string_body_gt(s: Seq<char>, k: int, acc: Seq<char>)
    ensures
        string_body(s, k, acc) matches Some((_, e)) ==> e > k,
    decreases s.len() - k,
{
    if 0 <= k < s.len() && s[k] != '"' {
        if s[k] == '\\' {
            if k + 1 < s.len() {
                let e = s[k + 1];
                if e == 'u' {
                    if hex4_at(s, k + 2) {
                        lemma_string_body_gt(s, k + 6, acc.push(code_char(hex4_value(s, k + 2))));
                    } else {
                        lemma_string_body_gt(s, k + 2, acc.push('\u{fffd}'));
                    }
                } else if e == '\n' || e == '\r' {
                    lemma_string_body_gt(s, k + 2, acc);
                } else {
                    lemma_string_body_gt(s, k + 2, acc.push(unescape(e)));
                }
            }
        } else {
            lemma_string_body_gt(s, k + 1, acc.push(s[k]));
        }
    }
}

/// A JSON value after optional whitespace at `i`.
pub open spec fn value_at(s: Seq<char>, i: int) -> Option<(Tree, int)>
    decreases s.len() - i, 1int,
{
    let j = skip_ws(s, i);
    proof {
        lemma_skip_ws_ge(s, i);
    }
    if !(0 <= j < s.len()) {
        None
    } else if s[j] == '{' {
        members_at(s, j + 1, Map::empty(), true)
    } else if s[j] == '[' {
        elements_at(s, j + 1, Seq::empty(), true)
    } else if s[j] == 't' {
        if word_at(s, j, seq!['t', 'r', 'u', 'e']) {
            Some((Tree::Bool(true), j + 4))
        } else {
            None
        }
    } else if s[j] == 'f' {
        if word_at(s, j, seq!['f', 'a', 'l', 's', 'e']) {
            Some((Tree::Bool(false), j + 5))
        } else {
            None
        }
    } else if s[j] == 'n' {
        if word_at(s, j, seq!['n', 'u', 'l', 'l']) {
            Some((Tree::Null, j + 4))
        } else {
            None
        }
    } else if s[j] == '"' {
        match string_at(s, j) {
            Some((t, e)) => Some((Tree::Str(t), e)),
            None => None,
        }
    } else if s[j] == '-' || is_digit(s[j]) {
        match number_at(s, j) {
            Some((n, e)) => Some((Tree::Num(n), e)),
            None => None,
        }
    } else {
        None
    }
}

/// The members of an object from `k`, just past its `{` (`first`) or past a
/// `,`, with `acc` holding the members before: the object and the position
/// past its `}`. After a `,` another member must follow.
/// (The test `d >= k` holds wherever `parse` meets it, as its cursor never
/// moves back; it makes the recursion's measure visible.)
pub open spec fn members_at(s: Seq<char>, k: int, acc: Map<Seq<char>, Tree>, first: bool) -> Option<(Tree, int)>
    decreases s.len() - k, 2int,
{
    let j = skip_ws(s, k);
    proof {
        lemma_skip_ws_ge(s, k);
    }
    if !(0 <= j < s.len()) {
        None
    } else if first && s[j] == '}' {
        Some((Tree::Obj(acc), j + 1))
    } else {
        match string_at(s, j) {
            None => None,
            Some((key, e1)) => {
                let c = skip_ws(s, e1);
                proof {
                    lemma_string_body_gt(s, j + 1, Seq::empty());
                    lemma_skip_ws_ge(s, e1);
                }
                if !(0 <= c < s.len()) || s[c] != ':' {
                    None
                } else {
                    match value_at(s, c + 1) {
                        None => None,
                        Some((v, e2)) => {
                            let d = skip_ws(s, e2);
                            let acc2 = acc.insert(key, v);
                            if !(0 <= d < s.len()) {
                                None
                            } else if s[d] == '}' {
                                Some((Tree::Obj(acc2), d + 1))
                            } else if s[d] == ',' && d >= k {
                                members_at(s, d + 1, acc2, false)
                            } else {
                                None
                            }
                        },
                    }
                }
            },
        }
    }
}

/// The elements of an array from `k`, just past its `[` (`first`) or past a
/// `,`, with `acc` holding the elements before: the array and the position
/// past its `]`. After a `,` another element must follow.
/// (The test `d >= k` holds wherever `parse` meets it; it makes the
/// recursion's measure visible.)
pub open spec fn elements_at(s: Seq<char>, k: int, acc: Seq<Tree>, first: bool) -> Option<(Tree, int)>
    decreases s.len() - k, 2int,
{
    let j = skip_ws(s, k);
    proof {
        lemma_skip_ws_ge(s, k);
    }
    if !(0 <= j < s.len()) {
        None
    } else if first && s[j] == ']' {
        Some((Tree::Arr(acc), j + 1))
    } else {
        match value_at(s, j) {
            None => None,
            Some((v, e)) => {
                let d = skip_ws(s, e);
                let acc2 = acc.push(v);
                if !(0 <= d < s.len()) {
                    None
                } else if s[d] == ']' {
                    Some((Tree::Arr(acc2), d + 1))
                } else if s[d] == ',' && d >= k {
                    elements_at(s, d + 1, acc2, false)
                } else {
                    None
                }
            },
        }
    }
}

} // verus!
