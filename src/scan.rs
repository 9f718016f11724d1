//! Lexers for the scalar tokens: whitespace, literals, strings and numbers.
//! Each advances a shared cursor into the input and never moves it back.
use crate::grammar::{
    code_char, code_of, digits_end, lemma_digits_end_bounds, lemma_skip_ws_ge, digits_value, hex4_at, hex4_value, hex_val, is_digit,
    is_scalar, is_space, is_ws, neg_wrap, number_at, skip_ws, string_at, string_body, unescape,
    word_at, TWO_64,
};
use crate::model::{Decimal, Null, Number};
use vstd::arithmetic::div_mod::{lemma_add_mod_noop, lemma_mul_mod_noop_left};
use vstd::prelude::*;

verus! {

/// Relies on `String::push`: the character is appended.
#[verifier::external_body]
fn push_char(s: &mut String, c: char)
    ensures
        final(s)@ == old(s)@.push(c),
{
    s.push(c)
}

/// Relies on `char::from_u32`: `Some` exactly for a Unicode scalar value,
/// holding the character with that code.
#[verifier::external_body]
fn char_from_code(v: u32) -> (r: Option<char>)
    ensures
        r is Some <==> is_scalar(v as int),
        r matches Some(c) ==> code_of(c) == v as int,
{
    char::from_u32(v)
}

/// Advances the cursor past consecutive whitespace.
pub fn skip_whitespace(src: &[char], index: &mut usize)
    ensures
        *final(index) as int == skip_ws(src@, *old(index) as int),
        *final(index) >= *old(index),
{
    let ghost i0 = *index as int;
    proof {
        lemma_skip_ws_ge(src@, i0);
    }
    while *index < src.len() && is_space(src[*index])
        invariant
            skip_ws(src@, *index as int) == skip_ws(src@, i0),
        decreases src.len() - *index,
    {
        *index += 1;
    }
}

/// Matches the word `w` at the cursor and on success moves past it.
pub fn parse_word(src: &[char], index: &mut usize, w: &[char]) -> (r: bool)
    ensures
        r == word_at(src@, *old(index) as int, w@),
        r ==> *final(index) == *old(index) + w.len(),
        !r ==> *final(index) == *old(index),
{
    if src.len() < w.len() || *index > src.len() - w.len() {
        return false;
    }
    let i = *index;
    let mut k: usize = 0;
    while k < w.len()
        invariant
            i == *index,
            i + w.len() <= src.len(),
            k <= w.len(),
            forall|t: int| 0 <= t < k ==> src@[i + t] == w@[t],
        decreases w.len() - k,
    {
        if src[i + k] != w[k] {
            proof {
                assert(src@.subrange(i as int, i + w.len())[k as int] != w@[k as int]);
            }
            return false;
        }
        k += 1;
    }
    proof {
        assert(src@.subrange(i as int, i + w.len()) =~= w@);
    }
    *index = i + w.len();
    true
}

/// The literal `true`.
pub fn parse_true(src: &[char], index: &mut usize) -> (r: Option<bool>)
    ensures
        r is Some <==> word_at(src@, *old(index) as int, seq!['t', 'r', 'u', 'e']),
        r is Some ==> r == Some(true) && *final(index) == *old(index) + 4,
        *final(index) >= *old(index),
{
    let w: [char; 4] = ['t', 'r', 'u', 'e'];
    proof {
        assert(w@ =~= seq!['t', 'r', 'u', 'e']);
    }
    if parse_word(src, index, &w) {
        Some(true)
    } else {
        None
    }
}

/// The literal `false`.
pub fn parse_false(src: &[char], index: &mut usize) -> (r: Option<bool>)
    ensures
        r is Some <==> word_at(src@, *old(index) as int, seq!['f', 'a', 'l', 's', 'e']),
        r is Some ==> r == Some(false) && *final(index) == *old(index) + 5,
        *final(index) >= *old(index),
{
    let w: [char; 5] = ['f', 'a', 'l', 's', 'e'];
    proof {
        assert(w@ =~= seq!['f', 'a', 'l', 's', 'e']);
    }
    if parse_word(src, index, &w) {
        Some(false)
    } else {
        None
    }
}

/// The literal `null`, as the caller's null marker.
pub fn parse_null<N: Null>(src: &[char], index: &mut usize) -> (r: Option<N>)
    ensures
        r is Some <==> word_at(src@, *old(index) as int, seq!['n', 'u', 'l', 'l']),
        r is Some ==> *final(index) == *old(index) + 4,
        *final(index) >= *old(index),
{
    let w: [char; 4] = ['n', 'u', 'l', 'l'];
    proof {
        assert(w@ =~= seq!['n', 'u', 'l', 'l']);
    }
    if parse_word(src, index, &w) {
        Some(N::new())
    } else {
        None
    }
}

/// The value of a hexadecimal digit, or 16 for any other character.
pub fn hex_digit(c: char) -> (r: u32)
    ensures
        r as int == hex_val(c),
{
    if '0' <= c && c <= '9' {
        (c as u32) - ('0' as u32)
    } else if 'a' <= c && c <= 'f' {
        (c as u32) - ('a' as u32) + 10
    } else if 'A' <= c && c <= 'F' {
        (c as u32) - ('A' as u32) + 10
    } else {
        16
    }
}

/// With the cursor on the `u` of a `\u` escape: where four hexadecimal
/// digits follow, the character they spell (U+FFFD for half of a surrogate
/// pair), with the cursor moved onto the last digit; else `None` and the
/// cursor stays.
pub fn parse_string_unicode(src: &[char], index: &mut usize) -> (r: Option<char>)
    ensures
        hex4_at(src@, *old(index) + 1) ==> r == Some(code_char(hex4_value(src@, *old(index) + 1)))
            && *final(index) == *old(index) + 4,
        !hex4_at(src@, *old(index) + 1) ==> r is None && *final(index) == *old(index),
{
    let i = *index;
    if src.len() < 5 || i > src.len() - 5 {
        return None;
    }
    let mut v: u32 = 0;
    let mut t: usize = 1;
    while t < 5
        invariant
            i == *index,
            i + 5 <= src.len(),
            1 <= t <= 5,
            forall|u: int| 1 <= u < t ==> hex_val(#[trigger] src@[i + u]) < 16,
            t == 1 ==> v == 0,
            t == 2 ==> v == hex_val(src@[i + 1]),
            t == 3 ==> v == hex_val(src@[i + 1]) * 16 + hex_val(src@[i + 2]),
            t == 4 ==> v == (hex_val(src@[i + 1]) * 16 + hex_val(src@[i + 2])) * 16 + hex_val(
                src@[i + 3],
            ),
            t == 5 ==> v == hex4_value(src@, i + 1),
        decreases 5 - t,
    {
        let d = hex_digit(src[i + t]);
        if d == 16 {
            return None;
        }
        v = v * 16 + d;
        t += 1;
    }
    proof {
        assert(hex_val(src@[i + 1]) < 16);
        assert(hex_val(src@[i + 2]) < 16);
        assert(hex_val(src@[i + 3]) < 16);
        assert(hex_val(src@[i + 4]) < 16);
    }
    *index = i + 4;
    match char_from_code(v) {
        Some(c) => {
            proof {
                let w = choose|x: char| #[trigger] code_of(x) == v as int;
                assert(code_of(w) == code_of(c));
            }
            Some(c)
        },
        None => Some('\u{fffd}'),
    }
}

/// What a backslash and `e` stand for, where `e` is not `u`, newline or
/// carriage return.
pub fn unescape_char(e: char) -> (r: char)
    ensures
        r == unescape(e),
{
    if e == 'b' {
        '\u{8}'
    } else if e == 'f' {
        '\u{c}'
    } else if e == 'n' {
        '\n'
    } else if e == 'r' {
        '\r'
    } else if e == 't' {
        '\t'
    } else {
        e
    }
}

/// A string literal at the cursor, decoded; the cursor moves past its
/// closing quote.
pub fn parse_string(src: &[char], index: &mut usize) -> (r: Option<String>)
    ensures
        match string_at(src@, *old(index) as int) {
            Some((t, e)) => r matches Some(x) && x@ == t && *final(index) as int == e,
            None => r is None,
        },
        *final(index) >= *old(index),
{
    if *index >= src.len() || src[*index] != '"' {
        return None;
    }
    let ghost i0 = *index as int;
    *index += 1;
    let mut v = String::new();
    while *index < src.len()
        invariant
            string_body(src@, *index as int, v@) == string_at(src@, i0),
            *index > i0,
            i0 == *old(index),
        decreases src.len() - *index,
    {
        let c = src[*index];
        if c == '"' {
            *index += 1;
            return Some(v);
        } else if c == '\\' {
            if *index + 1 >= src.len() {
                return None;
            }
            let e = src[*index + 1];
            if e == 'u' {
                *index += 1;
                match parse_string_unicode(src, index) {
                    Some(ch) => push_char(&mut v, ch),
                    None => push_char(&mut v, '\u{fffd}'),
                }
                *index += 1;
            } else if e == '\n' || e == '\r' {
                *index += 2;
            } else {
                push_char(&mut v, unescape_char(e));
                *index += 2;
            }
        } else {
            push_char(&mut v, c);
            *index += 1;
        }
    }
    None
}

proof fn lemma_digit_step(x: int, d: int, m: int)
    requires
        m > 0,
    ensures
        ((x % m) * 10 + d) % m == (x * 10 + d) % m,
{
    lemma_mul_mod_noop_left(x, 10, m);
    lemma_add_mod_noop((x % m) * 10, d, m);
    lemma_add_mod_noop(x * 10, d, m);
}

/// A run of decimal digits at the cursor: its value modulo 2^64; the cursor
/// moves past the run.
pub fn parse_number_integer(src: &[char], index: &mut usize) -> (r: u64)
    requires
        *old(index) <= src.len(),
    ensures
        *final(index) as int == digits_end(src@, *old(index) as int),
        r as nat == digits_value(src@.subrange(*old(index) as int, *final(index) as int))
            % (TWO_64 as nat),
{
    let ghost i0 = *index as int;
    proof {
        lemma_digits_end_bounds(src@, i0);
    }
    let mut v: u64 = 0;
    while *index < src.len() && '0' <= src[*index] && src[*index] <= '9'
        invariant
            i0 <= *index <= src.len(),
            i0 == *old(index),
            digits_end(src@, *index as int) == digits_end(src@, i0),
            v as nat == digits_value(src@.subrange(i0, *index as int)) % (TWO_64 as nat),
        decreases src.len() - *index,
    {
        let d = (src[*index] as u32) - ('0' as u32);
        let ghost x = digits_value(src@.subrange(i0, *index as int)) as int;
        let w: u128 = ((v as u128) * 10 + (d as u128)) % TWO_64;
        proof {
            let sub = src@.subrange(i0, *index + 1);
            assert(sub.drop_last() =~= src@.subrange(i0, *index as int));
            lemma_digit_step(x, d as int, TWO_64 as int);
        }
        v = w as u64;
        *index += 1;
    }
    v
}

/// The integer part of a number at the cursor, which holds a digit: a lone
/// `0`, or else a run of digits. Its value modulo 2^64; the cursor moves past it.
fn parse_integer_part(src: &[char], index: &mut usize) -> (r: u64)
    requires
        *old(index) < src.len(),
        is_digit(src@[*old(index) as int]),
    ensures
        *final(index) as int == if src@[*old(index) as int] == '0' {
            *old(index) + 1
        } else {
            digits_end(src@, *old(index) as int)
        },
        r as nat == digits_value(src@.subrange(*old(index) as int, *final(index) as int))
            % (TWO_64 as nat),
{
    if src[*index] == '0' {
        let ghost sub = src@.subrange(*index as int, *index + 1);
        proof {
            assert(sub.drop_last() =~= Seq::<char>::empty());
            assert(sub.last() == '0');
            assert(digits_value(Seq::<char>::empty()) == 0);
            assert(digits_value(sub) == 0);
        }
        *index += 1;
        0
    } else {
        parse_number_integer(src, index)
    }
}

/// The characters from `a` up to `b`, as a string.
pub fn copy_range(src: &[char], a: usize, b: usize) -> (r: String)
    requires
        a <= b <= src.len(),
    ensures
        r@ == src@.subrange(a as int, b as int),
{
    let mut v = String::new();
    let mut k = a;
    while k < b
        invariant
            a <= k <= b <= src.len(),
            v@ == src@.subrange(a as int, k as int),
        decreases b - k,
    {
        push_char(&mut v, src[k]);
        proof {
            assert(src@.subrange(a as int, k + 1) =~= src@.subrange(a as int, k as int).push(src@[k as int]));
        }
        k += 1;
    }
    v
}

/// The negation of `m`, wrapped to a signed 64-bit integer.
pub fn negate_wrapping(m: u64) -> (r: i64)
    ensures
        r == neg_wrap(m),
{
    if m < 0x8000_0000_0000_0000 {
        -(m as i64)
    } else if m == 0x8000_0000_0000_0000 {
        i64::MIN
    } else {
        (u64::MAX - m + 1) as i64
    }
}

/// A number literal at the cursor, classified by its syntax; the cursor
/// moves past it.
#[verifier::rlimit(60)]
pub fn parse_number(src: &[char], index: &mut usize) -> (r: Option<Number>)
    ensures
        match number_at(src@, *old(index) as int) {
            Some((n, e)) => r matches Some(x) && x@ == n && *final(index) as int == e,
            None => r is None,
        },
        *final(index) >= *old(index),
{
    let i = *index;
    if i >= src.len() {
        return None;
    }
    let neg = src[i] == '-';
    let k = if neg { i + 1 } else { i };
    if k >= src.len() || !('0' <= src[k] && src[k] <= '9') {
        return None;
    }
    let ghost s = src@;
    proof {
        lemma_digits_end_bounds(s, k as int);
    }
    let mut ie = k;
    let m = parse_integer_part(src, &mut ie);
    let has_frac = ie < src.len() && src[ie] == '.';
    let mut fe = ie;
    if has_frac {
        fe = ie + 1;
        proof {
            lemma_digits_end_bounds(s, fe as int);
        }
        parse_number_integer(src, &mut fe);
        if fe == ie + 1 {
            return None;
        }
    }
    let has_exp = fe < src.len() && (src[fe] == 'e' || src[fe] == 'E');
    let signed_exp = has_exp && fe + 1 < src.len() && (src[fe + 1] == '+' || src[fe + 1] == '-');
    let es = if signed_exp {
        fe + 2
    } else if has_exp {
        fe + 1
    } else {
        fe
    };
    let mut ee = es;
    if has_exp {
        proof {
            lemma_digits_end_bounds(s, es as int);
        }
        parse_number_integer(src, &mut ee);
        if ee == es {
            return None;
        }
    }
    proof {
        assert(ie as int == if s[k as int] == '0' { k + 1 } else { digits_end(s, k as int) });
        assert(fe as int == if has_frac { digits_end(s, ie + 1) } else { ie as int });
        assert(has_exp ==> ee as int == digits_end(s, es as int));
    }
    if has_frac || has_exp {
        let d = Decimal {
            negative: neg,
            integer: copy_range(src, k, ie),
            fraction: if has_frac {
                copy_range(src, ie + 1, fe)
            } else {
                String::new()
            },
            exp_negative: signed_exp && src[fe + 1] == '-',
            exponent: if has_exp {
                copy_range(src, es, ee)
            } else {
                String::new()
            },
        };
        *index = if has_exp {
            ee
        } else {
            fe
        };
        proof {
            assert(number_at(s, i as int) == Some((Number::Float(d)@, *index as int)));
        }
        Some(Number::Float(d))
    } else {
        *index = ie;
        proof {
            assert(m as nat == digits_value(s.subrange(k as int, ie as int)) % (TWO_64 as nat));
        }
        if neg {
            Some(Number::I64(negate_wrapping(m)))
        } else {
            Some(Number::U64(m))
        }
    }
}

} // verus!
