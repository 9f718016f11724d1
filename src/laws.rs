//! What holds of the parser as a whole: a document written out as JSON text
//! parses back to the document it was written from.
use crate::grammar::{
    digits_end, digits_value, elements_at, is_digit, is_ws, members_at, neg_wrap, number_at,
    skip_ws, string_at, string_body, unescape, value_at, word_at,
};
use crate::model::{DecimalModel, NumberModel, Tree};
use vstd::prelude::*;

verus! {

/// A JSON document as written: arrays and objects list their parts in the
/// order of the text.
pub ghost enum Doc {
    Null,
    Bool(bool),
    /// A run of digits, as `n` is written in decimal.
    Uint(u64),
    /// `-` and the digits of `n`.
    Neg(u64),
    /// A number with a fraction or an exponent, written from its parts.
    Dec(DecimalModel),
    Str(Seq<char>),
    Arr(Seq<Doc>),
    Obj(Seq<(Seq<char>, Doc)>),
}

/// A character inside a string literal: a quote and a backslash are escaped.
pub open spec fn esc(c: char) -> Seq<char> {
    if c == '"' || c == '\\' {
        seq!['\\', c]
    } else {
        seq![c]
    }
}

/// The escaped characters of `c` from position `m` on.
pub open spec fn escaped_from(c: Seq<char>, m: int) -> Seq<char>
    decreases c.len() - m,
{
    if 0 <= m < c.len() {
        esc(c[m]) + escaped_from(c, m + 1)
    } else {
        Seq::empty()
    }
}

/// A string literal for `c`.
pub open spec fn quoted(c: Seq<char>) -> Seq<char> {
    seq!['"'] + escaped_from(c, 0) + seq!['"']
}

/// The decimal digit for `d` (below ten).
pub open spec fn digit_char(d: nat) -> char {
    if d == 0 {
        '0'
    } else if d == 1 {
        '1'
    } else if d == 2 {
        '2'
    } else if d == 3 {
        '3'
    } else if d == 4 {
        '4'
    } else if d == 5 {
        '5'
    } else if d == 6 {
        '6'
    } else if d == 7 {
        '7'
    } else if d == 8 {
        '8'
    } else {
        '9'
    }
}

/// `n` written in decimal, without leading zeros.
pub open spec fn digits(n: nat) -> Seq<char>
    decreases n,
{
    if n < 10 {
        seq![digit_char(n)]
    } else {
        digits(n / 10).push(digit_char(n % 10))
    }
}

pub open spec fn all_digits(w: Seq<char>) -> bool {
    forall|t: int| 0 <= t < w.len() ==> is_digit(#[trigger] w[t])
}

/// The parts of a decimal can be written as a JSON number: digit runs, an
/// integer part without leading zeros, and a fraction or an exponent.
pub open spec fn dec_valid(m: DecimalModel) -> bool {
    &&& m.integer.len() > 0
    &&& all_digits(m.integer)
    &&& m.integer[0] == '0' ==> m.integer.len() == 1
    &&& all_digits(m.fraction)
    &&& all_digits(m.exponent)
    &&& m.fraction.len() > 0 || m.exponent.len() > 0
    &&& m.exp_negative ==> m.exponent.len() > 0
}

pub open spec fn sign_text(neg: bool) -> Seq<char> {
    if neg {
        seq!['-']
    } else {
        Seq::empty()
    }
}

pub open spec fn fraction_text(f: Seq<char>) -> Seq<char> {
    if f.len() > 0 {
        seq!['.'] + f
    } else {
        Seq::empty()
    }
}

pub open spec fn exponent_text(neg: bool, e: Seq<char>) -> Seq<char> {
    if e.len() > 0 {
        seq!['e'] + sign_text(neg) + e
    } else {
        Seq::empty()
    }
}

/// A decimal written out: sign, integer part, `.` and fraction, `e`, sign
/// and exponent, each where present.
pub open spec fn dec_text(m: DecimalModel) -> Seq<char> {
    sign_text(m.negative) + m.integer + fraction_text(m.fraction) + exponent_text(
        m.exp_negative,
        m.exponent,
    )
}

/// Every decimal in the document is valid.
pub open spec fn doc_valid(d: Doc) -> bool
    decreases d, 0nat,
{
    match d {
        Doc::Dec(m) => dec_valid(m),
        Doc::Arr(items) => items_valid(items, items.len()),
        Doc::Obj(ms) => members_valid(ms, ms.len()),
        _ => true,
    }
}

pub open spec fn items_valid(items: Seq<Doc>, n: nat) -> bool
    decreases items, n,
{
    if n == 0 || n > items.len() {
        true
    } else {
        items_valid(items, (n - 1) as nat) && doc_valid(items[n - 1])
    }
}

pub open spec fn members_valid(ms: Seq<(Seq<char>, Doc)>, n: nat) -> bool
    decreases ms, n,
{
    if n == 0 || n > ms.len() {
        true
    } else {
        members_valid(ms, (n - 1) as nat) && doc_valid(ms[n - 1].1)
    }
}

proof fn lemma_items_valid(items: Seq<Doc>, n: nat, m: int)
    requires
        items_valid(items, n),
        n <= items.len(),
        0 <= m < n,
    ensures
        doc_valid(items[m]),
    decreases n,
{
    if m < n - 1 {
        lemma_items_valid(items, (n - 1) as nat, m);
    }
}

proof fn lemma_members_valid(ms: Seq<(Seq<char>, Doc)>, n: nat, m: int)
    requires
        members_valid(ms, n),
        n <= ms.len(),
        0 <= m < n,
    ensures
        doc_valid(ms[m].1),
    decreases n,
{
    if m < n - 1 {
        lemma_members_valid(ms, (n - 1) as nat, m);
    }
}

/// The text at `e` cannot continue a number: it ends, or holds no digit,
/// `.`, `e` or `E`.
pub open spec fn may_follow(s: Seq<char>, e: int) -> bool {
    e >= s.len() || !(is_digit(s[e]) || s[e] == '.' || s[e] == 'e' || s[e] == 'E')
}

/// A run of whitespace characters.
pub open spec fn all_ws(w: Seq<char>) -> bool {
    forall|t: int| 0 <= t < w.len() ==> is_ws(#[trigger] w[t])
}

/// The JSON text of a document, with the whitespace `w` after each opening
/// bracket and around each `,` and `:` and before each closing bracket
/// (`w` empty: the compact text).
pub open spec fn text(d: Doc, w: Seq<char>) -> Seq<char>
    decreases d, 0nat,
{
    match d {
        Doc::Null => seq!['n', 'u', 'l', 'l'],
        Doc::Bool(b) => if b {
            seq!['t', 'r', 'u', 'e']
        } else {
            seq!['f', 'a', 'l', 's', 'e']
        },
        Doc::Uint(n) => digits(n as nat),
        Doc::Neg(n) => seq!['-'] + digits(n as nat),
        Doc::Dec(m) => dec_text(m),
        Doc::Str(c) => quoted(c),
        Doc::Arr(items) => if items.len() == 0 {
            seq!['['] + w + seq![']']
        } else {
            seq!['['] + w + items_text(items, 0, w)
        },
        Doc::Obj(ms) => if ms.len() == 0 {
            seq!['{'] + w + seq!['}']
        } else {
            seq!['{'] + w + members_text(ms, 0, w)
        },
    }
}

/// The elements from `m` on, separated by `,`, and the closing `]`.
pub open spec fn items_text(items: Seq<Doc>, m: nat, w: Seq<char>) -> Seq<char>
    decreases items, items.len() - m,
{
    if m < items.len() {
        text(items[m as int], w) + w + if m + 1 < items.len() {
            seq![','] + w + items_text(items, m + 1, w)
        } else {
            seq![']']
        }
    } else {
        seq![']']
    }
}

/// The members from `m` on, separated by `,`, and the closing `}`.
pub open spec fn members_text(ms: Seq<(Seq<char>, Doc)>, m: nat, w: Seq<char>) -> Seq<char>
    decreases ms, ms.len() - m,
{
    if m < ms.len() {
        quoted(ms[m as int].0) + w + seq![':'] + w + text(ms[m as int].1, w) + w + if m + 1
            < ms.len() {
            seq![','] + w + members_text(ms, m + 1, w)
        } else {
            seq!['}']
        }
    } else {
        seq!['}']
    }
}

/// The abstract document that a written one stands for: of repeated keys
/// the last one wins.
pub open spec fn doc_tree(d: Doc) -> Tree
    decreases d, 0nat,
{
    match d {
        Doc::Null => Tree::Null,
        Doc::Bool(b) => Tree::Bool(b),
        Doc::Uint(n) => Tree::Num(NumberModel::U64(n)),
        Doc::Neg(n) => Tree::Num(NumberModel::I64(neg_wrap(n))),
        Doc::Dec(m) => Tree::Num(NumberModel::Float(m)),
        Doc::Str(c) => Tree::Str(c),
        Doc::Arr(items) => Tree::Arr(doc_trees(items, items.len())),
        Doc::Obj(ms) => Tree::Obj(doc_members(ms, ms.len())),
    }
}

/// The documents of the first `n` elements.
pub open spec fn doc_trees(items: Seq<Doc>, n: nat) -> Seq<Tree>
    decreases items, n,
{
    if n == 0 || n > items.len() {
        Seq::empty()
    } else {
        doc_trees(items, (n - 1) as nat).push(doc_tree(items[n - 1]))
    }
}

/// The map that the first `n` members leave.
pub open spec fn doc_members(ms: Seq<(Seq<char>, Doc)>, n: nat) -> Map<Seq<char>, Tree>
    decreases ms, n,
{
    if n == 0 || n > ms.len() {
        Map::empty()
    } else {
        doc_members(ms, (n - 1) as nat).insert(ms[n - 1].0, doc_tree(ms[n - 1].1))
    }
}

proof fn lemma_split(s: Seq<char>, i: int, a: Seq<char>, b: Seq<char>)
    requires
        word_at(s, i, a + b),
    ensures
        word_at(s, i, a),
        word_at(s, i + a.len(), b),
{
    let full = s.subrange(i, i + (a + b).len());
    assert forall|t: int| 0 <= t < a.len() implies s.subrange(i, i + a.len())[t] == a[t] by {
        assert(full[t] == (a + b)[t]);
    }
    assert forall|t: int| 0 <= t < b.len() implies s.subrange(
        i + a.len(),
        i + a.len() + b.len(),
    )[t] == b[t] by {
        assert(full[a.len() + t] == (a + b)[a.len() + t]);
    }
    assert(s.subrange(i, i + a.len()) =~= a);
    assert(s.subrange(i + a.len(), i + a.len() + b.len()) =~= b);
}

proof fn lemma_char_at(s: Seq<char>, i: int, a: Seq<char>, t: int)
    requires
        word_at(s, i, a),
        0 <= t < a.len(),
    ensures
        s[i + t] == a[t],
{
    assert(s.subrange(i, i + a.len())[t] == s[i + t]);
}

proof fn lemma_body_frame(s: Seq<char>, k: int, c: Seq<char>, m: int)
    requires
        0 <= m <= c.len(),
        word_at(s, k, escaped_from(c, m) + seq!['"']),
    ensures
        string_body(s, k, c.subrange(0, m)) == Some((c, k + escaped_from(c, m).len() + 1)),
    decreases c.len() - m,
{
    if m == c.len() {
        lemma_char_at(s, k, escaped_from(c, m) + seq!['"'], 0);
        assert(c.subrange(0, m) =~= c);
    } else {
        let e = esc(c[m]);
        let rest = escaped_from(c, m + 1);
        assert(escaped_from(c, m) + seq!['"'] =~= e + (rest + seq!['"']));
        lemma_split(s, k, e, rest + seq!['"']);
        assert(c.subrange(0, m).push(c[m]) =~= c.subrange(0, m + 1));
        lemma_char_at(s, k, e, 0);
        if c[m] == '"' || c[m] == '\\' {
            lemma_char_at(s, k, e, 1);
            lemma_body_frame(s, k + 2, c, m + 1);
            assert(unescape(c[m]) == c[m]);
        } else {
            lemma_body_frame(s, k + 1, c, m + 1);
        }
    }
}

proof fn lemma_string_frame(s: Seq<char>, i: int, c: Seq<char>)
    requires
        word_at(s, i, quoted(c)),
    ensures
        string_at(s, i) == Some((c, i + quoted(c).len())),
{
    let body = escaped_from(c, 0);
    assert(quoted(c) =~= seq!['"'] + (body + seq!['"']));
    lemma_split(s, i, seq!['"'], body + seq!['"']);
    lemma_char_at(s, i, seq!['"'], 0);
    assert(c.subrange(0, 0) =~= Seq::<char>::empty());
    lemma_body_frame(s, i + 1, c, 0);
}

proof fn lemma_digit_char(d: nat)
    requires
        d < 10,
    ensures
        is_digit(digit_char(d)),
        digit_char(d) as nat - '0' as nat == d,
{
}

/// Decimal digits of `n`: all digits, the first no `0` unless `n` is zero,
/// and their value is `n`.
proof fn lemma_digits(n: nat)
    ensures
        digits(n).len() > 0,
        forall|t: int| 0 <= t < digits(n).len() ==> is_digit(#[trigger] digits(n)[t]),
        digits(n)[0] == '0' ==> n == 0 && digits(n).len() == 1,
        digits_value(digits(n)) == n,
    decreases n,
{
    if n < 10 {
        lemma_digit_char(n);
        assert(digits(n).drop_last() =~= Seq::<char>::empty());
        assert(digits_value(Seq::<char>::empty()) == 0);
        assert(digits_value(digits(n)) == digits_value(digits(n).drop_last()) * 10 + (
        digits(n).last() as nat - '0' as nat) as nat);
    } else {
        lemma_digits(n / 10);
        lemma_digit_char(n % 10);
        let p = digits(n / 10);
        assert(digits(n).drop_last() =~= p);
        assert(digits(n)[0] == p[0]);
        assert(n == (n / 10) * 10 + n % 10) by (nonlinear_arith);
        assert(digits(n).last() == digit_char(n % 10));
        assert(digits_value(digits(n)) == digits_value(p) * 10 + (n % 10));
    }
}

/// A run of digits at `i` that no digit follows ends where the run ends.
proof fn lemma_digits_run(s: Seq<char>, i: int, w: Seq<char>)
    requires
        word_at(s, i, w),
        forall|t: int| 0 <= t < w.len() ==> is_digit(#[trigger] w[t]),
        i + w.len() >= s.len() || !is_digit(s[i + w.len()]),
    ensures
        digits_end(s, i) == i + w.len(),
    decreases w.len(),
{
    if w.len() > 0 {
        lemma_char_at(s, i, w, 0);
        assert(seq![w[0]] + w.drop_first() =~= w);
        lemma_split(s, i, seq![w[0]], w.drop_first());
        lemma_digits_run(s, i + 1, w.drop_first());
    }
}

/// The digits of `n` at `i` (after a `-` at `i` where `neg`), followed by
/// what cannot continue a number, parse to that integer.
proof fn lemma_number_frame(s: Seq<char>, i: int, n: u64, neg: bool)
    requires
        0 <= i,
        neg ==> i < s.len() && s[i] == '-',
        word_at(s, if neg { i + 1 } else { i }, digits(n as nat)),
        may_follow(s, (if neg { i + 1 } else { i }) + digits(n as nat).len()),
    ensures
        number_at(s, i) == Some((
            if neg { NumberModel::I64(neg_wrap(n)) } else { NumberModel::U64(n) },
            (if neg { i + 1 } else { i }) + digits(n as nat).len(),
        )),
{
    let w = digits(n as nat);
    let k = if neg { i + 1 } else { i };
    lemma_digits(n as nat);
    lemma_char_at(s, k, w, 0);
    lemma_digits_run(s, k, w);
    let ie = k + w.len();
    assert(s.subrange(k, ie) == w);
    assert(n as nat % 0x1_0000_0000_0000_0000nat == n as nat);
    if !neg {
        assert(!(s[i] == '-'));
    }
}

/// A valid decimal written at `i`, followed by what cannot continue a
/// number, parses to its parts.
#[verifier::rlimit(40)]
proof fn lemma_dec_frame(s: Seq<char>, i: int, m: DecimalModel)
    requires
        dec_valid(m),
        word_at(s, i, dec_text(m)),
        may_follow(s, i + dec_text(m).len()),
    ensures
        number_at(s, i) == Some((NumberModel::Float(m), i + dec_text(m).len())),
{
    let sg = sign_text(m.negative);
    let a = m.integer;
    let f = fraction_text(m.fraction);
    let x = exponent_text(m.exp_negative, m.exponent);
    lemma_split(s, i, sg + a + f, x);
    lemma_split(s, i, sg + a, f);
    lemma_split(s, i, sg, a);
    let k = i + sg.len();
    let ie = k + a.len();
    let fe = ie + f.len();
    let end = fe + x.len();
    assert(dec_text(m).len() == end - i);
    lemma_char_at(s, k, a, 0);
    if m.negative {
        lemma_char_at(s, i, sg, 0);
    } else {
        assert(k == i);
    }
    if x.len() > 0 {
        assert(x =~= seq!['e'] + (sign_text(m.exp_negative) + m.exponent));
        lemma_split(s, fe, seq!['e'], sign_text(m.exp_negative) + m.exponent);
        lemma_char_at(s, fe, seq!['e'], 0);
        let es = fe + 1 + sign_text(m.exp_negative).len();
        lemma_split(s, fe + 1, sign_text(m.exp_negative), m.exponent);
        lemma_char_at(s, es, m.exponent, 0);
        if m.exp_negative {
            lemma_char_at(s, fe + 1, sign_text(m.exp_negative), 0);
        }
        lemma_digits_run(s, es, m.exponent);
        assert(s.subrange(es, end) == m.exponent);
    }
    if f.len() > 0 {
        lemma_split(s, ie, seq!['.'], m.fraction);
        lemma_char_at(s, ie, seq!['.'], 0);
        lemma_digits_run(s, ie + 1, m.fraction);
        assert(s.subrange(ie + 1, fe) == m.fraction);
    }
    lemma_digits_run(s, k, a);
    assert(s.subrange(k, ie) == a);
    let neg = 0 <= i < s.len() && s[i] == '-';
    assert(neg == m.negative);
    assert(is_digit(s[k]));
    assert(ie == if s[k] == '0' { k + 1 } else { digits_end(s, k) });
    let has_frac = ie < s.len() && s[ie] == '.';
    assert(has_frac == (m.fraction.len() > 0));
    assert(fe == if has_frac { digits_end(s, ie + 1) } else { ie });
    let has_exp = fe < s.len() && (s[fe] == 'e' || s[fe] == 'E');
    assert(has_exp == (m.exponent.len() > 0));
    let signed_exp = has_exp && fe + 1 < s.len() && (s[fe + 1] == '+' || s[fe + 1] == '-');
    assert(signed_exp == m.exp_negative);
    let es = if signed_exp { fe + 2 } else if has_exp { fe + 1 } else { fe };
    if has_exp {
        assert(digits_end(s, es) == end);
    } else {
        assert(end == fe);
        assert(m.exponent =~= Seq::<char>::empty());
    }
    if !has_frac {
        assert(m.fraction =~= Seq::<char>::empty());
    }
}

/// The first character of a written document opens its value.
proof fn lemma_text_first(d: Doc, w: Seq<char>)
    requires
        doc_valid(d),
    ensures
        text(d, w).len() > 0,
        text(d, w)[0] == 'n' || text(d, w)[0] == 't' || text(d, w)[0] == 'f' || text(d, w)[0]
            == '"' || text(d, w)[0] == '[' || text(d, w)[0] == '{' || text(d, w)[0] == '-'
            || is_digit(text(d, w)[0]),
{
    match d {
        Doc::Uint(n) => {
            lemma_digits(n as nat);
        },
        Doc::Neg(n) => {
            assert((seq!['-'] + digits(n as nat))[0] == '-');
        },
        Doc::Dec(m) => {
            let sg = sign_text(m.negative);
            assert(dec_text(m) =~= sg + (m.integer + fraction_text(m.fraction) + exponent_text(
                m.exp_negative,
                m.exponent,
            )));
            if !m.negative {
                assert(dec_text(m)[0] == m.integer[0]);
            }
        },
        Doc::Str(c) => {
            assert(quoted(c)[0] == '"');
        },
        Doc::Arr(items) => {
            if items.len() > 0 {
                assert((seq!['['] + w + items_text(items, 0, w))[0] == '[');
            } else {
                assert((seq!['['] + w + seq![']'])[0] == '[');
            }
        },
        Doc::Obj(ms) => {
            if ms.len() > 0 {
                assert((seq!['{'] + w + members_text(ms, 0, w))[0] == '{');
            } else {
                assert((seq!['{'] + w + seq!['}'])[0] == '{');
            }
        },
        _ => {},
    }
}

proof fn lemma_skip_run(s: Seq<char>, i: int, j: int)
    requires
        0 <= i <= j <= s.len(),
        forall|t: int| i <= t < j ==> is_ws(#[trigger] s[t]),
    ensures
        skip_ws(s, i) == skip_ws(s, j),
    decreases j - i,
{
    if i < j {
        lemma_skip_run(s, i + 1, j);
    }
}

/// Whitespace `w` at `p` and then a character that is none: skipping
/// whitespace from `p` ends past `w`.
proof fn lemma_skip_gap(s: Seq<char>, p: int, w: Seq<char>, rest: Seq<char>)
    requires
        all_ws(w),
        word_at(s, p, w + rest),
        rest.len() > 0,
        !is_ws(rest[0]),
    ensures
        skip_ws(s, p) == p + w.len(),
        word_at(s, p + w.len(), rest),
        s[p + w.len()] == rest[0],
{
    lemma_split(s, p, w, rest);
    assert forall|t: int| p <= t < p + w.len() implies is_ws(#[trigger] s[t]) by {
        lemma_char_at(s, p, w, t - p);
    }
    lemma_skip_run(s, p, p + w.len());
    lemma_char_at(s, p + w.len(), rest, 0);
}

/// A document written at `i` parses, whatever that cannot continue a number
/// follows it, to its tree and ends where its text ends.
proof fn lemma_value_frame(s: Seq<char>, i: int, d: Doc, w: Seq<char>)
    requires
        all_ws(w),
        doc_valid(d),
        word_at(s, i, text(d, w)),
        may_follow(s, i + text(d, w).len()),
    ensures
        value_at(s, i) == Some((doc_tree(d), i + text(d, w).len())),
    decreases d, 0nat,
{
    lemma_text_first(d, w);
    lemma_char_at(s, i, text(d, w), 0);
    assert(skip_ws(s, i) == i);
    match d {
        Doc::Null => {},
        Doc::Bool(b) => {},
        Doc::Uint(n) => {
            lemma_number_frame(s, i, n, false);
        },
        Doc::Neg(n) => {
            lemma_split(s, i, seq!['-'], digits(n as nat));
            lemma_char_at(s, i, seq!['-'], 0);
            lemma_number_frame(s, i, n, true);
        },
        Doc::Dec(m) => {
            lemma_dec_frame(s, i, m);
        },
        Doc::Str(c) => {
            lemma_string_frame(s, i, c);
        },
        Doc::Arr(items) => {
            assert(doc_trees(items, 0) =~= Seq::<Tree>::empty());
            if items.len() == 0 {
                assert(seq!['['] + w + seq![']'] =~= seq!['['] + (w + seq![']']));
                lemma_split(s, i, seq!['['], w + seq![']']);
                lemma_skip_gap(s, i + 1, w, seq![']']);
            } else {
                assert(seq!['['] + w + items_text(items, 0, w) =~= seq!['['] + (w + items_text(
                    items,
                    0,
                    w,
                )));
                lemma_split(s, i, seq!['['], w + items_text(items, 0, w));
                lemma_items_frame(s, i + 1, items, 0, w);
            }
        },
        Doc::Obj(ms) => {
            assert(doc_members(ms, 0) =~= Map::<Seq<char>, Tree>::empty());
            if ms.len() == 0 {
                assert(seq!['{'] + w + seq!['}'] =~= seq!['{'] + (w + seq!['}']));
                lemma_split(s, i, seq!['{'], w + seq!['}']);
                lemma_skip_gap(s, i + 1, w, seq!['}']);
            } else {
                assert(seq!['{'] + w + members_text(ms, 0, w) =~= seq!['{'] + (w + members_text(
                    ms,
                    0,
                    w,
                )));
                lemma_split(s, i, seq!['{'], w + members_text(ms, 0, w));
                lemma_members_frame(s, i + 1, ms, 0, w);
            }
        },
    }
}

proof fn lemma_items_frame(s: Seq<char>, k: int, items: Seq<Doc>, m: nat, w: Seq<char>)
    requires
        all_ws(w),
        m < items.len(),
        items_valid(items, items.len()),
        word_at(s, k, w + items_text(items, m, w)),
    ensures
        elements_at(s, k, doc_trees(items, m), m == 0) == Some(
            (Tree::Arr(doc_trees(items, items.len())), k + w.len() + items_text(items, m, w).len()),
        ),
    decreases items, items.len() - m,
{
    let d = items[m as int];
    lemma_items_valid(items, items.len(), m as int);
    lemma_text_first(d, w);
    let tail = if m + 1 < items.len() {
        seq![','] + w + items_text(items, m + 1, w)
    } else {
        seq![']']
    };
    assert(items_text(items, m, w) == text(d, w) + w + tail);
    assert((text(d, w) + w + tail)[0] == text(d, w)[0]);
    lemma_skip_gap(s, k, w, items_text(items, m, w));
    let j = k + w.len();
    assert(text(d, w) + w + tail =~= text(d, w) + (w + tail));
    lemma_split(s, j, text(d, w), w + tail);
    let e = j + text(d, w).len();
    assert((w + tail)[0] == if w.len() > 0 { w[0] } else { tail[0] });
    lemma_char_at(s, e, w + tail, 0);
    lemma_value_frame(s, j, d, w);
    lemma_skip_gap(s, e, w, tail);
    let c = e + w.len();
    assert(doc_trees(items, m + 1) == doc_trees(items, m).push(doc_tree(d)));
    if m + 1 < items.len() {
        assert(tail =~= seq![','] + (w + items_text(items, m + 1, w)));
        lemma_split(s, c, seq![','], w + items_text(items, m + 1, w));
        lemma_items_frame(s, c + 1, items, m + 1, w);
    }
}

#[verifier::rlimit(80)]
proof fn lemma_members_frame(
    s: Seq<char>,
    k: int,
    ms: Seq<(Seq<char>, Doc)>,
    m: nat,
    w: Seq<char>,
)
    requires
        all_ws(w),
        m < ms.len(),
        members_valid(ms, ms.len()),
        word_at(s, k, w + members_text(ms, m, w)),
    ensures
        members_at(s, k, doc_members(ms, m), m == 0) == Some(
            (Tree::Obj(doc_members(ms, ms.len())), k + w.len() + members_text(ms, m, w).len()),
        ),
    decreases ms, ms.len() - m,
{
    let key = ms[m as int].0;
    let d = ms[m as int].1;
    lemma_members_valid(ms, ms.len(), m as int);
    lemma_text_first(d, w);
    let tail = if m + 1 < ms.len() {
        seq![','] + w + members_text(ms, m + 1, w)
    } else {
        seq!['}']
    };
    let after_key = w + (seq![':'] + (w + (text(d, w) + (w + tail))));
    assert(members_text(ms, m, w) =~= quoted(key) + after_key);
    assert(quoted(key)[0] == '"');
    assert(members_text(ms, m, w)[0] == '"');
    lemma_skip_gap(s, k, w, members_text(ms, m, w));
    let j = k + w.len();
    lemma_split(s, j, quoted(key), after_key);
    lemma_string_frame(s, j, key);
    let e1 = j + quoted(key).len();
    lemma_skip_gap(s, e1, w, seq![':'] + (w + (text(d, w) + (w + tail))));
    let c = e1 + w.len();
    lemma_split(s, c, seq![':'], w + (text(d, w) + (w + tail)));
    assert((text(d, w) + (w + tail))[0] == text(d, w)[0]);
    lemma_skip_gap(s, c + 1, w, text(d, w) + (w + tail));
    let j2 = c + 1 + w.len();
    lemma_split(s, j2, text(d, w), w + tail);
    let e = j2 + text(d, w).len();
    assert((w + tail)[0] == if w.len() > 0 { w[0] } else { tail[0] });
    lemma_char_at(s, e, w + tail, 0);
    lemma_value_frame(s, j2, d, w);
    assert(skip_ws(s, j2) == j2);
    assert(value_at(s, c + 1) == value_at(s, j2));
    lemma_skip_gap(s, e, w, tail);
    let c2 = e + w.len();
    assert(doc_members(ms, m + 1) == doc_members(ms, m).insert(key, doc_tree(d)));
    if m + 1 < ms.len() {
        assert(tail =~= seq![','] + (w + members_text(ms, m + 1, w)));
        lemma_split(s, c2, seq![','], w + members_text(ms, m + 1, w));
        lemma_members_frame(s, c2 + 1, ms, m + 1, w);
    }
}

/// Any document written as JSON text, with any whitespace `w` between its
/// tokens, parses back: the parse consumes the whole text and gives the
/// document's tree.
pub proof fn lemma_parse_written(d: Doc, w: Seq<char>)
    requires
        doc_valid(d),
        all_ws(w),
    ensures
        value_at(text(d, w), 0) == Some((doc_tree(d), text(d, w).len() as int)),
{
    assert(text(d, w).subrange(0, text(d, w).len() as int) =~= text(d, w));
    lemma_value_frame(text(d, w), 0, d, w);
}

/// Writing a document and parsing the text back gives the tree that the
/// document stands for, and parsing stops just past the written text
/// whatever follows it (unless it continues a number).
pub proof fn lemma_round_trip(d: Doc, after: Seq<char>)
    requires
        doc_valid(d),
        may_follow(after, 0),
    ensures
        value_at(text(d, Seq::empty()) + after, 0) == Some(
            (doc_tree(d), text(d, Seq::empty()).len() as int),
        ),
{
    let t = text(d, Seq::empty());
    let s = t + after;
    assert(s.subrange(0, t.len() as int) =~= t);
    if after.len() > 0 {
        assert(s[t.len() as int] == after[0]);
    }
    lemma_value_frame(s, 0, d, Seq::empty());
}

/// Whitespace before, between and after the tokens does not change what
/// parses: the same tree as from the compact text, and the parse ends just
/// past the last token.
pub proof fn lemma_whitespace_insignificant(ws: Seq<char>, d: Doc, w: Seq<char>, after: Seq<char>)
    requires
        doc_valid(d),
        all_ws(ws),
        all_ws(w),
        all_ws(after),
    ensures
        value_at(ws + text(d, w) + after, 0) == Some(
            (doc_tree(d), (ws.len() + text(d, w).len()) as int),
        ),
        value_at(text(d, Seq::empty()), 0) == Some(
            (doc_tree(d), text(d, Seq::empty()).len() as int),
        ),
{
    let s = ws + text(d, w) + after;
    lemma_text_first(d, w);
    assert(ws + text(d, w) + after =~= ws + (text(d, w) + after));
    assert((text(d, w) + after)[0] == text(d, w)[0]);
    assert(s.subrange(0, (ws.len() + text(d, w).len() + after.len()) as int) =~= ws + (text(
        d,
        w,
    ) + after));
    lemma_skip_gap(s, 0, ws, text(d, w) + after);
    lemma_split(s, ws.len() as int, text(d, w), after);
    if after.len() > 0 {
        lemma_char_at(s, (ws.len() + text(d, w).len()) as int, after, 0);
    }
    lemma_value_frame(s, ws.len() as int, d, w);
    lemma_parse_written(d, Seq::empty());
}

} // verus!
