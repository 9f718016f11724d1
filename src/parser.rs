//! The recursive-descent parser, generic over the caller's representation.
use crate::grammar::{elements_at, members_at, value_at};
use crate::model::{Array, Null, Object, Tree, Value};
use crate::scan::{
    parse_false, parse_null, parse_number, parse_string, parse_true, skip_whitespace,
};
use vstd::prelude::*;

verus! {

/// Parses one JSON value, after optional whitespace, starting at the cursor.
/// On success the cursor stands just past the value (trailing whitespace is
/// not consumed) and the result stands for the document that `value_at`
/// gives. On failure the result is `None` and the cursor is left somewhere
/// at or after where it was.
pub fn parse<T: Value<A, O, N>, A: Array<T>, O: Object<T>, N: Null>(
    src: &[char],
    index: &mut usize,
) -> (r: Option<T>)
    ensures
        match value_at(src@, *old(index) as int) {
            Some((t, e)) => r matches Some(v) && v.tree() == t && *final(index) as int == e,
            None => r is None,
        },
        *final(index) >= *old(index),
    decreases src.len() - *old(index), 1int,
{
    skip_whitespace(src, index);
    if *index >= src.len() {
        return None;
    }
    let c = src[*index];
    if c == '{' {
        match parse_object::<T, A, O, N>(src, index) {
            Some(o) => Some(T::from_object(o)),
            None => None,
        }
    } else if c == '[' {
        match parse_array::<T, A, O, N>(src, index) {
            Some(a) => Some(T::from_array(a)),
            None => None,
        }
    } else if c == 't' {
        match parse_true(src, index) {
            Some(b) => Some(T::from_bool(b)),
            None => None,
        }
    } else if c == 'f' {
        match parse_false(src, index) {
            Some(b) => Some(T::from_bool(b)),
            None => None,
        }
    } else if c == '"' {
        match parse_string(src, index) {
            Some(s) => Some(T::from_string(s)),
            None => None,
        }
    } else if c == 'n' {
        match parse_null::<N>(src, index) {
            Some(n) => Some(T::from_null(n)),
            None => None,
        }
    } else if c == '-' || ('0' <= c && c <= '9') {
        match parse_number(src, index) {
            Some(n) => Some(T::from_number(n)),
            None => None,
        }
    } else {
        None
    }
}

/// Parses an object whose `{` stands at the cursor.
fn parse_object<T: Value<A, O, N>, A: Array<T>, O: Object<T>, N: Null>(
    src: &[char],
    index: &mut usize,
) -> (r: Option<O>)
    requires
        *old(index) < src.len(),
        src@[*old(index) as int] == '{',
    ensures
        match members_at(src@, *old(index) + 1, Map::empty(), true) {
            Some((t, e)) => r matches Some(o) && t == Tree::Obj(
                o.entries().map_values(|v: T| v.tree()),
            ) && *final(index) as int == e,
            None => r is None,
        },
        *final(index) >= *old(index),
    decreases src.len() - *old(index), 0int,
{
    *index += 1;
    let ghost k0 = *index as int;
    let mut o = O::new();
    let mut first = true;
    proof {
        assert(o.entries().map_values(|v: T| v.tree()) =~= Map::<Seq<char>, Tree>::empty());
    }
    loop
        invariant
            k0 == *old(index) + 1,
            k0 <= *index <= src.len(),
            members_at(src@, *index as int, o.entries().map_values(|v: T| v.tree()), first)
                == members_at(src@, k0, Map::empty(), true),
        decreases src.len() - *index,
    {
        let ghost k = *index as int;
        let ghost acc = o.entries().map_values(|v: T| v.tree());
        skip_whitespace(src, index);
        if *index >= src.len() {
            return None;
        }
        if first && src[*index] == '}' {
            *index += 1;
            return Some(o);
        }
        let key = match parse_string(src, index) {
            Some(key) => key,
            None => return None,
        };
        skip_whitespace(src, index);
        if *index >= src.len() || src[*index] != ':' {
            return None;
        }
        *index += 1;
        let v = match parse::<T, A, O, N>(src, index) {
            Some(v) => v,
            None => return None,
        };
        let ghost key_model = key@;
        let ghost vt = v.tree();
        o.insert(key, v);
        proof {
            assert(o.entries().map_values(|v: T| v.tree()) =~= acc.insert(key_model, vt));
        }
        skip_whitespace(src, index);
        if *index >= src.len() {
            return None;
        }
        if src[*index] == '}' {
            *index += 1;
            return Some(o);
        }
        if src[*index] != ',' {
            return None;
        }
        *index += 1;
        first = false;
    }
}

/// Parses an array whose `[` stands at the cursor.
fn parse_array<T: Value<A, O, N>, A: Array<T>, O: Object<T>, N: Null>(
    src: &[char],
    index: &mut usize,
) -> (r: Option<A>)
    requires
        *old(index) < src.len(),
        src@[*old(index) as int] == '[',
    ensures
        match elements_at(src@, *old(index) + 1, Seq::empty(), true) {
            Some((t, e)) => r matches Some(a) && t == Tree::Arr(
                a.items().map_values(|v: T| v.tree()),
            ) && *final(index) as int == e,
            None => r is None,
        },
        *final(index) >= *old(index),
    decreases src.len() - *old(index), 0int,
{
    *index += 1;
    let ghost k0 = *index as int;
    let mut a = A::new();
    let mut first = true;
    proof {
        assert(a.items().map_values(|v: T| v.tree()) =~= Seq::<Tree>::empty());
    }
    loop
        invariant
            k0 == *old(index) + 1,
            k0 <= *index <= src.len(),
            elements_at(src@, *index as int, a.items().map_values(|v: T| v.tree()), first)
                == elements_at(src@, k0, Seq::empty(), true),
        decreases src.len() - *index,
    {
        let ghost k = *index as int;
        let ghost acc = a.items().map_values(|v: T| v.tree());
        skip_whitespace(src, index);
        if *index >= src.len() {
            return None;
        }
        if first && src[*index] == ']' {
            *index += 1;
            return Some(a);
        }
        let v = match parse::<T, A, O, N>(src, index) {
            Some(v) => v,
            None => return None,
        };
        let ghost vt = v.tree();
        a.push(v);
        proof {
            assert(a.items().map_values(|v: T| v.tree()) =~= acc.push(vt));
        }
        skip_whitespace(src, index);
        if *index >= src.len() {
            return None;
        }
        if src[*index] == ']' {
            *index += 1;
            return Some(a);
        }
        if src[*index] != ',' {
            return None;
        }
        *index += 1;
        first = false;
    }
}

} // verus!
