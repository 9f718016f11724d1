//! A ready-made value representation that meets the parser's contracts.
use crate::model::{Array, Decimal, Null, Number, Object, Tree, Value};
use vstd::prelude::*;

verus! {

/// A JSON document held in memory.
#[derive(Debug, PartialEq)]
pub enum JsonValue {
    Null,
    Bool(bool),
    Number(Number),
    String(String),
    Array(Vec<JsonValue>),
    Object(JsonObject),
}

/// An array under construction: its elements in order.
#[derive(Debug, PartialEq)]
pub struct JsonArray {
    pub items: Vec<JsonValue>,
}

/// An object under construction: every insert in order. A key that was
/// inserted more than once stands for the value of its last insert.
#[derive(Debug, PartialEq)]
pub struct JsonObject {
    pub entries: Vec<(String, JsonValue)>,
}

/// The members that a list of inserts leaves: a later insert of a key
/// replaces an earlier one.
pub open spec fn entry_map(es: Seq<(String, JsonValue)>) -> Map<Seq<char>, JsonValue>
    decreases es.len(),
{
    if es.len() == 0 {
        Map::empty()
    } else {
        entry_map(es.drop_last()).insert(es.last().0@, es.last().1)
    }
}

impl JsonValue {
    /// The document that this value stands for.
    pub open spec fn tree_of(self) -> Tree
        decreases self, 0nat,
    {
        match self {
            JsonValue::Null => Tree::Null,
            JsonValue::Bool(b) => Tree::Bool(b),
            JsonValue::Number(n) => Tree::Num(n@),
            JsonValue::String(s) => Tree::Str(s@),
            JsonValue::Array(items) => Tree::Arr(trees_of(items, items.len() as nat)),
            JsonValue::Object(o) => Tree::Obj(members_of(o.entries, o.entries.len() as nat)),
        }
    }
}

/// The documents of the first `n` elements.
pub open spec fn trees_of(items: Vec<JsonValue>, n: nat) -> Seq<Tree>
    decreases items, n,
{
    if n == 0 || n > items.len() {
        Seq::empty()
    } else {
        trees_of(items, (n - 1) as nat).push(items[n - 1].tree_of())
    }
}

/// The members that the first `n` inserts leave, as documents.
pub open spec fn members_of(es: Vec<(String, JsonValue)>, n: nat) -> Map<Seq<char>, Tree>
    decreases es, n,
{
    if n == 0 || n > es.len() {
        Map::empty()
    } else {
        members_of(es, (n - 1) as nat).insert(es[n - 1].0@, es[n - 1].1.tree_of())
    }
}

pub proof fn lemma_trees_of(items: Vec<JsonValue>, n: nat)
    requires
        n <= items.len(),
    ensures
        trees_of(items, n) == items@.subrange(0, n as int).map_values(|v: JsonValue| v.tree_of()),
    decreases n,
{
    if n > 0 {
        lemma_trees_of(items, (n - 1) as nat);
    }
    assert(trees_of(items, n) =~= items@.subrange(0, n as int).map_values(
        |v: JsonValue| v.tree_of(),
    ));
}

pub proof fn lemma_members_of(es: Vec<(String, JsonValue)>, n: nat)
    requires
        n <= es.len(),
    ensures
        members_of(es, n) == entry_map(es@.subrange(0, n as int)).map_values(
            |v: JsonValue| v.tree_of(),
        ),
    decreases n,
{
    if n > 0 {
        lemma_members_of(es, (n - 1) as nat);
        assert(es@.subrange(0, n as int).drop_last() =~= es@.subrange(0, n - 1));
    } else {
        assert(es@.subrange(0, n as int) =~= Seq::<(String, JsonValue)>::empty());
    }
    assert(members_of(es, n) =~= entry_map(es@.subrange(0, n as int)).map_values(
        |v: JsonValue| v.tree_of(),
    ));
}

impl Array<JsonValue> for JsonArray {
    open spec fn items(&self) -> Seq<JsonValue> {
        self.items@
    }

    fn new() -> (r: Self) {
        JsonArray { items: Vec::new() }
    }

    fn push(&mut self, v: JsonValue) {
        self.items.push(v);
    }
}

impl Object<JsonValue> for JsonObject {
    open spec fn entries(&self) -> Map<Seq<char>, JsonValue> {
        entry_map(self.entries@)
    }

    fn new() -> (r: Self) {
        let r = JsonObject { entries: Vec::new() };
        proof {
            assert(entry_map(r.entries@) =~= Map::<Seq<char>, JsonValue>::empty());
        }
        r
    }

    fn insert(&mut self, k: String, v: JsonValue) {
        let ghost before = self.entries@;
        let ghost key = k@;
        self.entries.push((k, v));
        proof {
            assert(self.entries@.drop_last() =~= before);
        }
    }
}

impl Null for JsonValue {
    fn new() -> Self {
        JsonValue::Null
    }
}

impl Value<JsonArray, JsonObject, JsonValue> for JsonValue {
    open spec fn tree(&self) -> Tree {
        self.tree_of()
    }

    fn from_string(s: String) -> (r: Self) {
        JsonValue::String(s)
    }

    fn from_bool(b: bool) -> (r: Self) {
        JsonValue::Bool(b)
    }

    fn from_number(n: Number) -> (r: Self) {
        JsonValue::Number(n)
    }

    fn from_array(a: JsonArray) -> (r: Self) {
        proof {
            lemma_trees_of(a.items, a.items.len() as nat);
            assert(a.items@.subrange(0, a.items.len() as int) =~= a.items@);
            assert(a.items@.map_values(|v: JsonValue| v.tree()) =~= a.items@.map_values(
                |v: JsonValue| v.tree_of(),
            ));
        }
        JsonValue::Array(a.items)
    }

    fn from_object(o: JsonObject) -> (r: Self) {
        proof {
            lemma_members_of(o.entries, o.entries.len() as nat);
            assert(o.entries@.subrange(0, o.entries.len() as int) =~= o.entries@);
            assert(entry_map(o.entries@).map_values(|v: JsonValue| v.tree()) =~= entry_map(
                o.entries@,
            ).map_values(|v: JsonValue| v.tree_of()));
        }
        JsonValue::Object(o)
    }

    fn from_null(n: JsonValue) -> (r: Self) {
        JsonValue::Null
    }
}

/// Of inserts that come after position `t` none has key `k`: then the
/// inserts up to `t` decide what `k` maps to.
pub proof fn lemma_entry_map_prefix(es: Seq<(String, JsonValue)>, t: int, k: Seq<char>)
    requires
        0 <= t <= es.len(),
        forall|j: int| t <= j < es.len() ==> (#[trigger] es[j]).0@ != k,
    ensures
        entry_map(es).contains_key(k) == entry_map(es.subrange(0, t)).contains_key(k),
        entry_map(es).contains_key(k) ==> entry_map(es)[k] == entry_map(es.subrange(0, t))[k],
    decreases es.len(),
{
    if t == es.len() {
        assert(es.subrange(0, t) =~= es);
    } else {
        let d = es.drop_last();
        assert(es[es.len() - 1].0@ != k);
        assert(d.subrange(0, t) =~= es.subrange(0, t));
        assert forall|j: int| t <= j < d.len() implies (#[trigger] d[j]).0@ != k by {
            assert(d[j] == es[j]);
        }
        lemma_entry_map_prefix(d, t, k);
    }
}

impl JsonObject {
    /// The value of the last insert of `key`.
    pub fn get(&self, key: &str) -> (r: Option<&JsonValue>)
        ensures
            r is Some <==> self.entries().contains_key(key@),
            r matches Some(v) ==> *v == self.entries()[key@],
    {
        let k = key.to_owned();
        let mut i = self.entries.len();
        while i > 0
            invariant
                i <= self.entries.len(),
                k@ == key@,
                forall|j: int| i <= j < self.entries.len() ==> (#[trigger] self.entries@[j]).0@ != key@,
            decreases i,
        {
            if self.entries[i - 1].0 == k {
                proof {
                    let es = self.entries@;
                    lemma_entry_map_prefix(es, i as int, key@);
                    assert(es.subrange(0, i as int).drop_last() =~= es.subrange(0, i - 1));
                }
                return Some(&self.entries[i - 1].1);
            }
            i -= 1;
        }
        proof {
            lemma_entry_map_prefix(self.entries@, 0, key@);
        }
        None
    }
}

impl JsonValue {
    /// The member `key` of an object, as its last insert left it.
    pub open spec fn member(self, key: Seq<char>) -> Option<JsonValue> {
        match self {
            JsonValue::Object(o) => if o.entries().contains_key(key) {
                Some(o.entries()[key])
            } else {
                None
            },
            _ => None,
        }
    }

    /// The member `key` where this is an object that has it.
    pub fn get(&self, key: &str) -> (r: Option<&JsonValue>)
        ensures
            r is Some <==> self.member(key@) is Some,
            r matches Some(v) ==> self.member(key@) == Some(*v),
    {
        match self {
            JsonValue::Object(o) => o.get(key),
            _ => None,
        }
    }

    /// The member `key` where it is a number without sign, fraction or exponent.
    pub fn u64(&self, key: &str) -> (r: Option<u64>)
        ensures
            r == match self.member(key@) {
                Some(JsonValue::Number(Number::U64(n))) => Some(n),
                _ => None,
            },
    {
        match self.get(key) {
            Some(JsonValue::Number(Number::U64(n))) => Some(*n),
            _ => None,
        }
    }

    /// The member `key` where it is a negative number without fraction or exponent.
    pub fn i64(&self, key: &str) -> (r: Option<i64>)
        ensures
            r == match self.member(key@) {
                Some(JsonValue::Number(Number::I64(n))) => Some(n),
                _ => None,
            },
    {
        match self.get(key) {
            Some(JsonValue::Number(Number::I64(n))) => Some(*n),
            _ => None,
        }
    }

    /// The member `key` where it is a number with a fraction or an exponent.
    pub fn decimal(&self, key: &str) -> (r: Option<&Decimal>)
        ensures
            r is Some <==> self.member(key@) matches Some(JsonValue::Number(Number::Float(_))),
            r matches Some(d) ==> self.member(key@) == Some(JsonValue::Number(Number::Float(*d))),
    {
        match self.get(key) {
            Some(JsonValue::Number(Number::Float(d))) => Some(d),
            _ => None,
        }
    }
}

} // verus!
