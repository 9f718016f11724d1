use vstd::prelude::*;

verus! {

/// A number literal that has a fractional part or an exponent, kept as its
/// digit runs so that no precision is lost before the caller converts it.
#[derive(Debug, PartialEq)]
pub struct Decimal {
    /// A leading `-` was present.
    pub negative: bool,
    /// The digits before the `.` (ASCII digits, at least one).
    pub integer: String,
    /// The digits after the `.`; empty when there is no fractional part.
    pub fraction: String,
    /// The exponent had a `-` sign.
    pub exp_negative: bool,
    /// The exponent's digits; empty when there is no exponent.
    pub exponent: String,
}

/// A number literal classified by its syntax.
#[derive(Debug, PartialEq)]
pub enum Number {
    /// Digits only, no sign: the value of the digits modulo 2^64.
    U64(u64),
    /// Digits only with a leading `-`: the negated value, wrapped to 64 bits.
    I64(i64),
    /// A literal with a `.` or an exponent.
    Float(Decimal),
}

/// What a `Decimal` holds, as sequences of characters.
pub ghost struct DecimalModel {
    pub negative: bool,
    pub integer: Seq<char>,
    pub fraction: Seq<char>,
    pub exp_negative: bool,
    pub exponent: Seq<char>,
}

pub ghost enum NumberModel {
    U64(u64),
    I64(i64),
    Float(DecimalModel),
}

impl View for Decimal {
    type V = DecimalModel;

    open spec fn view(&self) -> DecimalModel {
        DecimalModel {
            negative: self.negative,
            integer: self.integer@,
            fraction: self.fraction@,
            exp_negative: self.exp_negative,
            exponent: self.exponent@,
        }
    }
}

impl View for Number {
    type V = NumberModel;

    open spec fn view(&self) -> NumberModel {
        match self {
            Number::U64(n) => NumberModel::U64(*n),
            Number::I64(n) => NumberModel::I64(*n),
            Number::Float(d) => NumberModel::Float(d@),
        }
    }
}

/// The abstract JSON document: what any value representation stands for.
/// An object is a map from keys to values; of repeated keys the last one wins.
pub ghost enum Tree {
    Null,
    Bool(bool),
    Num(NumberModel),
    Str(Seq<char>),
    Arr(Seq<Tree>),
    Obj(Map<Seq<char>, Tree>),
}

/// The caller's marker for JSON `null`.
pub trait Null: Sized {
    fn new() -> Self;
}

/// The caller's ordered array under construction.
pub trait Array<T>: Sized {
    /// The elements, in order.
    spec fn items(&self) -> Seq<T>;

    fn new() -> (r: Self)
        ensures
            r.items() == Seq::<T>::empty(),
    ;

    fn push(&mut self, v: T)
        ensures
            final(self).items() == old(self).items().push(v),
    ;
}

/// The caller's key/value map under construction.
pub trait Object<T>: Sized {
    /// The members: a later insert of a key replaces the earlier one.
    spec fn entries(&self) -> Map<Seq<char>, T>;

    fn new() -> (r: Self)
        ensures
            r.entries() == Map::<Seq<char>, T>::empty(),
    ;

    fn insert(&mut self, k: String, v: T)
        ensures
            final(self).entries() == old(self).entries().insert(k@, v),
    ;
}

/// The caller's value type: built from each kind of JSON value.
pub trait Value<A: Array<Self>, O: Object<Self>, N: Null>: Sized {
    /// The document that this value stands for.
    spec fn tree(&self) -> Tree;

    fn from_string(s: String) -> (r: Self)
        ensures
            r.tree() == Tree::Str(s@),
    ;

    fn from_bool(b: bool) -> (r: Self)
        ensures
            r.tree() == Tree::Bool(b),
    ;

    fn from_number(n: Number) -> (r: Self)
        ensures
            r.tree() == Tree::Num(n@),
    ;

    fn from_array(a: A) -> (r: Self)
        ensures
            r.tree() == Tree::Arr(a.items().map_values(|v: Self| v.tree())),
    ;

    fn from_object(o: O) -> (r: Self)
        ensures
            r.tree() == Tree::Obj(o.entries().map_values(|v: Self| v.tree())),
    ;

    fn from_null(n: N) -> (r: Self)
        ensures
            r.tree() == Tree::Null,
    ;
}

} // verus!
