//! Literal values: column defaults and what they are made of.

use vstd::prelude::*;

verus! {

/// A literal of a primitive type, in its physical form.
///
/// Several logical types share a variant: dates are day counts in `Int`, times and timestamps are
/// `Long`, decimals are unscaled `Int128` values, UUIDs are `UInt128`. Floating-point values are
/// held as their IEEE 754 bit patterns, so that two of them are the same value exactly where
/// their bits are.
#[derive(Debug, PartialEq, Eq)]
pub enum PrimitiveLiteral {
    Boolean(bool),
    Int(i32),
    Long(i64),
    Float(u32),
    Double(u64),
    String(String),
    Binary(Vec<u8>),
    Int128(i128),
    UInt128(u128),
}

/// The mathematical value of a [`PrimitiveLiteral`].
pub enum PrimitiveView {
    Boolean(bool),
    Int(i32),
    Long(i64),
    Float(u32),
    Double(u64),
    String(Seq<char>),
    Binary(Seq<u8>),
    Int128(i128),
    UInt128(u128),
}

impl View for PrimitiveLiteral {
    type V = PrimitiveView;

    open spec fn view(&self) -> PrimitiveView {
        match *self {
            PrimitiveLiteral::Boolean(x) => PrimitiveView::Boolean(x),
            PrimitiveLiteral::Int(x) => PrimitiveView::Int(x),
            PrimitiveLiteral::Long(x) => PrimitiveView::Long(x),
            PrimitiveLiteral::Float(x) => PrimitiveView::Float(x),
            PrimitiveLiteral::Double(x) => PrimitiveView::Double(x),
            PrimitiveLiteral::String(x) => PrimitiveView::String(x@),
            PrimitiveLiteral::Binary(x) => PrimitiveView::Binary(x@),
            PrimitiveLiteral::Int128(x) => PrimitiveView::Int128(x),
            PrimitiveLiteral::UInt128(x) => PrimitiveView::UInt128(x),
        }
    }
}

/// Whether two byte strings are the same.
fn bytes_eq(a: &Vec<u8>, b: &Vec<u8>) -> (equal: bool)
    ensures
        equal == (a@ == b@),
{
    if a.len() != b.len() {
        return false;
    }
    let mut i: usize = 0;
    while i < a.len()
        invariant
            i <= a@.len(),
            a@.len() == b@.len(),
            forall|j: int| 0 <= j < i ==> a@[j] == b@[j],
        decreases a@.len() - i,
    {
        if a[i] != b[i] {
            return false;
        }
        i += 1;
    }
    assert(a@ =~= b@);
    true
}

/// A copy of a byte string.
fn copy_bytes(bytes: &Vec<u8>) -> (copy: Vec<u8>)
    ensures
        copy@ == bytes@,
{
    let mut copy: Vec<u8> = Vec::new();
    let mut i: usize = 0;
    while i < bytes.len()
        invariant
            i <= bytes@.len(),
            copy@ == bytes@.take(i as int),
        decreases bytes@.len() - i,
    {
        copy.push(bytes[i]);
        i += 1;
        assert(bytes@.take(i as int) =~= bytes@.take(i - 1).push(bytes@[i - 1]));
    }
    assert(bytes@.take(i as int) =~= bytes@);
    copy
}

impl PrimitiveLiteral {
    /// Whether two primitive literals are the same value. Floating-point values are compared by
    /// their bits: positive and negative zero differ.
    pub fn same_value(&self, other: &PrimitiveLiteral) -> (same: bool)
        ensures
            same == (self@ == other@),
    {
        match (self, other) {
            (PrimitiveLiteral::Boolean(a), PrimitiveLiteral::Boolean(b)) => *a == *b,
            (PrimitiveLiteral::Int(a), PrimitiveLiteral::Int(b)) => *a == *b,
            (PrimitiveLiteral::Long(a), PrimitiveLiteral::Long(b)) => *a == *b,
            (PrimitiveLiteral::Float(a), PrimitiveLiteral::Float(b)) => *a == *b,
            (PrimitiveLiteral::Double(a), PrimitiveLiteral::Double(b)) => *a == *b,
            (PrimitiveLiteral::String(a), PrimitiveLiteral::String(b)) => *a == *b,
            (PrimitiveLiteral::Binary(a), PrimitiveLiteral::Binary(b)) => bytes_eq(a, b),
            (PrimitiveLiteral::Int128(a), PrimitiveLiteral::Int128(b)) => *a == *b,
            (PrimitiveLiteral::UInt128(a), PrimitiveLiteral::UInt128(b)) => *a == *b,
            _ => false,
        }
    }
}

impl Clone for PrimitiveLiteral {
    fn clone(&self) -> (copy: PrimitiveLiteral)
        ensures
            copy@ == self@,
    {
        match self {
            PrimitiveLiteral::Boolean(x) => PrimitiveLiteral::Boolean(*x),
            PrimitiveLiteral::Int(x) => PrimitiveLiteral::Int(*x),
            PrimitiveLiteral::Long(x) => PrimitiveLiteral::Long(*x),
            PrimitiveLiteral::Float(x) => PrimitiveLiteral::Float(*x),
            PrimitiveLiteral::Double(x) => PrimitiveLiteral::Double(*x),
            PrimitiveLiteral::String(x) => PrimitiveLiteral::String(x.clone()),
            PrimitiveLiteral::Binary(x) => PrimitiveLiteral::Binary(copy_bytes(x)),
            PrimitiveLiteral::Int128(x) => PrimitiveLiteral::Int128(*x),
            PrimitiveLiteral::UInt128(x) => PrimitiveLiteral::UInt128(*x),
        }
    }
}

/// A literal of any type.
#[derive(Debug, PartialEq, Eq)]
pub enum Literal {
    Primitive(PrimitiveLiteral),
    Struct(Vec<Option<Literal>>),
    List(Vec<Option<Literal>>),
    MapOf(Vec<(Literal, Option<Literal>)>),
}

/// The mathematical value of a [`Literal`].
pub enum LiteralView {
    Primitive(PrimitiveView),
    Struct(Seq<Option<LiteralView>>),
    List(Seq<Option<LiteralView>>),
    MapOf(Seq<(LiteralView, Option<LiteralView>)>),
}

/// The value of a literal, all the way down.
pub open spec fn literal_view(literal: Literal) -> LiteralView
    decreases literal,
{
    match literal {
        Literal::Primitive(p) => LiteralView::Primitive(p@),
        Literal::Struct(items) => LiteralView::Struct(
            Seq::new(
                items@.len(),
                |i: int|
                    if 0 <= i < items@.len() {
                        match items@[i] {
                            Some(x) => Some(literal_view(x)),
                            None => None,
                        }
                    } else {
                        None
                    },
            ),
        ),
        Literal::List(items) => LiteralView::List(
            Seq::new(
                items@.len(),
                |i: int|
                    if 0 <= i < items@.len() {
                        match items@[i] {
                            Some(x) => Some(literal_view(x)),
                            None => None,
                        }
                    } else {
                        None
                    },
            ),
        ),
        Literal::MapOf(items) => LiteralView::MapOf(
            Seq::new(
                items@.len(),
                |i: int|
                    if 0 <= i < items@.len() {
                        (
                            literal_view(items@[i].0),
                            match items@[i].1 {
                                Some(x) => Some(literal_view(x)),
                                None => None,
                            },
                        )
                    } else {
                        arbitrary()
                    },
            ),
        ),
    }
}

impl View for Literal {
    type V = LiteralView;

    open spec fn view(&self) -> LiteralView {
        literal_view(*self)
    }
}

/// An optional literal by its view.
pub open spec fn opt_literal(literal: Option<Literal>) -> Option<LiteralView> {
    match literal {
        Some(x) => Some(x@),
        None => None,
    }
}

/// The views of a list of optional literals.
pub open spec fn items_view(items: Seq<Option<Literal>>) -> Seq<Option<LiteralView>> {
    items.map_values(|item: Option<Literal>| opt_literal(item))
}

/// The views of a list of map entries.
pub open spec fn entries_view(entries: Seq<(Literal, Option<Literal>)>) -> Seq<
    (LiteralView, Option<LiteralView>),
> {
    entries.map_values(|entry: (Literal, Option<Literal>)| (entry.0@, opt_literal(entry.1)))
}

/// The view of a nested literal is made of the views of its parts.
proof fn lemma_nested_view(literal: Literal)
    ensures
        literal matches Literal::Struct(items) ==> literal@ == LiteralView::Struct(
            items_view(items@),
        ),
        literal matches Literal::List(items) ==> literal@ == LiteralView::List(items_view(items@)),
        literal matches Literal::MapOf(items) ==> literal@ == LiteralView::MapOf(
            entries_view(items@),
        ),
{
    match literal {
        Literal::Primitive(_) => {},
        Literal::Struct(items) => {
            assert(literal@->Struct_0 =~= items_view(items@));
        },
        Literal::List(items) => {
            assert(literal@->List_0 =~= items_view(items@));
        },
        Literal::MapOf(items) => {
            assert(literal@->MapOf_0 =~= entries_view(items@));
        },
    }
}

/// Whether two lists of optional literals hold the same values.
fn items_same(a: &Vec<Option<Literal>>, b: &Vec<Option<Literal>>) -> (same: bool)
    ensures
        same == (items_view(a@) == items_view(b@)),
    decreases a,
{
    if a.len() != b.len() {
        assert(items_view(a@).len() != items_view(b@).len());
        return false;
    }
    let mut i: usize = 0;
    while i < a.len()
        invariant
            i <= a@.len(),
            a@.len() == b@.len(),
            forall|j: int| 0 <= j < i ==> opt_literal(#[trigger] a@[j]) == opt_literal(b@[j]),
        decreases a@.len() - i,
    {
        assert(decreases_to!(a => a@));
        assert(decreases_to!(a@ => a@[i as int]));
        let equal = match (&a[i], &b[i]) {
            (Some(x), Some(y)) => x.same(y),
            (None, None) => true,
            _ => false,
        };
        if !equal {
            assert(items_view(a@)[i as int] != items_view(b@)[i as int]);
            return false;
        }
        i += 1;
    }
    assert(items_view(a@) =~= items_view(b@));
    true
}

/// A copy of a list of optional literals.
fn copy_items(items: &Vec<Option<Literal>>) -> (copy: Vec<Option<Literal>>)
    ensures
        items_view(copy@) == items_view(items@),
    decreases items,
{
    let mut copy: Vec<Option<Literal>> = Vec::new();
    let mut i: usize = 0;
    while i < items.len()
        invariant
            i <= items@.len(),
            copy@.len() == i,
            forall|j: int| 0 <= j < i ==> opt_literal(#[trigger] copy@[j]) == opt_literal(items@[j]),
        decreases items@.len() - i,
    {
        assert(decreases_to!(items => items@));
        assert(decreases_to!(items@ => items@[i as int]));
        let item = match &items[i] {
            Some(x) => Some(x.duplicate()),
            None => None,
        };
        copy.push(item);
        i += 1;
    }
    assert(items_view(copy@) =~= items_view(items@));
    copy
}

impl Literal {
    /// A boolean.
    pub fn bool(value: bool) -> (literal: Literal)
        ensures
            literal@ == LiteralView::Primitive(PrimitiveView::Boolean(value)),
    {
        Literal::Primitive(PrimitiveLiteral::Boolean(value))
    }

    /// A 32-bit integer.
    pub fn integer(value: i32) -> (literal: Literal)
        ensures
            literal@ == LiteralView::Primitive(PrimitiveView::Int(value)),
    {
        Literal::Primitive(PrimitiveLiteral::Int(value))
    }

    /// A 64-bit integer; also a time, a timestamp or a timestamp with time zone in the unit of
    /// its column.
    pub fn long(value: i64) -> (literal: Literal)
        ensures
            literal@ == LiteralView::Primitive(PrimitiveView::Long(value)),
    {
        Literal::Primitive(PrimitiveLiteral::Long(value))
    }

    /// A 32-bit floating-point number, given by its bits.
    pub fn float_bits(bits: u32) -> (literal: Literal)
        ensures
            literal@ == LiteralView::Primitive(PrimitiveView::Float(bits)),
    {
        Literal::Primitive(PrimitiveLiteral::Float(bits))
    }

    /// A 64-bit floating-point number, given by its bits.
    pub fn double_bits(bits: u64) -> (literal: Literal)
        ensures
            literal@ == LiteralView::Primitive(PrimitiveView::Double(bits)),
    {
        Literal::Primitive(PrimitiveLiteral::Double(bits))
    }

    /// A string.
    pub fn string(value: &str) -> (literal: Literal)
        ensures
            literal@ == LiteralView::Primitive(PrimitiveView::String(value@)),
    {
        Literal::Primitive(PrimitiveLiteral::String(value.to_owned()))
    }

    /// A byte string.
    pub fn binary(value: Vec<u8>) -> (literal: Literal)
        ensures
            literal@ == LiteralView::Primitive(PrimitiveView::Binary(value@)),
    {
        Literal::Primitive(PrimitiveLiteral::Binary(value))
    }

    /// A date, as days from 1970-01-01.
    pub fn date(days: i32) -> (literal: Literal)
        ensures
            literal@ == LiteralView::Primitive(PrimitiveView::Int(days)),
    {
        Literal::Primitive(PrimitiveLiteral::Int(days))
    }

    /// A decimal, by its unscaled value.
    pub fn decimal(unscaled: i128) -> (literal: Literal)
        ensures
            literal@ == LiteralView::Primitive(PrimitiveView::Int128(unscaled)),
    {
        Literal::Primitive(PrimitiveLiteral::Int128(unscaled))
    }

    /// A UUID, as a 128-bit number.
    pub fn uuid(value: u128) -> (literal: Literal)
        ensures
            literal@ == LiteralView::Primitive(PrimitiveView::UInt128(value)),
    {
        Literal::Primitive(PrimitiveLiteral::UInt128(value))
    }

    /// Whether two literals are the same value.
    pub fn same(&self, other: &Literal) -> (same: bool)
        ensures
            same == (self@ == other@),
        decreases self,
    {
        proof {
            lemma_nested_view(*self);
            lemma_nested_view(*other);
        }
        match (self, other) {
            (Literal::Primitive(a), Literal::Primitive(b)) => a.same_value(b),
            (Literal::Struct(a), Literal::Struct(b)) => items_same(a, b),
            (Literal::List(a), Literal::List(b)) => items_same(a, b),
            (Literal::MapOf(a), Literal::MapOf(b)) => {
                if a.len() != b.len() {
                    assert(entries_view(a@).len() != entries_view(b@).len());
                    return false;
                }
                let mut i: usize = 0;
                while i < a.len()
                    invariant
                        i <= a@.len(),
                        a@.len() == b@.len(),
                        decreases_to!(self => a),
                        self@ == LiteralView::MapOf(entries_view(a@)),
                        other@ == LiteralView::MapOf(entries_view(b@)),
                        forall|j: int|
                            0 <= j < i ==> (#[trigger] a@[j]).0@ == b@[j].0@ && opt_literal(a@[j].1)
                                == opt_literal(b@[j].1),
                    decreases a@.len() - i,
                {
                    assert(decreases_to!(a => a@));
                    assert(decreases_to!(a@ => a@[i as int]));
                    assert(decreases_to!(a@[i as int] => a@[i as int].0));
                    assert(decreases_to!(a@[i as int] => a@[i as int].1));
                    let values = match (&a[i].1, &b[i].1) {
                        (Some(x), Some(y)) => x.same(y),
                        (None, None) => true,
                        _ => false,
                    };
                    if !values || !a[i].0.same(&b[i].0) {
                        assert(entries_view(a@)[i as int] != entries_view(b@)[i as int]);
                        return false;
                    }
                    i += 1;
                }
                assert(entries_view(a@) =~= entries_view(b@));
                true
            },
            _ => false,
        }
    }

    /// A copy of the literal.
    pub fn duplicate(&self) -> (copy: Literal)
        ensures
            copy@ == self@,
        decreases self,
    {
        proof {
            lemma_nested_view(*self);
        }
        let copy = match self {
            Literal::Primitive(p) => Literal::Primitive(p.clone()),
            Literal::Struct(items) => Literal::Struct(copy_items(items)),
            Literal::List(items) => Literal::List(copy_items(items)),
            Literal::MapOf(items) => {
                let mut entries: Vec<(Literal, Option<Literal>)> = Vec::new();
                let mut i: usize = 0;
                while i < items.len()
                    invariant
                        i <= items@.len(),
                        entries@.len() == i,
                        decreases_to!(self => items),
                        forall|j: int|
                            0 <= j < i ==> (#[trigger] entries@[j]).0@ == items@[j].0@
                                && opt_literal(entries@[j].1) == opt_literal(items@[j].1),
                    decreases items@.len() - i,
                {
                    assert(decreases_to!(items => items@));
                    assert(decreases_to!(items@ => items@[i as int]));
                    assert(decreases_to!(items@[i as int] => items@[i as int].0));
                    assert(decreases_to!(items@[i as int] => items@[i as int].1));
                    let value = match &items[i].1 {
                        Some(x) => Some(x.duplicate()),
                        None => None,
                    };
                    entries.push((items[i].0.duplicate(), value));
                    i += 1;
                }
                assert(entries_view(entries@) =~= entries_view(items@));
                Literal::MapOf(entries)
            },
        };
        proof {
            lemma_nested_view(copy);
        }
        copy
    }
}

impl Clone for Literal {
    fn clone(&self) -> (copy: Literal)
        ensures
            copy@ == self@,
    {
        self.duplicate()
    }
}

/// A copy of an optional literal.
pub(crate) fn copy_default(default: &Option<Literal>) -> (copy: Option<Literal>)
    ensures
        opt_literal(copy) == opt_literal(*default),
{
    match default {
        Some(literal) => Some(literal.duplicate()),
        None => None,
    }
}

} // verus!
