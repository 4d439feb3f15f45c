//! Codecs for records and tagged unions, driven by their declared shape:
//! the field list of a record, the variant list of a union.

use vstd::prelude::*;
use vstd::bytes::*;
use vstd::utf8::*;
use vstd::std_specs::vec::axiom_vec_index_decreases;

use crate::read::{after_prefix, lemma_text_round_trip, lemma_text_truncated, FromReader};
use crate::wire::RoundTrip;
use crate::stream::{ByteReader, Error, ErrorKind};
use crate::union::{
    check_union, lemma_tag_round_trip, lemma_tag_truncated, read_variant, tag_encoding, tag_max,
    tag_parse, variant_parse, write_tag, TagType,
};
use crate::write::{nul_terminated, SerializeIo};

verus! {

/// The declared shape of a value: what the codec of a record or tagged
/// union is generated from.
#[derive(Debug, PartialEq)]
pub enum Shape {
    Bool,
    U8,
    U16,
    U32,
    U64,
    I32,
    I64,
    Char,
    Text,
    /// A value that may be absent.
    Optional(Box<Shape>),
    /// Any number of values of one shape.
    List(Box<Shape>),
    /// Fields in declaration order.
    Record(Vec<Shape>),
    /// Variants in declaration order, each with the shape of its payload;
    /// the name is the type's, for errors.
    Union(String, TagType, Vec<Shape>),
}

/// A value of some shape.
#[derive(Debug, PartialEq)]
pub enum Value {
    Bool(bool),
    U8(u8),
    U16(u16),
    U32(u32),
    U64(u64),
    I32(i32),
    I64(i64),
    Char(char),
    Text(String),
    Optional(Option<Box<Value>>),
    List(Vec<Value>),
    Record(Vec<Value>),
    /// The position of the variant among those declared, and its payload.
    Variant(usize, Box<Value>),
}

/// What a value stands for: a `Value` with its text and lists as
/// sequences.
pub enum Datum {
    Bool(bool),
    U8(u8),
    U16(u16),
    U32(u32),
    U64(u64),
    I32(i32),
    I64(i64),
    Char(char),
    Text(Seq<char>),
    Optional(Option<Box<Datum>>),
    List(Seq<Datum>),
    Record(Seq<Datum>),
    Variant(nat, Box<Datum>),
}

impl Value {
    pub open spec fn datum(&self) -> Datum
        decreases *self,
    {
        match self {
            Value::Bool(b) => Datum::Bool(*b),
            Value::U8(x) => Datum::U8(*x),
            Value::U16(x) => Datum::U16(*x),
            Value::U32(x) => Datum::U32(*x),
            Value::U64(x) => Datum::U64(*x),
            Value::I32(x) => Datum::I32(*x),
            Value::I64(x) => Datum::I64(*x),
            Value::Char(c) => Datum::Char(*c),
            Value::Text(t) => Datum::Text(t@),
            Value::Optional(o) => match o {
                Some(b) => Datum::Optional(Some(Box::new((**b).datum()))),
                None => Datum::Optional(None),
            },
            Value::List(items) => Datum::List(datums(items@)),
            Value::Record(fields) => Datum::Record(datums(fields@)),
            Value::Variant(i, p) => Datum::Variant(*i as nat, Box::new((**p).datum())),
        }
    }
}

/// What each of `values` stands for.
pub open spec fn datums(values: Seq<Value>) -> Seq<Datum>
    decreases values,
{
    if values.len() == 0 {
        Seq::empty()
    } else {
        datums(values.drop_last()).push(values.last().datum())
    }
}

/// The bytes that encode `d` as a value of shape `s`.
pub open spec fn encode(s: Shape, d: Datum) -> Seq<u8>
    decreases d,
{
    match d {
        Datum::Bool(b) => b.encoding(),
        Datum::U8(x) => x.encoding(),
        Datum::U16(x) => x.encoding(),
        Datum::U32(x) => x.encoding(),
        Datum::U64(x) => x.encoding(),
        Datum::I32(x) => x.encoding(),
        Datum::I64(x) => x.encoding(),
        Datum::Char(c) => c.encoding(),
        Datum::Text(t) => nul_terminated(encode_utf8(t)),
        Datum::Optional(o) => match (s, o) {
            (Shape::Optional(inner), Some(b)) => seq![1u8] + encode(*inner, *b),
            _ => seq![0u8],
        },
        Datum::List(items) => match s {
            Shape::List(inner) => spec_u32_to_le_bytes(items.len() as u32) + encode_each(
                *inner,
                items,
            ),
            _ => Seq::empty(),
        },
        Datum::Record(fields) => match s {
            Shape::Record(shapes) => encode_fields(shapes@, fields),
            _ => Seq::empty(),
        },
        Datum::Variant(i, p) => match s {
            Shape::Union(_, t, variants) => tag_encoding(t, i) + encode(variants@[i as int], *p),
            _ => Seq::empty(),
        },
    }
}

/// The encodings of `items`, each of shape `s`, one after another.
pub open spec fn encode_each(s: Shape, items: Seq<Datum>) -> Seq<u8>
    decreases items,
{
    if items.len() == 0 {
        Seq::empty()
    } else {
        encode_each(s, items.drop_last()) + encode(s, items.last())
    }
}

/// The encodings of `fields`, each of the shape declared at its position.
pub open spec fn encode_fields(shapes: Seq<Shape>, fields: Seq<Datum>) -> Seq<u8>
    decreases fields,
{
    if fields.len() == 0 {
        Seq::empty()
    } else {
        encode_fields(shapes, fields.drop_last()) + encode(
            shapes[fields.len() - 1],
            fields.last(),
        )
    }
}

/// `res` with its datum wrapped by `f`.
pub open spec fn map_datum<T>(res: Result<(T, nat), ErrorKind>, f: spec_fn(T) -> Datum) -> Result<
    (Datum, nat),
    ErrorKind,
> {
    match res {
        Ok((v, n)) => Ok((f(v), n)),
        Err(k) => Err(k),
    }
}

/// What the bytes at the front of `bytes` decode to as a value of shape
/// `s`, and how many of them that takes; or the kind of error met.
pub open spec fn parse(s: Shape, bytes: Seq<u8>) -> Result<(Datum, nat), ErrorKind>
    decreases s, 0nat, 0nat,
{
    match s {
        Shape::Bool => map_datum(bool::parse(bytes), |v| Datum::Bool(v)),
        Shape::U8 => map_datum(u8::parse(bytes), |v| Datum::U8(v)),
        Shape::U16 => map_datum(u16::parse(bytes), |v| Datum::U16(v)),
        Shape::U32 => map_datum(u32::parse(bytes), |v| Datum::U32(v)),
        Shape::U64 => map_datum(u64::parse(bytes), |v| Datum::U64(v)),
        Shape::I32 => map_datum(i32::parse(bytes), |v| Datum::I32(v)),
        Shape::I64 => map_datum(i64::parse(bytes), |v| Datum::I64(v)),
        Shape::Char => map_datum(char::parse(bytes), |v| Datum::Char(v)),
        Shape::Text => map_datum(String::parse(bytes), |v| Datum::Text(v)),
        Shape::Optional(inner) => if bytes.len() >= 1 {
            if bytes[0] != 0 {
                match parse(*inner, bytes.skip(1)) {
                    Ok((d, n)) => Ok((Datum::Optional(Some(Box::new(d))), n + 1)),
                    Err(k) => Err(k),
                }
            } else {
                Ok((Datum::Optional(None), 1))
            }
        } else {
            Err(ErrorKind::UnexpectedEof)
        },
        Shape::List(inner) => if bytes.len() >= 4 {
            match parse_each(*inner, bytes.skip(4), spec_u32_from_le_bytes(bytes.take(4)) as nat) {
                Ok((ds, n)) => Ok((Datum::List(ds), n + 4)),
                Err(k) => Err(k),
            }
        } else {
            Err(ErrorKind::UnexpectedEof)
        },
        Shape::Record(shapes) => match parse_fields(shapes@, bytes) {
            Ok((ds, n)) => Ok((Datum::Record(ds), n)),
            Err(k) => Err(k),
        },
        Shape::Union(_, t, variants) => match variant_parse(t, variants@.len(), bytes) {
            Ok((i, n)) => if i < variants@.len() {
                match parse(variants@[i as int], bytes.skip(n as int)) {
                    Ok((d, k)) => Ok((Datum::Variant(i, Box::new(d)), n + k)),
                    Err(e) => Err(e),
                }
            } else {
                Err(ErrorKind::InvalidInput)
            },
            Err(e) => Err(e),
        },
    }
}

/// Decoding `count` values of shape `s`, one after another.
pub open spec fn parse_each(s: Shape, bytes: Seq<u8>, count: nat) -> Result<
    (Seq<Datum>, nat),
    ErrorKind,
>
    decreases s, 1nat, count,
{
    if count == 0 {
        Ok((Seq::empty(), 0))
    } else {
        match parse(s, bytes) {
            Ok((d, n)) => match parse_each(s, bytes.skip(n as int), (count - 1) as nat) {
                Ok((ds, k)) => Ok((seq![d] + ds, n + k)),
                Err(e) => Err(e),
            },
            Err(e) => Err(e),
        }
    }
}

/// Decoding one value of each of `shapes`, in order.
pub open spec fn parse_fields(shapes: Seq<Shape>, bytes: Seq<u8>) -> Result<
    (Seq<Datum>, nat),
    ErrorKind,
>
    decreases shapes, 0nat, 0nat,
{
    if shapes.len() == 0 {
        Ok((Seq::empty(), 0))
    } else {
        match parse(shapes[0], bytes) {
            Ok((d, n)) => match parse_fields(shapes.drop_first(), bytes.skip(n as int)) {
                Ok((ds, k)) => Ok((seq![d] + ds, n + k)),
                Err(e) => Err(e),
            },
            Err(e) => Err(e),
        }
    }
}

/// `d` is a value of shape `s` that the wire carries faithfully: text holds
/// no NUL, a list has no more items than a `u32` counts, a record has one
/// field per declared shape, and a variant is one of those declared, in a
/// union whose tag type tells all its variants apart.
pub open spec fn describes(s: Shape, d: Datum) -> bool
    decreases d,
{
    match d {
        Datum::Bool(_) => s is Bool,
        Datum::U8(_) => s is U8,
        Datum::U16(_) => s is U16,
        Datum::U32(_) => s is U32,
        Datum::U64(_) => s is U64,
        Datum::I32(_) => s is I32,
        Datum::I64(_) => s is I64,
        Datum::Char(_) => s is Char,
        Datum::Text(t) => s is Text && !encode_utf8(t).contains(0u8),
        Datum::Optional(o) => match s {
            Shape::Optional(inner) => match o {
                Some(b) => describes(*inner, *b),
                None => true,
            },
            _ => false,
        },
        Datum::List(items) => match s {
            Shape::List(inner) => items.len() <= u32::MAX && describes_each(*inner, items),
            _ => false,
        },
        Datum::Record(fields) => match s {
            Shape::Record(shapes) => shapes@.len() == fields.len() && describes_fields(
                shapes@,
                fields,
            ),
            _ => false,
        },
        Datum::Variant(i, p) => match s {
            Shape::Union(_, t, variants) => {
                &&& 0 < variants@.len()
                &&& variants@.len() - 1 <= tag_max(t)
                &&& i < variants@.len()
                &&& describes(variants@[i as int], *p)
            },
            _ => false,
        },
    }
}

/// Each of `items` is described by `s`.
pub open spec fn describes_each(s: Shape, items: Seq<Datum>) -> bool
    decreases items,
{
    items.len() > 0 ==> describes_each(s, items.drop_last()) && describes(s, items.last())
}

/// Each of `fields` is described by the shape at its position.
pub open spec fn describes_fields(shapes: Seq<Shape>, fields: Seq<Datum>) -> bool
    decreases fields,
{
    fields.len() > 0 ==> describes_fields(shapes, fields.drop_last()) && describes(
        shapes[fields.len() - 1],
        fields.last(),
    )
}

/// The models of `values`, item by item.
pub proof fn lemma_datums(values: Seq<Value>)
    ensures
        datums(values).len() == values.len(),
        forall|i: int| 0 <= i < values.len() ==> #[trigger] datums(values)[i] == values[i].datum(),
    decreases values.len(),
{
    if values.len() > 0 {
        lemma_datums(values.drop_last());
    }
}

/// `describes_each` item by item.
pub proof fn lemma_describes_each(s: Shape, items: Seq<Datum>)
    ensures
        describes_each(s, items) <==> forall|i: int|
            0 <= i < items.len() ==> describes(s, #[trigger] items[i]),
    decreases items.len(),
{
    if items.len() > 0 {
        let front = items.drop_last();
        lemma_describes_each(s, front);
        if forall|i: int| 0 <= i < items.len() ==> describes(s, #[trigger] items[i]) {
            assert forall|i: int| 0 <= i < front.len() implies describes(s, #[trigger] front[i]) by {
                assert(front[i] == items[i]);
            }
            assert(describes(s, items[items.len() - 1]));
        }
        if describes_each(s, items) {
            assert forall|i: int| 0 <= i < items.len() implies describes(s, #[trigger] items[i]) by {
                if i < items.len() - 1 {
                    assert(front[i] == items[i]);
                }
            }
        }
    }
}

/// `describes_fields` field by field.
pub proof fn lemma_describes_fields(shapes: Seq<Shape>, fields: Seq<Datum>)
    ensures
        describes_fields(shapes, fields) <==> forall|i: int|
            0 <= i < fields.len() ==> describes(shapes[i], #[trigger] fields[i]),
    decreases fields.len(),
{
    if fields.len() > 0 {
        let front = fields.drop_last();
        lemma_describes_fields(shapes, front);
        if forall|i: int| 0 <= i < fields.len() ==> describes(shapes[i], #[trigger] fields[i]) {
            assert forall|i: int| 0 <= i < front.len() implies describes(
                shapes[i],
                #[trigger] front[i],
            ) by {
                assert(front[i] == fields[i]);
            }
            assert(describes(shapes[fields.len() - 1], fields[fields.len() - 1]));
        }
        if describes_fields(shapes, fields) {
            assert forall|i: int| 0 <= i < fields.len() implies describes(
                shapes[i],
                #[trigger] fields[i],
            ) by {
                if i < fields.len() - 1 {
                    assert(front[i] == fields[i]);
                }
            }
        }
    }
}

/// `encode_each` read from the front.
pub proof fn lemma_encode_each_front(s: Shape, items: Seq<Datum>)
    requires
        items.len() > 0,
    ensures
        encode_each(s, items) == encode(s, items[0]) + encode_each(s, items.drop_first()),
    decreases items.len(),
{
    if items.len() > 1 {
        lemma_encode_each_front(s, items.drop_last());
        assert(items.drop_last().drop_first() =~= items.drop_first().drop_last());
        assert(encode_each(s, items) =~= encode(s, items[0]) + encode_each(s, items.drop_first()));
    } else {
        assert(items.drop_first() =~= Seq::<Datum>::empty());
        assert(encode_each(s, items.drop_last()) =~= Seq::<u8>::empty());
        assert(encode_each(s, items) =~= encode(s, items[0]) + encode_each(s, items.drop_first()));
    }
}

/// `encode_fields` read from the front.
pub proof fn lemma_encode_fields_front(shapes: Seq<Shape>, fields: Seq<Datum>)
    requires
        fields.len() > 0,
        shapes.len() == fields.len(),
    ensures
        encode_fields(shapes, fields) == encode(shapes[0], fields[0]) + encode_fields(
            shapes.drop_first(),
            fields.drop_first(),
        ),
    decreases fields.len(),
{
    if fields.len() > 1 {
        lemma_encode_fields_front(shapes.drop_last(), fields.drop_last());
        lemma_encode_fields_prefix(shapes, shapes.drop_last(), fields.drop_last());
        lemma_encode_fields_prefix(
            shapes.drop_first(),
            shapes.drop_last().drop_first(),
            fields.drop_last().drop_first(),
        );
        assert(fields.drop_last().drop_first() =~= fields.drop_first().drop_last());
        assert(shapes.drop_first()[fields.drop_first().len() - 1] == shapes[fields.len() - 1]);
        assert(encode_fields(shapes, fields) =~= encode(shapes[0], fields[0]) + encode_fields(
            shapes.drop_first(),
            fields.drop_first(),
        ));
    } else {
        assert(fields.drop_first() =~= Seq::<Datum>::empty());
        assert(encode_fields(shapes, fields.drop_last()) =~= Seq::<u8>::empty());
        assert(encode_fields(shapes, fields) =~= encode(shapes[0], fields[0]) + encode_fields(
            shapes.drop_first(),
            fields.drop_first(),
        ));
    }
}

/// Only the shapes at the fields' positions matter.
pub proof fn lemma_encode_fields_prefix(shapes: Seq<Shape>, other: Seq<Shape>, fields: Seq<Datum>)
    requires
        fields.len() <= other.len(),
        fields.len() <= shapes.len(),
        forall|i: int| 0 <= i < fields.len() ==> shapes[i] == other[i],
    ensures
        encode_fields(shapes, fields) == encode_fields(other, fields),
    decreases fields.len(),
{
    if fields.len() > 0 {
        lemma_encode_fields_prefix(shapes, other, fields.drop_last());
    }
}

/// Whether `t` holds no NUL, so that its terminator is where it ends.
fn text_is_faithful(t: &String) -> (b: bool)
    ensures
        b == !encode_utf8(t@).contains(0u8),
{
    let bytes = t.as_str().as_bytes();
    let mut i: usize = 0;
    while i < bytes.len()
        invariant
            i <= bytes@.len(),
            bytes@ == encode_utf8(t@),
            forall|j: int| 0 <= j < i ==> bytes@[j] != 0,
        decreases bytes@.len() - i,
    {
        if bytes[i] == 0 {
            assert(bytes@.contains(bytes@[i as int]));
            return false;
        }
        i = i + 1;
    }
    assert(!bytes@.contains(0u8)) by {
        if bytes@.contains(0u8) {
            let j = choose|j: int| 0 <= j < bytes@.len() && bytes@[j] == 0u8;
            assert(bytes@[j] != 0);
        }
    }
    true
}

/// Whether `s` describes `v`: whether `encode_value` accepts it.
pub fn conforms(s: &Shape, v: &Value) -> (b: bool)
    ensures
        b == describes(*s, v.datum()),
    decreases v,
{
    match (s, v) {
        (Shape::Bool, Value::Bool(_)) => true,
        (Shape::U8, Value::U8(_)) => true,
        (Shape::U16, Value::U16(_)) => true,
        (Shape::U32, Value::U32(_)) => true,
        (Shape::U64, Value::U64(_)) => true,
        (Shape::I32, Value::I32(_)) => true,
        (Shape::I64, Value::I64(_)) => true,
        (Shape::Char, Value::Char(_)) => true,
        (Shape::Text, Value::Text(t)) => text_is_faithful(t),
        (Shape::Optional(inner), Value::Optional(o)) => match o {
            Some(b) => conforms(inner, b),
            None => true,
        },
        (Shape::List(inner), Value::List(items)) => {
            let ghost ds = datums(items@);
            proof {
                lemma_datums(items@);
                lemma_describes_each(**inner, ds);
            }
            if items.len() > u32::MAX as usize {
                return false;
            }
            let mut i: usize = 0;
            while i < items.len()
                invariant
                    *v is List,
                    (*v)->List_0 == *items,
                    i <= items@.len(),
                    ds == datums(items@),
                    ds.len() == items@.len(),
                    forall|j: int| 0 <= j < items@.len() ==> #[trigger] ds[j] == items@[j].datum(),
                    forall|j: int| 0 <= j < i ==> describes(**inner, #[trigger] ds[j]),
                    describes(*s, v.datum()) <==> forall|j: int|
                        0 <= j < ds.len() ==> describes(**inner, #[trigger] ds[j]),
                decreases items@.len() - i,
            {
                proof {
                    assert(decreases_to!(*v => (*v)->List_0));
                    axiom_vec_index_decreases((*v)->List_0, i as int);
                }
                if !conforms(inner, &items[i]) {
                    assert(!describes(**inner, ds[i as int]));
                    return false;
                }
                i = i + 1;
            }
            true
        },
        (Shape::Record(shapes), Value::Record(fields)) => {
            let ghost ds = datums(fields@);
            proof {
                lemma_datums(fields@);
                lemma_describes_fields(shapes@, ds);
            }
            if shapes.len() != fields.len() {
                return false;
            }
            let mut i: usize = 0;
            while i < fields.len()
                invariant
                    *v is Record,
                    (*v)->Record_0 == *fields,
                    i <= fields@.len(),
                    shapes@.len() == fields@.len(),
                    ds == datums(fields@),
                    ds.len() == fields@.len(),
                    forall|j: int| 0 <= j < fields@.len() ==> #[trigger] ds[j] == fields@[j].datum(),
                    forall|j: int| 0 <= j < i ==> describes(shapes@[j], #[trigger] ds[j]),
                    describes(*s, v.datum()) <==> forall|j: int|
                        0 <= j < ds.len() ==> describes(shapes@[j], #[trigger] ds[j]),
                decreases fields@.len() - i,
            {
                proof {
                    assert(decreases_to!(*v => (*v)->Record_0));
                    axiom_vec_index_decreases((*v)->Record_0, i as int);
                }
                if !conforms(&shapes[i], &fields[i]) {
                    assert(!describes(shapes@[i as int], ds[i as int]));
                    return false;
                }
                i = i + 1;
            }
            true
        },
        (Shape::Union(_, t, variants), Value::Variant(i, p)) => {
            if check_union(*t, variants.len()).is_err() || *i >= variants.len() {
                return false;
            }
            conforms(&variants[*i], p)
        },
        _ => false,
    }
}

/// Appends the encoding of `v`, a value of shape `s`.
pub fn encode_value(s: &Shape, v: &Value, w: &mut Vec<u8>)
    requires
        describes(*s, v.datum()),
    ensures
        final(w)@ == old(w)@ + encode(*s, v.datum()),
    decreases v,
{
    match v {
        Value::Bool(b) => b.serialize(w),
        Value::U8(x) => x.serialize(w),
        Value::U16(x) => x.serialize(w),
        Value::U32(x) => x.serialize(w),
        Value::U64(x) => x.serialize(w),
        Value::I32(x) => x.serialize(w),
        Value::I64(x) => x.serialize(w),
        Value::Char(c) => c.serialize(w),
        Value::Text(t) => t.serialize(w),
        Value::Optional(o) => {
            match (s, o) {
                (Shape::Optional(inner), Some(b)) => {
                    w.push(1);
                    encode_value(inner, b, w);
                    assert(final(w)@ =~= old(w)@ + encode(*s, v.datum()));
                },
                _ => w.push(0),
            }
        },
        Value::List(items) => {
            let inner: &Shape = match s {
                Shape::List(inner) => inner,
                _ => { return; },
            };
            let ghost ds = datums(items@);
            proof {
                lemma_datums(items@);
                lemma_describes_each(*inner, ds);
            }
            (items.len() as u32).serialize(w);
            let ghost head = w@;
            let mut i: usize = 0;
            while i < items.len()
                invariant
                    *v is List,
                    (*v)->List_0 == *items,
                    i <= items@.len(),
                    ds == datums(items@),
                    ds.len() == items@.len(),
                    forall|j: int| 0 <= j < items@.len() ==> #[trigger] ds[j] == items@[j].datum(),
                    forall|j: int| 0 <= j < ds.len() ==> describes(*inner, #[trigger] ds[j]),
                    head == old(w)@ + spec_u32_to_le_bytes(items@.len() as u32),
                    w@ == head + encode_each(*inner, ds.take(i as int)),
                decreases items@.len() - i,
            {
                assert(ds[i as int] == items@[i as int].datum());
                proof {
                    assert(decreases_to!(*v => (*v)->List_0));
                    axiom_vec_index_decreases((*v)->List_0, i as int);
                }
                encode_value(inner, &items[i], w);
                i = i + 1;
                assert(ds.take(i as int).drop_last() =~= ds.take(i - 1));
                assert(w@ =~= head + encode_each(*inner, ds.take(i as int)));
            }
            assert(ds.take(i as int) =~= ds);
            assert(w@ =~= old(w)@ + encode(*s, v.datum()));
        },
        Value::Record(fields) => {
            let shapes: &Vec<Shape> = match s {
                Shape::Record(shapes) => shapes,
                _ => { return; },
            };
            let ghost ds = datums(fields@);
            proof {
                lemma_datums(fields@);
                lemma_describes_fields(shapes@, ds);
            }
            let mut i: usize = 0;
            while i < fields.len()
                invariant
                    *v is Record,
                    (*v)->Record_0 == *fields,
                    i <= fields@.len(),
                    shapes@.len() == fields@.len(),
                    ds == datums(fields@),
                    ds.len() == fields@.len(),
                    forall|j: int| 0 <= j < fields@.len() ==> #[trigger] ds[j] == fields@[j].datum(),
                    forall|j: int| 0 <= j < ds.len() ==> describes(shapes@[j], #[trigger] ds[j]),
                    w@ == old(w)@ + encode_fields(shapes@, ds.take(i as int)),
                decreases fields@.len() - i,
            {
                assert(ds[i as int] == fields@[i as int].datum());
                assert(describes(shapes@[i as int], ds[i as int]));
                proof {
                    assert(decreases_to!(*v => (*v)->Record_0));
                    axiom_vec_index_decreases((*v)->Record_0, i as int);
                }
                encode_value(&shapes[i], &fields[i], w);
                i = i + 1;
                assert(ds.take(i as int).drop_last() =~= ds.take(i - 1));
                assert(w@ =~= old(w)@ + encode_fields(shapes@, ds.take(i as int)));
            }
            assert(ds.take(i as int) =~= ds);
        },
        Value::Variant(i, p) => {
            match s {
                Shape::Union(_, t, variants) => {
                    write_tag(w, *t, *i);
                    encode_value(&variants[*i], p, w);
                    assert(final(w)@ =~= old(w)@ + encode(*s, v.datum()));
                },
                _ => {},
            }
        },
    }
}

/// Decodes one value of shape `s` from `r`: on the datum and length that
/// `parse` gives, returns a value standing for that datum and leaves the
/// rest; on the error it gives, fails with that kind.
pub fn decode_value(s: &Shape, r: &mut ByteReader) -> (res: Result<Value, Error>)
    ensures
        match parse(*s, old(r)@) {
            Ok((d, n)) => res is Ok && res->Ok_0.datum() == d && n <= old(r)@.len() && final(r)@
                == old(r)@.skip(n as int),
            Err(k) => res is Err && res->Err_0.spec_kind() == k,
        },
    decreases s,
{
    match s {
        Shape::Bool => Ok(Value::Bool(bool::from_reader(r)?)),
        Shape::U8 => Ok(Value::U8(u8::from_reader(r)?)),
        Shape::U16 => Ok(Value::U16(u16::from_reader(r)?)),
        Shape::U32 => Ok(Value::U32(u32::from_reader(r)?)),
        Shape::U64 => Ok(Value::U64(u64::from_reader(r)?)),
        Shape::I32 => Ok(Value::I32(i32::from_reader(r)?)),
        Shape::I64 => Ok(Value::I64(i64::from_reader(r)?)),
        Shape::Char => Ok(Value::Char(char::from_reader(r)?)),
        Shape::Text => Ok(Value::Text(String::from_reader(r)?)),
        Shape::Optional(inner) => {
            let present = bool::from_reader(r)?;
            if present {
                let ghost mid = r@;
                let v = decode_value(inner, r)?;
                proof {
                    let n = parse(**inner, mid)->Ok_0.1;
                    assert(old(r)@.skip(1).skip(n as int) =~= old(r)@.skip((n + 1) as int));
                }
                Ok(Value::Optional(Some(Box::new(v))))
            } else {
                Ok(Value::Optional(None))
            }
        },
        Shape::List(inner) => {
            let count = u32::from_reader(r)?;
            let ghost start = r@;
            let ghost mut used: nat = 0;
            let mut out: Vec<Value> = Vec::new();
            let mut i: u32 = 0;
            assert(start.skip(0) =~= start);
            while i < count
                invariant
                    *s is List,
                    (*s)->List_0 == *inner,
                    i <= count,
                    out@.len() == i,
                    start == old(r)@.skip(4),
                    count == spec_u32_from_le_bytes(old(r)@.take(4)),
                    old(r)@.len() >= 4,
                    used <= start.len(),
                    r@ == start.skip(used as int),
                    parse_each(**inner, start, count as nat) == after_prefix(
                        datums(out@),
                        used,
                        parse_each(**inner, r@, (count - i) as nat),
                    ),
                decreases count - i,
            {
                let ghost before = r@;
                let v = decode_value(inner, r)?;
                proof {
                    let n = parse(**inner, before)->Ok_0.1;
                    assert(start.skip(used as int).skip(n as int) =~= start.skip((used + n) as int));
                    used = used + n;
                }
                let ghost done = datums(out@);
                let ghost prev = out@;
                out.push(v);
                i = i + 1;
                proof {
                    assert(out@.drop_last() =~= prev);
                    assert(datums(out@) == done.push(v.datum()));
                    match parse_each(**inner, r@, (count - i) as nat) {
                        Ok((ms, k)) => {
                            assert(done + (seq![v.datum()] + ms) =~= done.push(v.datum()) + ms);
                        },
                        Err(e) => {},
                    }
                }
            }
            proof {
                assert(datums(out@) + Seq::<Datum>::empty() =~= datums(out@));
            }
            Ok(Value::List(out))
        },
        Shape::Record(shapes) => {
            let ghost start = r@;
            let ghost mut used: nat = 0;
            let mut out: Vec<Value> = Vec::new();
            let mut i: usize = 0;
            assert(start.skip(0) =~= start);
            assert(shapes@.skip(0) =~= shapes@);
            while i < shapes.len()
                invariant
                    *s is Record,
                    (*s)->Record_0 == *shapes,
                    i <= shapes@.len(),
                    out@.len() == i,
                    start == old(r)@,
                    used <= start.len(),
                    r@ == start.skip(used as int),
                    parse_fields(shapes@, start) == after_prefix(
                        datums(out@),
                        used,
                        parse_fields(shapes@.skip(i as int), r@),
                    ),
                decreases shapes@.len() - i,
            {
                let ghost before = r@;
                proof {
                    assert(decreases_to!(*s => (*s)->Record_0));
                    axiom_vec_index_decreases((*s)->Record_0, i as int);
                    assert(shapes@.skip(i as int)[0] == shapes@[i as int]);
                    assert(shapes@.skip(i as int).drop_first() =~= shapes@.skip(i + 1));
                }
                let v = decode_value(&shapes[i], r)?;
                proof {
                    let n = parse(shapes@[i as int], before)->Ok_0.1;
                    assert(start.skip(used as int).skip(n as int) =~= start.skip((used + n) as int));
                    used = used + n;
                }
                let ghost done = datums(out@);
                let ghost prev = out@;
                out.push(v);
                i = i + 1;
                proof {
                    assert(out@.drop_last() =~= prev);
                    assert(datums(out@) == done.push(v.datum()));
                    match parse_fields(shapes@.skip(i as int), r@) {
                        Ok((ms, k)) => {
                            assert(done + (seq![v.datum()] + ms) =~= done.push(v.datum()) + ms);
                        },
                        Err(e) => {},
                    }
                }
            }
            proof {
                assert(shapes@.skip(i as int) =~= Seq::<Shape>::empty());
                assert(datums(out@) + Seq::<Datum>::empty() =~= datums(out@));
            }
            Ok(Value::Record(out))
        },
        Shape::Union(name, t, variants) => {
            let i = read_variant(r, *t, variants.len(), name.as_str())?;
            let ghost mid = r@;
            proof {
                assert(decreases_to!(*s => (*s)->Union_2));
                axiom_vec_index_decreases((*s)->Union_2, i as int);
            }
            let p = decode_value(&variants[i], r)?;
            proof {
                let n = variant_parse(*t, variants@.len(), old(r)@)->Ok_0.1;
                let k = parse(variants@[i as int], mid)->Ok_0.1;
                assert(old(r)@.skip(n as int).skip(k as int) =~= old(r)@.skip((n + k) as int));
            }
            Ok(Value::Variant(i, Box::new(p)))
        },
    }
}

/// Decoding the encoding of a value that `s` describes, followed by any
/// bytes, gives back that value and consumes exactly its encoding. This
/// covers records, with named or positional fields alike, nested records,
/// and every variant of a tagged union, unit payloads included.
pub proof fn lemma_schema_round_trip(s: Shape, d: Datum, rest: Seq<u8>)
    requires
        describes(s, d),
    ensures
        parse(s, encode(s, d) + rest) == Ok::<(Datum, nat), ErrorKind>((d, encode(s, d).len())),
    decreases d,
{
    match d {
        Datum::Bool(b) => bool::lemma_round_trip(&b, rest),
        Datum::U8(x) => u8::lemma_round_trip(&x, rest),
        Datum::U16(x) => u16::lemma_round_trip(&x, rest),
        Datum::U32(x) => u32::lemma_round_trip(&x, rest),
        Datum::U64(x) => u64::lemma_round_trip(&x, rest),
        Datum::I32(x) => i32::lemma_round_trip(&x, rest),
        Datum::I64(x) => i64::lemma_round_trip(&x, rest),
        Datum::Char(c) => char::lemma_round_trip(&c, rest),
        Datum::Text(t) => lemma_text_round_trip(t, rest),
        Datum::Optional(o) => {
            if let Some(b) = o {
                let inner = *(s->Optional_0);
                lemma_schema_round_trip(inner, *b, rest);
                assert((encode(s, d) + rest).skip(1) =~= encode(inner, *b) + rest);
            }
        },
        Datum::List(items) => {
            let inner = *(s->List_0);
            let head = spec_u32_to_le_bytes(items.len() as u32);
            let all = encode(s, d) + rest;
            lemma_auto_spec_u32_to_from_le_bytes();
            assert(all.take(4) =~= head);
            assert(all.skip(4) =~= encode_each(inner, items) + rest);
            lemma_each_round_trip(inner, items, rest);
        },
        Datum::Record(fields) => {
            lemma_fields_round_trip(s->Record_0@, fields, rest);
        },
        Datum::Variant(i, p) => {
            let t = s->Union_1;
            let variants = s->Union_2@;
            let tag = tag_encoding(t, i);
            let body = encode(variants[i as int], *p);
            lemma_tag_round_trip(t, variants.len(), i, body + rest);
            assert(encode(s, d) + rest =~= tag + (body + rest));
            assert((tag + (body + rest)).skip(tag.len() as int) =~= body + rest);
            lemma_schema_round_trip(variants[i as int], *p, rest);
        },
    }
}

/// The round trip for items of one shape, one after another.
pub proof fn lemma_each_round_trip(s: Shape, items: Seq<Datum>, rest: Seq<u8>)
    requires
        describes_each(s, items),
    ensures
        parse_each(s, encode_each(s, items) + rest, items.len()) == Ok::<
            (Seq<Datum>, nat),
            ErrorKind,
        >((items, encode_each(s, items).len())),
    decreases items,
{
    if items.len() == 0 {
        assert(encode_each(s, items) + rest =~= rest);
        assert(items =~= Seq::<Datum>::empty());
    } else {
        let tail = items.drop_first();
        lemma_encode_each_front(s, items);
        lemma_describes_each(s, items);
        lemma_describes_each(s, tail);
        assert forall|i: int| 0 <= i < tail.len() implies describes(s, #[trigger] tail[i]) by {
            assert(tail[i] == items[i + 1]);
        }
        assert(describes(s, items[0]));
        lemma_schema_round_trip(s, items[0], encode_each(s, tail) + rest);
        assert(encode_each(s, items) + rest =~= encode(s, items[0]) + (encode_each(s, tail) + rest));
        assert((encode_each(s, items) + rest).skip(encode(s, items[0]).len() as int)
            =~= encode_each(s, tail) + rest);
        assert(decreases_to!(items => items.subrange(1, items.len() as int)));
        lemma_each_round_trip(s, tail, rest);
        assert(seq![items[0]] + tail =~= items);
    }
}

/// The round trip for fields of the shapes declared at their positions.
pub proof fn lemma_fields_round_trip(shapes: Seq<Shape>, fields: Seq<Datum>, rest: Seq<u8>)
    requires
        shapes.len() == fields.len(),
        describes_fields(shapes, fields),
    ensures
        parse_fields(shapes, encode_fields(shapes, fields) + rest) == Ok::<
            (Seq<Datum>, nat),
            ErrorKind,
        >((fields, encode_fields(shapes, fields).len())),
    decreases fields,
{
    if fields.len() == 0 {
        assert(encode_fields(shapes, fields) + rest =~= rest);
        assert(fields =~= Seq::<Datum>::empty());
    } else {
        let tail = fields.drop_first();
        let stail = shapes.drop_first();
        lemma_encode_fields_front(shapes, fields);
        lemma_describes_fields(shapes, fields);
        lemma_describes_fields(stail, tail);
        assert forall|i: int| 0 <= i < tail.len() implies describes(
            stail[i],
            #[trigger] tail[i],
        ) by {
            assert(tail[i] == fields[i + 1]);
            assert(stail[i] == shapes[i + 1]);
        }
        assert(describes(shapes[0], fields[0]));
        lemma_schema_round_trip(shapes[0], fields[0], encode_fields(stail, tail) + rest);
        assert(encode_fields(shapes, fields) + rest =~= encode(shapes[0], fields[0]) + (
        encode_fields(stail, tail) + rest));
        assert((encode_fields(shapes, fields) + rest).skip(encode(shapes[0], fields[0]).len() as int)
            =~= encode_fields(stail, tail) + rest);
        assert(decreases_to!(fields => fields.subrange(1, fields.len() as int)));
        lemma_fields_round_trip(stail, tail, rest);
        assert(seq![fields[0]] + tail =~= fields);
    }
}

/// A value of the variant declared at position `i` of a union encodes as
/// tag `i`, and reading the tag back gives `i`, whatever the payload.
pub proof fn lemma_variant_tag_is_index(s: Shape, d: Datum, rest: Seq<u8>)
    requires
        describes(s, d),
        d is Variant,
    ensures
        encode(s, d) == tag_encoding(s->Union_1, d->Variant_0) + encode(
            s->Union_2@[d->Variant_0 as int],
            *d->Variant_1,
        ),
        variant_parse(s->Union_1, s->Union_2@.len(), encode(s, d) + rest) == Ok::<
            (nat, nat),
            ErrorKind,
        >((d->Variant_0, tag_encoding(s->Union_1, d->Variant_0).len())),
{
    let t = s->Union_1;
    let i = d->Variant_0;
    let tag = tag_encoding(t, i);
    let body = encode(s->Union_2@[i as int], *d->Variant_1);
    lemma_tag_round_trip(t, s->Union_2@.len(), i, body + rest);
    assert(encode(s, d) + rest =~= tag + (body + rest));
}

/// A union's bytes whose tag names no declared variant decode to no value
/// at all: the error is invalid input.
pub proof fn lemma_unknown_tag(s: Shape, bytes: Seq<u8>)
    requires
        s is Union,
        tag_parse(s->Union_1, bytes) is Ok,
        !(0 <= tag_parse(s->Union_1, bytes)->Ok_0.0 < s->Union_2@.len()),
    ensures
        parse(s, bytes) == Err::<(Datum, nat), ErrorKind>(ErrorKind::InvalidInput),
{
}

/// A strict prefix of the encoding of a value that `s` describes is a
/// stream that ends too early: decoding it fails with an unexpected end.
pub proof fn lemma_schema_truncated(s: Shape, d: Datum, k: nat)
    requires
        describes(s, d),
        k < encode(s, d).len(),
    ensures
        parse(s, encode(s, d).take(k as int)) == Err::<(Datum, nat), ErrorKind>(
            ErrorKind::UnexpectedEof,
        ),
    decreases d,
{
    let cut = encode(s, d).take(k as int);
    match d {
        Datum::Bool(b) => bool::lemma_truncated(&b, k),
        Datum::U8(x) => u8::lemma_truncated(&x, k),
        Datum::U16(x) => u16::lemma_truncated(&x, k),
        Datum::U32(x) => u32::lemma_truncated(&x, k),
        Datum::U64(x) => u64::lemma_truncated(&x, k),
        Datum::I32(x) => i32::lemma_truncated(&x, k),
        Datum::I64(x) => i64::lemma_truncated(&x, k),
        Datum::Char(c) => char::lemma_truncated(&c, k),
        Datum::Text(t) => lemma_text_truncated(t, k),
        Datum::Optional(o) => {
            if k > 0 {
                let inner = *(s->Optional_0);
                let b = *(o->Some_0);
                lemma_schema_truncated(inner, b, (k - 1) as nat);
                assert(cut.skip(1) =~= encode(inner, b).take(k - 1));
            }
        },
        Datum::List(items) => {
            if k >= 4 {
                let inner = *(s->List_0);
                lemma_auto_spec_u32_to_from_le_bytes();
                assert(cut.take(4) =~= spec_u32_to_le_bytes(items.len() as u32));
                assert(cut.skip(4) =~= encode_each(inner, items).take(k - 4));
                lemma_each_truncated(inner, items, (k - 4) as nat);
            }
        },
        Datum::Record(fields) => {
            lemma_fields_truncated(s->Record_0@, fields, k);
        },
        Datum::Variant(i, p) => {
            let t = s->Union_1;
            let variants = s->Union_2@;
            let tag = tag_encoding(t, i);
            let body = encode(variants[i as int], *p);
            if k < tag.len() {
                lemma_tag_truncated(t, i, k);
                assert(cut =~= tag.take(k as int));
            } else {
                let part = body.take(k - tag.len());
                lemma_tag_round_trip(t, variants.len(), i, part);
                assert(cut =~= tag + part);
                assert(cut.skip(tag.len() as int) =~= part);
                lemma_schema_truncated(variants[i as int], *p, (k - tag.len()) as nat);
            }
        },
    }
}

/// The truncation law for items of one shape, one after another.
pub proof fn lemma_each_truncated(s: Shape, items: Seq<Datum>, k: nat)
    requires
        describes_each(s, items),
        k < encode_each(s, items).len(),
    ensures
        parse_each(s, encode_each(s, items).take(k as int), items.len()) == Err::<
            (Seq<Datum>, nat),
            ErrorKind,
        >(ErrorKind::UnexpectedEof),
    decreases items,
{
    let tail = items.drop_first();
    let cut = encode_each(s, items).take(k as int);
    lemma_encode_each_front(s, items);
    lemma_describes_each(s, items);
    assert(describes(s, items[0]));
    let n = encode(s, items[0]).len();
    if k < n {
        lemma_schema_truncated(s, items[0], k);
        assert(cut =~= encode(s, items[0]).take(k as int));
    } else {
        let part = encode_each(s, tail).take(k - n);
        lemma_schema_round_trip(s, items[0], part);
        assert(cut =~= encode(s, items[0]) + part);
        assert(cut.skip(n as int) =~= part);
        lemma_describes_each(s, tail);
        assert forall|i: int| 0 <= i < tail.len() implies describes(s, #[trigger] tail[i]) by {
            assert(tail[i] == items[i + 1]);
        }
        assert(decreases_to!(items => items.subrange(1, items.len() as int)));
        lemma_each_truncated(s, tail, (k - n) as nat);
    }
}

/// The truncation law for fields of the shapes declared at their positions.
pub proof fn lemma_fields_truncated(shapes: Seq<Shape>, fields: Seq<Datum>, k: nat)
    requires
        shapes.len() == fields.len(),
        describes_fields(shapes, fields),
        k < encode_fields(shapes, fields).len(),
    ensures
        parse_fields(shapes, encode_fields(shapes, fields).take(k as int)) == Err::<
            (Seq<Datum>, nat),
            ErrorKind,
        >(ErrorKind::UnexpectedEof),
    decreases fields,
{
    let tail = fields.drop_first();
    let stail = shapes.drop_first();
    let cut = encode_fields(shapes, fields).take(k as int);
    lemma_encode_fields_front(shapes, fields);
    lemma_describes_fields(shapes, fields);
    assert(describes(shapes[0], fields[0]));
    let n = encode(shapes[0], fields[0]).len();
    if k < n {
        lemma_schema_truncated(shapes[0], fields[0], k);
        assert(cut =~= encode(shapes[0], fields[0]).take(k as int));
    } else {
        let part = encode_fields(stail, tail).take(k - n);
        lemma_schema_round_trip(shapes[0], fields[0], part);
        assert(cut =~= encode(shapes[0], fields[0]) + part);
        assert(cut.skip(n as int) =~= part);
        lemma_describes_fields(stail, tail);
        assert forall|i: int| 0 <= i < tail.len() implies describes(
            stail[i],
            #[trigger] tail[i],
        ) by {
            assert(tail[i] == fields[i + 1]);
            assert(stail[i] == shapes[i + 1]);
        }
        assert(decreases_to!(fields => fields.subrange(1, fields.len() as int)));
        lemma_fields_truncated(stail, tail, (k - n) as nat);
    }
}

} // verus!
