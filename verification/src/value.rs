//! The host value model, held as plain data.
//!
//! Values are ephemeral: created by the caller, consumed by a single
//! append or retrieve call.  Floating-point slots are carried as their
//! 64- or 32-bit patterns, and a string is carried as its UTF-8 bytes, so
//! that every value round-trips bit-exactly through the wire layout.  A
//! host-language object with no structural shape is carried as the opaque
//! byte run its runtime's generic serializer produced for it.

use vstd::prelude::*;

use crate::utf8::is_utf8;

verus! {

/// The element kind of a homogeneous numeric array: a closed enumeration.
#[derive(Clone, Copy, Debug, PartialEq, Eq, Structural)]
pub enum ElementKind {
    Int8,
    Int16,
    Int32,
    Int64,
    Uint8,
    Uint16,
    Uint32,
    Uint64,
    Float32,
    Float64,
}

/// The byte width of one array element.
pub open spec fn spec_elem_size(k: ElementKind) -> int {
    match k {
        ElementKind::Int8 => 1,
        ElementKind::Uint8 => 1,
        ElementKind::Int16 => 2,
        ElementKind::Uint16 => 2,
        ElementKind::Int32 => 4,
        ElementKind::Uint32 => 4,
        ElementKind::Float32 => 4,
        ElementKind::Int64 => 8,
        ElementKind::Uint64 => 8,
        ElementKind::Float64 => 8,
    }
}

/// Computes the byte width of one array element; it is also the required
/// alignment of a raw element payload.
pub fn elem_size(k: ElementKind) -> (r: usize)
    ensures
        r == spec_elem_size(k),
        1 <= r <= 8,
{
    match k {
        ElementKind::Int8 => 1,
        ElementKind::Uint8 => 1,
        ElementKind::Int16 => 2,
        ElementKind::Uint16 => 2,
        ElementKind::Int32 => 4,
        ElementKind::Uint32 => 4,
        ElementKind::Float32 => 4,
        ElementKind::Int64 => 8,
        ElementKind::Uint64 => 8,
        ElementKind::Float64 => 8,
    }
}

/// The element count a shape describes: the product of its dimensions.
pub open spec fn shape_product(s: Seq<usize>) -> int
    decreases s.len(),
{
    if s.len() == 0 {
        1
    } else {
        s[0] * shape_product(s.skip(1))
    }
}

/// A shape's product is never negative.
pub proof fn lemma_shape_product_nonneg(s: Seq<usize>)
    ensures
        shape_product(s) >= 0,
    decreases s.len(),
{
    if s.len() > 0 {
        lemma_shape_product_nonneg(s.skip(1));
        assert(s[0] * shape_product(s.skip(1)) >= 0) by (nonlinear_arith)
            requires
                s[0] >= 0,
                shape_product(s.skip(1)) >= 0,
        ;
    }
}

/// A homogeneous numeric array: element kind, shape, and the raw bytes of
/// its elements in native order.
#[derive(Clone, Debug)]
pub struct ArrayValue {
    pub kind: ElementKind,
    pub shape: Vec<usize>,
    pub data: Vec<u8>,
}

/// The mathematical model of an array value.
#[verifier::ext_equal]
pub struct ArrayModel {
    pub kind: ElementKind,
    pub shape: Seq<usize>,
    pub data: Seq<u8>,
}

impl View for ArrayValue {
    type V = ArrayModel;

    open spec fn view(&self) -> ArrayModel {
        ArrayModel { kind: self.kind, shape: self.shape@, data: self.data@ }
    }
}

/// A runtime value of the host value model.
pub enum Value {
    /// A boolean.
    Bool(bool),
    /// A 64-bit signed integer.
    Int(i64),
    /// A 64-bit float, carried as its bit pattern.
    Float(u64),
    /// A complex number: the bit patterns of its real and imaginary parts.
    Complex(u64, u64),
    /// A string, carried as its UTF-8 bytes.
    Str(Vec<u8>),
    /// A raw byte blob.
    Bytes(Vec<u8>),
    /// A homogeneous numeric array.
    Array(ArrayValue),
    /// An ordered sequence.
    List(Vec<Value>),
    /// A set, in its iteration order at the host boundary.
    SetOf(Vec<Value>),
    /// A fixed-arity tuple.
    Tuple(Vec<Value>),
    /// A mapping, in its native iteration order.
    Dict(Vec<(Value, Value)>),
    /// A record-like object: named fields in declared order.
    Record(Vec<(Vec<u8>, Value)>),
    /// The absent value of an optional slot.
    Null,
    /// A value with no structural codec, pre-serialized by the host
    /// runtime's generic serializer.
    Opaque(Vec<u8>),
}

/// The mathematical model of a value.
#[verifier::ext_equal]
pub enum ValueModel {
    Bool(bool),
    Int(i64),
    Float(u64),
    Complex(u64, u64),
    Str(Seq<u8>),
    Bytes(Seq<u8>),
    Array(ArrayModel),
    List(Seq<ValueModel>),
    SetOf(Seq<ValueModel>),
    Tuple(Seq<ValueModel>),
    Dict(Seq<(ValueModel, ValueModel)>),
    Record(Seq<(Seq<u8>, ValueModel)>),
    Null,
    Opaque(Seq<u8>),
}

/// The models of a run of values, in order.
pub open spec fn views_of(items: Seq<Value>) -> Seq<ValueModel>
    decreases items,
{
    if items.len() == 0 {
        Seq::empty()
    } else {
        seq![items[0].view()] + views_of(items.drop_first())
    }
}

/// The models of a run of key-value pairs, in order.
pub open spec fn pair_views_of(pairs: Seq<(Value, Value)>) -> Seq<(ValueModel, ValueModel)>
    decreases pairs,
{
    if pairs.len() == 0 {
        Seq::empty()
    } else {
        seq![(pairs[0].0.view(), pairs[0].1.view())] + pair_views_of(pairs.drop_first())
    }
}

/// The models of a run of named fields, in order.
pub open spec fn field_views_of(fields: Seq<(Vec<u8>, Value)>) -> Seq<(Seq<u8>, ValueModel)>
    decreases fields,
{
    if fields.len() == 0 {
        Seq::empty()
    } else {
        seq![(fields[0].0.view(), fields[0].1.view())] + field_views_of(fields.drop_first())
    }
}

impl View for Value {
    type V = ValueModel;

    open spec fn view(&self) -> ValueModel
        decreases self,
    {
        match self {
            Value::Bool(b) => ValueModel::Bool(*b),
            Value::Int(i) => ValueModel::Int(*i),
            Value::Float(bits) => ValueModel::Float(*bits),
            Value::Complex(re, im) => ValueModel::Complex(*re, *im),
            Value::Str(s) => ValueModel::Str(s@),
            Value::Bytes(b) => ValueModel::Bytes(b@),
            Value::Array(a) => ValueModel::Array(a@),
            Value::List(items) => ValueModel::List(views_of(items@)),
            Value::SetOf(items) => ValueModel::SetOf(views_of(items@)),
            Value::Tuple(items) => ValueModel::Tuple(views_of(items@)),
            Value::Dict(pairs) => ValueModel::Dict(pair_views_of(pairs@)),
            Value::Record(fields) => ValueModel::Record(field_views_of(fields@)),
            Value::Null => ValueModel::Null,
            Value::Opaque(b) => ValueModel::Opaque(b@),
        }
    }
}

/// A run of values is modelled pointwise.
pub proof fn lemma_views_of(items: Seq<Value>)
    ensures
        views_of(items).len() == items.len(),
        forall|i: int| 0 <= i < items.len() ==> views_of(items)[i] == items[i]@,
    decreases items,
{
    if items.len() > 0 {
        assert(views_of(items) == seq![items[0].view()] + views_of(items.drop_first()));
        lemma_views_of(items.drop_first());
        assert forall|i: int| 0 <= i < items.len() implies views_of(items)[i] == items[i]@ by {
            if i > 0 {
                assert(items.drop_first()[i - 1] == items[i]);
            }
        }
    }
}

/// A run of pairs is modelled pointwise.
pub proof fn lemma_pair_views_of(pairs: Seq<(Value, Value)>)
    ensures
        pair_views_of(pairs).len() == pairs.len(),
        forall|i: int| 0 <= i < pairs.len() ==> pair_views_of(pairs)[i] == (
            pairs[i].0@,
            pairs[i].1@,
        ),
    decreases pairs,
{
    if pairs.len() > 0 {
        assert(pair_views_of(pairs) == seq![(pairs[0].0.view(), pairs[0].1.view())]
            + pair_views_of(pairs.drop_first()));
        lemma_pair_views_of(pairs.drop_first());
        assert forall|i: int| 0 <= i < pairs.len() implies pair_views_of(pairs)[i] == (
            pairs[i].0@,
            pairs[i].1@,
        ) by {
            if i > 0 {
                assert(pairs.drop_first()[i - 1] == pairs[i]);
            }
        }
    }
}

/// A run of named fields is modelled pointwise.
pub proof fn lemma_field_views_of(fields: Seq<(Vec<u8>, Value)>)
    ensures
        field_views_of(fields).len() == fields.len(),
        forall|i: int| 0 <= i < fields.len() ==> field_views_of(fields)[i] == (
            fields[i].0@,
            fields[i].1@,
        ),
    decreases fields,
{
    if fields.len() > 0 {
        assert(field_views_of(fields) == seq![(fields[0].0.view(), fields[0].1.view())]
            + field_views_of(fields.drop_first()));
        lemma_field_views_of(fields.drop_first());
        assert forall|i: int| 0 <= i < fields.len() implies field_views_of(fields)[i] == (
            fields[i].0@,
            fields[i].1@,
        ) by {
            if i > 0 {
                assert(fields.drop_first()[i - 1] == fields[i]);
            }
        }
    }
}

/// Whether an array model is internally consistent: its raw data holds
/// exactly one element per shape slot, and the whole payload fits the
/// platform's address width.
pub open spec fn wf_array(a: ArrayModel) -> bool {
    &&& a.data.len() == spec_elem_size(a.kind) * shape_product(a.shape)
    &&& a.data.len() <= usize::MAX
    &&& a.shape.len() <= usize::MAX
}

/// Whether a value model is well formed: strings and record field names
/// are valid UTF-8, arrays are internally consistent, and every sequence
/// fits the platform's address width.
pub open spec fn wf_value(v: ValueModel) -> bool
    decreases v,
{
    match v {
        ValueModel::Bool(_) => true,
        ValueModel::Int(_) => true,
        ValueModel::Float(_) => true,
        ValueModel::Complex(_, _) => true,
        ValueModel::Str(s) => is_utf8(s) && s.len() <= usize::MAX,
        ValueModel::Bytes(b) => b.len() <= usize::MAX,
        ValueModel::Array(a) => wf_array(a),
        ValueModel::List(items) => items.len() <= usize::MAX && (forall|i: int|
            0 <= i < items.len() ==> wf_value(#[trigger] items[i])),
        ValueModel::SetOf(items) => items.len() <= usize::MAX && (forall|i: int|
            0 <= i < items.len() ==> wf_value(#[trigger] items[i])),
        ValueModel::Tuple(items) => items.len() <= usize::MAX && (forall|i: int|
            0 <= i < items.len() ==> wf_value(#[trigger] items[i])),
        ValueModel::Dict(pairs) => pairs.len() <= usize::MAX && (forall|i: int|
            0 <= i < pairs.len() ==> wf_value((#[trigger] pairs[i]).0) && wf_value(pairs[i].1)),
        ValueModel::Record(fields) => fields.len() <= usize::MAX && (forall|i: int|
            0 <= i < fields.len() ==> is_utf8((#[trigger] fields[i]).0)
                && fields[i].0.len() <= usize::MAX && wf_value(fields[i].1)),
        ValueModel::Null => true,
        ValueModel::Opaque(b) => b.len() <= usize::MAX,
    }
}

} // verus!

verus! {

/// A zero dimension makes the whole product zero.
pub proof fn lemma_shape_product_zero(s: Seq<usize>, i: int)
    requires
        0 <= i < s.len(),
        s[i] == 0,
    ensures
        shape_product(s) == 0,
    decreases s.len(),
{
    if i == 0 {
        assert(s[0] * shape_product(s.skip(1)) == 0) by (nonlinear_arith)
            requires s[0] == 0;
    } else {
        lemma_shape_product_zero(s.skip(1), i - 1);
        assert(s[0] * shape_product(s.skip(1)) == 0) by (nonlinear_arith)
            requires shape_product(s.skip(1)) == 0;
    }
}

/// With every dimension at least one, the product is at least one.
pub proof fn lemma_shape_product_pos(s: Seq<usize>)
    requires
        forall|i: int| 0 <= i < s.len() ==> #[trigger] s[i] >= 1,
    ensures
        shape_product(s) >= 1,
    decreases s.len(),
{
    if s.len() > 0 {
        assert forall|i: int| 0 <= i < s.skip(1).len() implies #[trigger] s.skip(1)[i] >= 1 by {
            assert(s.skip(1)[i] == s[i + 1]);
        }
        lemma_shape_product_pos(s.skip(1));
        assert(s[0] * shape_product(s.skip(1)) >= 1) by (nonlinear_arith)
            requires s[0] >= 1 && shape_product(s.skip(1)) >= 1;
    }
}

/// With every dimension at least one, dropping a prefix cannot grow the
/// product.
pub proof fn lemma_shape_product_skip(s: Seq<usize>, j: int)
    requires
        0 <= j <= s.len(),
        forall|i: int| 0 <= i < s.len() ==> #[trigger] s[i] >= 1,
    ensures
        shape_product(s.skip(j)) >= 1,
        shape_product(s) >= shape_product(s.skip(j)),
    decreases j,
{
    assert forall|i: int| 0 <= i < s.skip(j).len() implies #[trigger] s.skip(j)[i] >= 1 by {
        assert(s.skip(j)[i] == s[i + j]);
    }
    lemma_shape_product_pos(s.skip(j));
    if j == 0 {
        assert(s.skip(0) =~= s);
    } else {
        lemma_shape_product_skip(s, j - 1);
        assert(s.skip(j - 1)[0] == s[j - 1]);
        assert(s.skip(j - 1).skip(1) =~= s.skip(j));
        assert(shape_product(s.skip(j - 1)) == s[j - 1] * shape_product(s.skip(j)));
        assert(s[j - 1] * shape_product(s.skip(j)) >= shape_product(s.skip(j)))
            by (nonlinear_arith)
            requires s[j - 1] >= 1 && shape_product(s.skip(j)) >= 1;
    }
}

/// Computes the byte length of an array payload: the element size times
/// the product of the dimensions, or nothing when it cannot fit the
/// platform's address width.
pub fn array_byte_len(kind: ElementKind, shape: &Vec<usize>) -> (r: Option<usize>)
    ensures
        match r {
            Some(n) => n as int == spec_elem_size(kind) * shape_product(shape@),
            None => spec_elem_size(kind) * shape_product(shape@) > usize::MAX,
        },
{
    let n = shape.len();
    // A zero dimension empties the array outright.
    let mut z: usize = 0;
    while z < n
        invariant
            0 <= z <= n,
            n == shape@.len(),
            forall|i: int| 0 <= i < z ==> #[trigger] shape@[i] >= 1,
        decreases n - z,
    {
        if shape[z] == 0 {
            proof {
                lemma_shape_product_zero(shape@, z as int);
            }
            return Some(0);
        }
        z = z + 1;
    }
    // Every dimension is at least one: fold from the right, mirroring the
    // product's definition.
    let mut acc: usize = 1;
    let mut j: usize = n;
    assert(shape@.skip(n as int) =~= Seq::<usize>::empty());
    while j > 0
        invariant
            0 <= j <= n,
            n == shape@.len(),
            forall|i: int| 0 <= i < n ==> #[trigger] shape@[i] >= 1,
            acc as int == shape_product(shape@.skip(j as int)),
        decreases j,
    {
        let d = shape[j - 1];
        proof {
            assert(shape@.skip(j - 1)[0] == shape@[j - 1]);
            assert(shape@.skip(j - 1).skip(1) =~= shape@.skip(j as int));
        }
        match d.checked_mul(acc) {
            Some(next) => {
                acc = next;
            },
            None => {
                proof {
                    lemma_shape_product_skip(shape@, j - 1);
                    assert(shape_product(shape@.skip(j - 1)) == shape@[j - 1] * shape_product(
                        shape@.skip(j as int),
                    ));
                    assert(shape_product(shape@) >= shape_product(shape@.skip(j - 1)));
                    assert(spec_elem_size(kind) * shape_product(shape@) >= shape_product(shape@))
                        by (nonlinear_arith)
                        requires spec_elem_size(kind) >= 1 && shape_product(shape@) >= 0;
                    lemma_shape_product_nonneg(shape@);
                }
                return None;
            },
        }
        j = j - 1;
    }
    assert(shape@.skip(0) =~= shape@);
    let size = elem_size(kind);
    match size.checked_mul(acc) {
        Some(total) => Some(total),
        None => {
            proof {
                lemma_shape_product_nonneg(shape@);
            }
            None
        },
    }
}

/// Compares two shapes.
pub fn shapes_eq(a: &Vec<usize>, b: &Vec<usize>) -> (r: bool)
    ensures
        r == (a@ == b@),
{
    if a.len() != b.len() {
        assert(a@ != b@);
        return false;
    }
    let n = a.len();
    let mut i: usize = 0;
    while i < n
        invariant
            0 <= i <= n,
            n == a@.len() == b@.len(),
            forall|j: int| 0 <= j < i ==> a@[j] == b@[j],
        decreases n - i,
    {
        if a[i] != b[i] {
            return false;
        }
        i = i + 1;
    }
    assert(a@ =~= b@);
    true
}

} // verus!

verus! {

/// Appending one value appends its model.
pub proof fn lemma_views_of_push(items: Seq<Value>, x: Value)
    ensures
        views_of(items.push(x)) == views_of(items) + seq![x@],
{
    lemma_views_of(items);
    lemma_views_of(items.push(x));
    assert(views_of(items.push(x)) =~= views_of(items) + seq![x@]);
}

/// Appending one pair appends its model.
pub proof fn lemma_pair_views_of_push(pairs: Seq<(Value, Value)>, k: Value, v: Value)
    ensures
        pair_views_of(pairs.push((k, v))) == pair_views_of(pairs) + seq![(k@, v@)],
{
    lemma_pair_views_of(pairs);
    lemma_pair_views_of(pairs.push((k, v)));
    assert(pair_views_of(pairs.push((k, v))) =~= pair_views_of(pairs) + seq![(k@, v@)]);
}

/// Appending one named field appends its model.
pub proof fn lemma_field_views_of_push(fields: Seq<(Vec<u8>, Value)>, n: Vec<u8>, v: Value)
    ensures
        field_views_of(fields.push((n, v))) == field_views_of(fields) + seq![(n@, v@)],
{
    lemma_field_views_of(fields);
    lemma_field_views_of(fields.push((n, v)));
    assert(field_views_of(fields.push((n, v))) =~= field_views_of(fields) + seq![(n@, v@)]);
}

/// Copies a byte string.
pub fn copy_bytes(src: &Vec<u8>) -> (out: Vec<u8>)
    ensures
        out@ == src@,
{
    let mut out: Vec<u8> = Vec::new();
    let n = src.len();
    let mut i: usize = 0;
    while i < n
        invariant
            0 <= i <= n,
            n == src@.len(),
            out@ == src@.subrange(0, i as int),
        decreases n - i,
    {
        out.push(src[i]);
        assert(out@ =~= src@.subrange(0, i + 1));
        i = i + 1;
    }
    assert(out@ =~= src@);
    out
}

/// Copies a shape.
pub fn copy_shape(src: &Vec<usize>) -> (out: Vec<usize>)
    ensures
        out@ == src@,
{
    let mut out: Vec<usize> = Vec::new();
    let n = src.len();
    let mut i: usize = 0;
    while i < n
        invariant
            0 <= i <= n,
            n == src@.len(),
            out@ == src@.subrange(0, i as int),
        decreases n - i,
    {
        out.push(src[i]);
        assert(out@ =~= src@.subrange(0, i + 1));
        i = i + 1;
    }
    assert(out@ =~= src@);
    out
}

} // verus!
