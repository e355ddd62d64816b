//! The codec: one strategy per value shape, with append and retrieve
//! against a flat byte buffer.
//!
//! Composite codecs own their children by value, forming a tree with no
//! shared ownership.  The wire layout of every codec is given by the spec
//! functions `enc` (what append writes) and `dec` (what retrieve reads):
//! append and retrieve are verified against them, and the round-trip law
//! is proved once at the spec level.
//!
//! A union selects among its options by the first one that accepts the
//! value; an externally chosen index can be supplied through
//! [`Codec::append_with_index`], which rejects an out-of-range choice
//! before writing anything.

use vstd::prelude::*;

use crate::errors::{DecodeError, EncodeError};
use crate::init::InitStrategy;
use crate::pool::AllocationPool;
use crate::tag::{
    get_type_tag_byte, retrieve_type_tag, spec_detect, spec_tag_byte, spec_tag_of_byte, TypeTag,
};
use crate::utf8::{is_utf8, validate_utf8};
use crate::value::{
    elem_size, field_views_of, pair_views_of, shape_product, spec_elem_size, views_of, ArrayModel,
    ArrayValue, ElementKind, Value, ValueModel,
};
use crate::wire::{
    append_bool, append_bytes, append_u64, bytes_to_alignment, dec_bool, dec_bytes, dec_i64,
    dec_u64, dec_usize, enc_bool, enc_bytes, enc_i64, enc_u64, pad_to, retrieve_bool,
    retrieve_bytes, retrieve_i64, retrieve_u64, retrieve_usize, splice,
};

verus! {

/// A codec bound to exactly one value shape.
pub enum Codec {
    /// A single presence/absence byte.
    Bool,
    /// A 64-bit signed integer.
    Int,
    /// A 64-bit float, carried as its bit pattern.
    Float,
    /// Two 64-bit float bit patterns: real part, then imaginary part.
    Complex,
    /// A length-prefixed UTF-8 byte run.
    Str,
    /// A length-prefixed raw byte run.
    Bytes,
    /// The opaque fallback: a length-prefixed byte run the host runtime's
    /// generic serializer produced.
    Pickle,
    /// The dynamic codec: a tag byte, then the matching encoding,
    /// recursively for every element.
    Dynamic,
    /// An element count, then each element via the item codec.
    List(Box<Codec>),
    /// An element count, then each element in the set's iteration order.
    SetOf(Box<Codec>),
    /// Fixed arity: per-position codecs, no count on the wire.
    Tuple(Vec<Codec>),
    /// An entry count, then each key and value.
    Dict(Box<Codec>, Box<Codec>),
    /// A presence flag, then the value when present.
    Optional(Box<Codec>),
    /// A record with named fields in declared order; only the field
    /// payloads travel, names and arity are static.
    Record { strategy: InitStrategy, fields: Vec<(Vec<u8>, Codec)> },
    /// A mapping with a static string key set; only the values travel.
    TypedDict(Vec<(Vec<u8>, Codec)>),
    /// An option index, then the chosen option's encoding.
    Union(Vec<Codec>),
    /// A numeric array whose shape travels on the wire; no pooling.
    ArrayDyn(ElementKind),
    /// A numeric array of one static shape; decode reuses pooled buffers.
    ArrayFixed { kind: ElementKind, shape: Vec<usize>, pool: AllocationPool },
}

/// The mathematical model of a codec's configuration.  Pool contents are
/// runtime state, not configuration, and are not part of the model.
#[verifier::ext_equal]
pub enum CodecModel {
    Bool,
    Int,
    Float,
    Complex,
    Str,
    Bytes,
    Pickle,
    Dynamic,
    List(Box<CodecModel>),
    SetOf(Box<CodecModel>),
    Tuple(Seq<CodecModel>),
    Dict(Box<CodecModel>, Box<CodecModel>),
    Optional(Box<CodecModel>),
    Record { strategy: crate::init::InitStrategyModel, fields: Seq<(Seq<u8>, CodecModel)> },
    TypedDict(Seq<(Seq<u8>, CodecModel)>),
    Union(Seq<CodecModel>),
    ArrayDyn(ElementKind),
    ArrayFixed { kind: ElementKind, shape: Seq<usize>, pool_min: usize, pool_max: Option<usize> },
}

/// The models of a run of codecs, in order.
pub open spec fn codec_views_of(items: Seq<Codec>) -> Seq<CodecModel>
    decreases items,
{
    if items.len() == 0 {
        Seq::empty()
    } else {
        seq![items[0].view()] + codec_views_of(items.drop_first())
    }
}

/// The models of a run of named child codecs, in order.
pub open spec fn codec_field_views_of(fields: Seq<(Vec<u8>, Codec)>) -> Seq<(Seq<u8>, CodecModel)>
    decreases fields,
{
    if fields.len() == 0 {
        Seq::empty()
    } else {
        seq![(fields[0].0.view(), fields[0].1.view())] + codec_field_views_of(fields.drop_first())
    }
}

impl View for Codec {
    type V = CodecModel;

    open spec fn view(&self) -> CodecModel
        decreases self,
    {
        match self {
            Codec::Bool => CodecModel::Bool,
            Codec::Int => CodecModel::Int,
            Codec::Float => CodecModel::Float,
            Codec::Complex => CodecModel::Complex,
            Codec::Str => CodecModel::Str,
            Codec::Bytes => CodecModel::Bytes,
            Codec::Pickle => CodecModel::Pickle,
            Codec::Dynamic => CodecModel::Dynamic,
            Codec::List(ci) => CodecModel::List(Box::new((**ci).view())),
            Codec::SetOf(ci) => CodecModel::SetOf(Box::new((**ci).view())),
            Codec::Tuple(cs) => CodecModel::Tuple(codec_views_of(cs@)),
            Codec::Dict(ck, cv) => CodecModel::Dict(Box::new((**ck).view()), Box::new((**cv).view())),
            Codec::Optional(ci) => CodecModel::Optional(Box::new((**ci).view())),
            Codec::Record { strategy, fields } => CodecModel::Record {
                strategy: strategy.view(),
                fields: codec_field_views_of(fields@),
            },
            Codec::TypedDict(fields) => CodecModel::TypedDict(codec_field_views_of(fields@)),
            Codec::Union(opts) => CodecModel::Union(codec_views_of(opts@)),
            Codec::ArrayDyn(k) => CodecModel::ArrayDyn(*k),
            Codec::ArrayFixed { kind, shape, pool } => CodecModel::ArrayFixed {
                kind: *kind,
                shape: shape@,
                pool_min: pool.min_size,
                pool_max: pool.max_size,
            },
        }
    }
}

/// A run of codecs is modelled pointwise.
pub proof fn lemma_codec_views_of(items: Seq<Codec>)
    ensures
        codec_views_of(items).len() == items.len(),
        forall|i: int| 0 <= i < items.len() ==> codec_views_of(items)[i] == items[i]@,
    decreases items,
{
    if items.len() > 0 {
        assert(codec_views_of(items) == seq![items[0].view()] + codec_views_of(
            items.drop_first(),
        ));
        lemma_codec_views_of(items.drop_first());
        assert forall|i: int| 0 <= i < items.len() implies codec_views_of(items)[i]
            == items[i]@ by {
            if i > 0 {
                assert(items.drop_first()[i - 1] == items[i]);
            }
        }
    }
}

/// A run of named child codecs is modelled pointwise.
pub proof fn lemma_codec_field_views_of(fields: Seq<(Vec<u8>, Codec)>)
    ensures
        codec_field_views_of(fields).len() == fields.len(),
        forall|i: int| 0 <= i < fields.len() ==> codec_field_views_of(fields)[i] == (
            fields[i].0@,
            fields[i].1@,
        ),
    decreases fields,
{
    if fields.len() > 0 {
        assert(codec_field_views_of(fields) == seq![(fields[0].0.view(), fields[0].1.view())]
            + codec_field_views_of(fields.drop_first()));
        lemma_codec_field_views_of(fields.drop_first());
        assert forall|i: int| 0 <= i < fields.len() implies codec_field_views_of(fields)[i] == (
            fields[i].0@,
            fields[i].1@,
        ) by {
            if i > 0 {
                assert(fields.drop_first()[i - 1] == fields[i]);
            }
        }
    }
}

// ---------------------------------------------------------------------
// What each codec accepts.
// ---------------------------------------------------------------------

/// Whether the dynamic codec accepts a value: every kind in the closed
/// tag set, recursively for elements.  A record or an absent value has no
/// tag of its own; the host hands such values over pre-serialized, as the
/// opaque kind.
pub open spec fn dyn_accepts(v: ValueModel) -> bool
    decreases v, 1int, 0int,
{
    match v {
        ValueModel::Bool(_) => true,
        ValueModel::Int(_) => true,
        ValueModel::Float(_) => true,
        ValueModel::Complex(_, _) => true,
        ValueModel::Str(s) => is_utf8(s) && s.len() <= usize::MAX,
        ValueModel::Bytes(b) => b.len() <= usize::MAX,
        ValueModel::Array(a) => crate::value::wf_array(a),
        ValueModel::List(items) => items.len() <= usize::MAX && dyn_accepts_items(items),
        ValueModel::SetOf(items) => items.len() <= usize::MAX && dyn_accepts_items(items),
        ValueModel::Tuple(items) => items.len() <= usize::MAX && dyn_accepts_items(items),
        ValueModel::Dict(pairs) => pairs.len() <= usize::MAX && dyn_accepts_pairs(pairs),
        ValueModel::Record(_) => false,
        ValueModel::Null => false,
        ValueModel::Opaque(b) => b.len() <= usize::MAX,
    }
}

/// Whether the dynamic codec accepts every element of a run.
pub open spec fn dyn_accepts_items(items: Seq<ValueModel>) -> bool
    decreases items, 2int, 0int,
{
    if items.len() == 0 {
        true
    } else {
        dyn_accepts(items[0]) && dyn_accepts_items(items.drop_first())
    }
}

/// Whether the dynamic codec accepts every key and value of a run.
pub open spec fn dyn_accepts_pairs(pairs: Seq<(ValueModel, ValueModel)>) -> bool
    decreases pairs, 2int, 0int,
{
    if pairs.len() == 0 {
        true
    } else {
        dyn_accepts(pairs[0].0) && dyn_accepts(pairs[0].1) && dyn_accepts_pairs(
            pairs.drop_first(),
        )
    }
}

/// Whether codec `c` accepts value `v`: the value has the codec's shape,
/// recursively, and is well formed.
pub open spec fn accepts(c: CodecModel, v: ValueModel) -> bool
    decreases c, 1int, 0int,
{
    match c {
        CodecModel::Bool => v is Bool,
        CodecModel::Int => v is Int,
        CodecModel::Float => v is Float,
        CodecModel::Complex => v is Complex,
        CodecModel::Str => match v {
            ValueModel::Str(s) => is_utf8(s) && s.len() <= usize::MAX,
            _ => false,
        },
        CodecModel::Bytes => match v {
            ValueModel::Bytes(b) => b.len() <= usize::MAX,
            _ => false,
        },
        CodecModel::Pickle => match v {
            ValueModel::Opaque(b) => b.len() <= usize::MAX,
            _ => false,
        },
        CodecModel::Dynamic => dyn_accepts(v),
        CodecModel::List(ci) => match v {
            ValueModel::List(items) => items.len() <= usize::MAX && accepts_items(*ci, items),
            _ => false,
        },
        CodecModel::SetOf(ci) => match v {
            ValueModel::SetOf(items) => items.len() <= usize::MAX && accepts_items(*ci, items),
            _ => false,
        },
        CodecModel::Tuple(cs) => match v {
            ValueModel::Tuple(items) => items.len() == cs.len() && cs.len() <= usize::MAX
                && accepts_zip(cs, items),
            _ => false,
        },
        CodecModel::Dict(ck, cv) => match v {
            ValueModel::Dict(pairs) => pairs.len() <= usize::MAX && accepts_pairs(c, pairs),
            _ => false,
        },
        CodecModel::Optional(ci) => v == ValueModel::Null || (!(v is Null) && accepts(*ci, v)),
        CodecModel::Record { strategy, fields } => match v {
            ValueModel::Record(vfields) => vfields.len() == fields.len() && fields.len()
                <= usize::MAX && accepts_fields(fields, vfields),
            _ => false,
        },
        CodecModel::TypedDict(fields) => match v {
            ValueModel::Dict(pairs) => pairs.len() == fields.len() && fields.len() <= usize::MAX
                && accepts_keyed(fields, pairs),
            _ => false,
        },
        CodecModel::Union(opts) => opts.len() <= usize::MAX && accepts_any(opts, v),
        CodecModel::ArrayDyn(k) => match v {
            ValueModel::Array(a) => a.kind == k && crate::value::wf_array(a),
            _ => false,
        },
        CodecModel::ArrayFixed { kind, shape, .. } => match v {
            ValueModel::Array(a) => a.kind == kind && a.shape == shape && crate::value::wf_array(
                a,
            ),
            _ => false,
        },
    }
}

/// Whether one item codec accepts every element of a run.
pub open spec fn accepts_items(ci: CodecModel, items: Seq<ValueModel>) -> bool
    decreases ci, 2int, items.len(),
{
    if items.len() == 0 {
        true
    } else {
        accepts(ci, items[0]) && accepts_items(ci, items.drop_first())
    }
}

/// Whether per-position codecs accept a run of the same arity, position
/// by position.
pub open spec fn accepts_zip(cs: Seq<CodecModel>, items: Seq<ValueModel>) -> bool
    decreases cs, 1int, 0int,
{
    if cs.len() == 0 || items.len() == 0 {
        true
    } else {
        accepts(cs[0], items[0]) && accepts_zip(cs.drop_first(), items.drop_first())
    }
}

/// Whether the dict codec `c` accepts every key and value of a run.
pub open spec fn accepts_pairs(c: CodecModel, pairs: Seq<(ValueModel, ValueModel)>) -> bool
    decreases c, 0int, pairs.len(),
{
    match c {
        CodecModel::Dict(ck, cv) => if pairs.len() == 0 {
            true
        } else {
            accepts(*ck, pairs[0].0) && accepts(*cv, pairs[0].1) && accepts_pairs(
                c,
                pairs.drop_first(),
            )
        },
        _ => false,
    }
}

/// Whether named field codecs accept a record's fields: same names in the
/// same order, each value accepted.
pub open spec fn accepts_fields(
    fields: Seq<(Seq<u8>, CodecModel)>,
    vfields: Seq<(Seq<u8>, ValueModel)>,
) -> bool
    decreases fields, 1int, 0int,
{
    if fields.len() == 0 || vfields.len() == 0 {
        true
    } else {
        fields[0].0 == vfields[0].0 && accepts(fields[0].1, vfields[0].1) && accepts_fields(
            fields.drop_first(),
            vfields.drop_first(),
        )
    }
}

/// Whether named field codecs accept a dict's entries: each key is the
/// declared name as a string, in declared order, each value accepted.
pub open spec fn accepts_keyed(
    fields: Seq<(Seq<u8>, CodecModel)>,
    pairs: Seq<(ValueModel, ValueModel)>,
) -> bool
    decreases fields, 1int, 0int,
{
    if fields.len() == 0 || pairs.len() == 0 {
        true
    } else {
        pairs[0].0 == ValueModel::Str(fields[0].0) && is_utf8(fields[0].0) && fields[0].0.len()
            <= usize::MAX && accepts(fields[0].1, pairs[0].1) && accepts_keyed(
            fields.drop_first(),
            pairs.drop_first(),
        )
    }
}

/// Whether some option accepts the value.
pub open spec fn accepts_any(opts: Seq<CodecModel>, v: ValueModel) -> bool
    decreases opts, 1int, 0int,
{
    if opts.len() == 0 {
        false
    } else {
        accepts(opts[0], v) || accepts_any(opts.drop_first(), v)
    }
}

/// The index of the first option that accepts the value.
pub open spec fn first_accepting(opts: Seq<CodecModel>, v: ValueModel) -> int
    decreases opts, 1int, 0int,
{
    if opts.len() == 0 {
        0
    } else if accepts(opts[0], v) {
        0
    } else {
        1 + first_accepting(opts.drop_first(), v)
    }
}

/// When some option accepts the value, the first accepting index is in
/// range, its option accepts the value, and no earlier option does.
pub proof fn lemma_first_accepting(opts: Seq<CodecModel>, v: ValueModel)
    requires
        accepts_any(opts, v),
    ensures
        0 <= first_accepting(opts, v) < opts.len(),
        accepts(opts[first_accepting(opts, v)], v),
        forall|j: int| 0 <= j < first_accepting(opts, v) ==> !accepts(opts[j], v),
    decreases opts,
{
    if opts.len() > 0 && !accepts(opts[0], v) {
        lemma_first_accepting(opts.drop_first(), v);
        let k = first_accepting(opts.drop_first(), v);
        assert(opts.drop_first()[k] == opts[k + 1]);
        assert forall|j: int| 0 <= j < first_accepting(opts, v) implies !accepts(opts[j], v) by {
            if j > 0 {
                assert(opts.drop_first()[j - 1] == opts[j]);
            }
        }
    }
}

// ---------------------------------------------------------------------
// The wire layout: what append writes.
// ---------------------------------------------------------------------

/// A run of unspecified padding bytes, written as zeros.
pub open spec fn zeros(n: int) -> Seq<u8> {
    Seq::new(n as nat, |i: int| 0u8)
}

/// The wire bytes of an array shape: each dimension as an unsigned word.
pub open spec fn enc_shape(dims: Seq<usize>) -> Seq<u8>
    decreases dims,
{
    if dims.len() == 0 {
        Seq::empty()
    } else {
        enc_u64(dims[0] as u64) + enc_shape(dims.drop_first())
    }
}

/// The wire bytes of a dynamic-shape array at `off`: rank, dimensions,
/// padding up to the element alignment, then the length-prefixed raw
/// element bytes.
pub open spec fn arr_dyn_enc(a: ArrayModel, off: int) -> Seq<u8> {
    let head = enc_u64(a.shape.len() as u64) + enc_shape(a.shape);
    let pad = pad_to(off + head.len(), spec_elem_size(a.kind));
    head + zeros(pad) + enc_bytes(a.data)
}

/// The wire bytes of a fixed-shape array at `off`: padding up to the
/// element alignment, then the length-prefixed raw element bytes.  The
/// shape is static configuration and does not travel.
pub open spec fn arr_fixed_enc(a: ArrayModel, off: int) -> Seq<u8> {
    let pad = pad_to(off, spec_elem_size(a.kind));
    zeros(pad) + enc_bytes(a.data)
}

/// The wire bytes the dynamic codec writes for `v` at `off`.
pub open spec fn dyn_enc(v: ValueModel, off: int) -> Seq<u8>
    decreases v, 1int, 0int,
{
    let tag = seq![spec_tag_byte(spec_detect(v))];
    match v {
        ValueModel::Bool(b) => tag + enc_bool(b),
        ValueModel::Int(i) => tag + enc_i64(i),
        ValueModel::Float(x) => tag + enc_u64(x),
        ValueModel::Complex(re, im) => tag + enc_u64(re) + enc_u64(im),
        ValueModel::Str(s) => tag + enc_bytes(s),
        ValueModel::Bytes(b) => tag + enc_bytes(b),
        ValueModel::Array(a) => tag + arr_dyn_enc(a, off + 1),
        ValueModel::List(items) => tag + enc_u64(items.len() as u64) + dyn_enc_items(
            items,
            off + 9,
        ),
        ValueModel::SetOf(items) => tag + enc_u64(items.len() as u64) + dyn_enc_items(
            items,
            off + 9,
        ),
        ValueModel::Tuple(items) => tag + enc_u64(items.len() as u64) + dyn_enc_items(
            items,
            off + 9,
        ),
        ValueModel::Dict(pairs) => tag + enc_u64(pairs.len() as u64) + dyn_enc_pairs(
            pairs,
            off + 9,
        ),
        ValueModel::Record(_) => Seq::empty(),
        ValueModel::Null => Seq::empty(),
        ValueModel::Opaque(b) => tag + enc_bytes(b),
    }
}

/// The wire bytes of a run of elements under the dynamic codec.
pub open spec fn dyn_enc_items(items: Seq<ValueModel>, off: int) -> Seq<u8>
    decreases items, 2int, 0int,
{
    if items.len() == 0 {
        Seq::empty()
    } else {
        let head = dyn_enc(items[0], off);
        head + dyn_enc_items(items.drop_first(), off + head.len())
    }
}

/// The wire bytes of a run of key-value pairs under the dynamic codec.
pub open spec fn dyn_enc_pairs(pairs: Seq<(ValueModel, ValueModel)>, off: int) -> Seq<u8>
    decreases pairs, 2int, 0int,
{
    if pairs.len() == 0 {
        Seq::empty()
    } else {
        let kh = dyn_enc(pairs[0].0, off);
        let vh = dyn_enc(pairs[0].1, off + kh.len());
        kh + vh + dyn_enc_pairs(pairs.drop_first(), off + kh.len() + vh.len())
    }
}

/// The wire bytes codec `c` writes for `v` at `off`.
pub open spec fn enc(c: CodecModel, v: ValueModel, off: int) -> Seq<u8>
    decreases c, 1int, 0int,
{
    match c {
        CodecModel::Bool => match v {
            ValueModel::Bool(b) => enc_bool(b),
            _ => Seq::empty(),
        },
        CodecModel::Int => match v {
            ValueModel::Int(i) => enc_i64(i),
            _ => Seq::empty(),
        },
        CodecModel::Float => match v {
            ValueModel::Float(x) => enc_u64(x),
            _ => Seq::empty(),
        },
        CodecModel::Complex => match v {
            ValueModel::Complex(re, im) => enc_u64(re) + enc_u64(im),
            _ => Seq::empty(),
        },
        CodecModel::Str => match v {
            ValueModel::Str(s) => enc_bytes(s),
            _ => Seq::empty(),
        },
        CodecModel::Bytes => match v {
            ValueModel::Bytes(b) => enc_bytes(b),
            _ => Seq::empty(),
        },
        CodecModel::Pickle => match v {
            ValueModel::Opaque(b) => enc_bytes(b),
            _ => Seq::empty(),
        },
        CodecModel::Dynamic => dyn_enc(v, off),
        CodecModel::List(ci) => match v {
            ValueModel::List(items) => enc_u64(items.len() as u64) + enc_items(
                *ci,
                items,
                off + 8,
            ),
            _ => Seq::empty(),
        },
        CodecModel::SetOf(ci) => match v {
            ValueModel::SetOf(items) => enc_u64(items.len() as u64) + enc_items(
                *ci,
                items,
                off + 8,
            ),
            _ => Seq::empty(),
        },
        CodecModel::Tuple(cs) => match v {
            ValueModel::Tuple(items) => enc_zip(cs, items, off),
            _ => Seq::empty(),
        },
        CodecModel::Dict(ck, cv) => match v {
            ValueModel::Dict(pairs) => enc_u64(pairs.len() as u64) + enc_pairs(
                c,
                pairs,
                off + 8,
            ),
            _ => Seq::empty(),
        },
        CodecModel::Optional(ci) => if v == ValueModel::Null {
            enc_bool(false)
        } else {
            enc_bool(true) + enc(*ci, v, off + 1)
        },
        CodecModel::Record { strategy, fields } => match v {
            ValueModel::Record(vfields) => enc_fields(fields, vfields, off),
            _ => Seq::empty(),
        },
        CodecModel::TypedDict(fields) => match v {
            ValueModel::Dict(pairs) => enc_keyed(fields, pairs, off),
            _ => Seq::empty(),
        },
        CodecModel::Union(opts) => {
            let idx = first_accepting(opts, v);
            enc_u64(idx as u64) + enc_nth(opts, idx, v, off + 8)
        },
        CodecModel::ArrayDyn(k) => match v {
            ValueModel::Array(a) => arr_dyn_enc(a, off),
            _ => Seq::empty(),
        },
        CodecModel::ArrayFixed { .. } => match v {
            ValueModel::Array(a) => arr_fixed_enc(a, off),
            _ => Seq::empty(),
        },
    }
}

/// The wire bytes of a run of elements under one item codec.
pub open spec fn enc_items(ci: CodecModel, items: Seq<ValueModel>, off: int) -> Seq<u8>
    decreases ci, 2int, items.len(),
{
    if items.len() == 0 {
        Seq::empty()
    } else {
        let head = enc(ci, items[0], off);
        head + enc_items(ci, items.drop_first(), off + head.len())
    }
}

/// The wire bytes of a run of elements under per-position codecs.
pub open spec fn enc_zip(cs: Seq<CodecModel>, items: Seq<ValueModel>, off: int) -> Seq<u8>
    decreases cs, 1int, 0int,
{
    if cs.len() == 0 || items.len() == 0 {
        Seq::empty()
    } else {
        let head = enc(cs[0], items[0], off);
        head + enc_zip(cs.drop_first(), items.drop_first(), off + head.len())
    }
}

/// The wire bytes of a run of key-value pairs under the dict codec `c`.
pub open spec fn enc_pairs(c: CodecModel, pairs: Seq<(ValueModel, ValueModel)>, off: int) -> Seq<
    u8,
>
    decreases c, 0int, pairs.len(),
{
    match c {
        CodecModel::Dict(ck, cv) => if pairs.len() == 0 {
            Seq::empty()
        } else {
            let kh = enc(*ck, pairs[0].0, off);
            let vh = enc(*cv, pairs[0].1, off + kh.len());
            kh + vh + enc_pairs(c, pairs.drop_first(), off + kh.len() + vh.len())
        },
        _ => Seq::empty(),
    }
}

/// The wire bytes of a record's fields, in declared order.
pub open spec fn enc_fields(
    fields: Seq<(Seq<u8>, CodecModel)>,
    vfields: Seq<(Seq<u8>, ValueModel)>,
    off: int,
) -> Seq<u8>
    decreases fields, 1int, 0int,
{
    if fields.len() == 0 || vfields.len() == 0 {
        Seq::empty()
    } else {
        let head = enc(fields[0].1, vfields[0].1, off);
        head + enc_fields(fields.drop_first(), vfields.drop_first(), off + head.len())
    }
}

/// The wire bytes of a keyed dict's values, in declared key order.
pub open spec fn enc_keyed(
    fields: Seq<(Seq<u8>, CodecModel)>,
    pairs: Seq<(ValueModel, ValueModel)>,
    off: int,
) -> Seq<u8>
    decreases fields, 1int, 0int,
{
    if fields.len() == 0 || pairs.len() == 0 {
        Seq::empty()
    } else {
        let head = enc(fields[0].1, pairs[0].1, off);
        head + enc_keyed(fields.drop_first(), pairs.drop_first(), off + head.len())
    }
}

/// The wire bytes of `v` under the option at index `idx`.
pub open spec fn enc_nth(opts: Seq<CodecModel>, idx: int, v: ValueModel, off: int) -> Seq<u8>
    decreases opts, 1int, 0int,
{
    if opts.len() == 0 {
        Seq::empty()
    } else if idx == 0 {
        enc(opts[0], v, off)
    } else {
        enc_nth(opts.drop_first(), idx - 1, v, off)
    }
}

} // verus!

verus! {

// ---------------------------------------------------------------------
// The wire layout: what retrieve reads.
// ---------------------------------------------------------------------

/// What reading an array shape of `n` dimensions at `off` yields.
pub open spec fn dec_shape(n: int, b: Seq<u8>, off: int) -> Result<(Seq<usize>, int), DecodeError>
    decreases n,
{
    if n <= 0 {
        Ok((Seq::empty(), off))
    } else {
        match dec_usize(b, off) {
            Ok((d, o2)) => match dec_shape(n - 1, b, o2) {
                Ok((ds, o3)) => Ok((seq![d] + ds, o3)),
                Err(e) => Err(e),
            },
            Err(e) => Err(e),
        }
    }
}

/// What reading a dynamic-shape array of kind `k` at `off` yields: rank,
/// dimensions, alignment padding, then the length-prefixed raw bytes,
/// which must hold exactly one element per shape slot.
pub open spec fn arr_dyn_dec(k: ElementKind, b: Seq<u8>, off: int) -> Result<
    (ValueModel, int),
    DecodeError,
> {
    match dec_usize(b, off) {
        Ok((rank, o2)) => match dec_shape(rank as int, b, o2) {
            Ok((dims, o3)) => {
                let pad = pad_to(o3, spec_elem_size(k));
                if o3 + pad > b.len() {
                    Err(DecodeError::TooShort)
                } else {
                    match dec_bytes(b, o3 + pad) {
                        Ok((data, o4)) => if data.len() == spec_elem_size(k) * shape_product(
                            dims,
                        ) {
                            Ok((ValueModel::Array(ArrayModel { kind: k, shape: dims, data }), o4))
                        } else {
                            Err(DecodeError::BadShape)
                        },
                        Err(e) => Err(e),
                    }
                }
            },
            Err(e) => Err(e),
        },
        Err(e) => Err(e),
    }
}

/// What reading a fixed-shape array of kind `k` and static shape `shape`
/// at `off` yields: alignment padding, then the length-prefixed raw
/// bytes, which must hold exactly one element per shape slot.
pub open spec fn arr_fixed_dec(k: ElementKind, shape: Seq<usize>, b: Seq<u8>, off: int) -> Result<
    (ValueModel, int),
    DecodeError,
> {
    let pad = pad_to(off, spec_elem_size(k));
    if off + pad > b.len() {
        Err(DecodeError::TooShort)
    } else {
        match dec_bytes(b, off + pad) {
            Ok((data, o2)) => if data.len() == spec_elem_size(k) * shape_product(shape) {
                Ok((ValueModel::Array(ArrayModel { kind: k, shape, data }), o2))
            } else {
                Err(DecodeError::BadShape)
            },
            Err(e) => Err(e),
        }
    }
}

/// What the dynamic codec reads at `off`: a tag byte, then the matching
/// decoding; an unrecognized tag byte is a fatal error.
pub open spec fn dyn_dec(b: Seq<u8>, off: int) -> Result<(ValueModel, int), DecodeError>
    decreases b.len() - off, 0int, 0int,
{
    if off < 0 || off + 1 > b.len() {
        Err(DecodeError::TooShort)
    } else {
        match spec_tag_of_byte(b[off]) {
            None => Err(DecodeError::BadTag(b[off])),
            Some(t) => match t {
                TypeTag::Bool => match dec_bool(b, off + 1) {
                    Ok((x, e)) => Ok((ValueModel::Bool(x), e)),
                    Err(er) => Err(er),
                },
                TypeTag::Int => match dec_i64(b, off + 1) {
                    Ok((x, e)) => Ok((ValueModel::Int(x), e)),
                    Err(er) => Err(er),
                },
                TypeTag::Float => match dec_u64(b, off + 1) {
                    Ok((x, e)) => Ok((ValueModel::Float(x), e)),
                    Err(er) => Err(er),
                },
                TypeTag::Complex => match dec_u64(b, off + 1) {
                    Ok((re, e1)) => match dec_u64(b, e1) {
                        Ok((im, e2)) => Ok((ValueModel::Complex(re, im), e2)),
                        Err(er) => Err(er),
                    },
                    Err(er) => Err(er),
                },
                TypeTag::Str => match dec_bytes(b, off + 1) {
                    Ok((s, e)) => if is_utf8(s) {
                        Ok((ValueModel::Str(s), e))
                    } else {
                        Err(DecodeError::BadUtf8)
                    },
                    Err(er) => Err(er),
                },
                TypeTag::Bytes => match dec_bytes(b, off + 1) {
                    Ok((x, e)) => Ok((ValueModel::Bytes(x), e)),
                    Err(er) => Err(er),
                },
                TypeTag::Other => match dec_bytes(b, off + 1) {
                    Ok((x, e)) => Ok((ValueModel::Opaque(x), e)),
                    Err(er) => Err(er),
                },
                TypeTag::Array(k) => arr_dyn_dec(k, b, off + 1),
                TypeTag::List => match dec_usize(b, off + 1) {
                    Ok((n, o2)) => match dyn_dec_items(b, o2, n as int) {
                        Ok((vs, o3)) => Ok((ValueModel::List(vs), o3)),
                        Err(er) => Err(er),
                    },
                    Err(er) => Err(er),
                },
                TypeTag::SetOf => match dec_usize(b, off + 1) {
                    Ok((n, o2)) => match dyn_dec_items(b, o2, n as int) {
                        Ok((vs, o3)) => Ok((ValueModel::SetOf(vs), o3)),
                        Err(er) => Err(er),
                    },
                    Err(er) => Err(er),
                },
                TypeTag::Tuple => match dec_usize(b, off + 1) {
                    Ok((n, o2)) => match dyn_dec_items(b, o2, n as int) {
                        Ok((vs, o3)) => Ok((ValueModel::Tuple(vs), o3)),
                        Err(er) => Err(er),
                    },
                    Err(er) => Err(er),
                },
                TypeTag::Dict => match dec_usize(b, off + 1) {
                    Ok((n, o2)) => match dyn_dec_pairs(b, o2, n as int) {
                        Ok((ps, o3)) => Ok((ValueModel::Dict(ps), o3)),
                        Err(er) => Err(er),
                    },
                    Err(er) => Err(er),
                },
            },
        }
    }
}

/// What reading `n` elements under the dynamic codec at `off` yields.
pub open spec fn dyn_dec_items(b: Seq<u8>, off: int, n: int) -> Result<
    (Seq<ValueModel>, int),
    DecodeError,
>
    decreases b.len() - off, 1int, n,
{
    if n <= 0 {
        Ok((Seq::empty(), off))
    } else if off < 0 || off > b.len() {
        Err(DecodeError::TooShort)
    } else {
        match dyn_dec(b, off) {
            Ok((v, o2)) => if o2 <= off || o2 > b.len() {
                Err(DecodeError::TooShort)
            } else {
                match dyn_dec_items(b, o2, n - 1) {
                    Ok((vs, o3)) => Ok((seq![v] + vs, o3)),
                    Err(e) => Err(e),
                }
            },
            Err(e) => Err(e),
        }
    }
}

/// What reading `n` key-value pairs under the dynamic codec at `off`
/// yields.
pub open spec fn dyn_dec_pairs(b: Seq<u8>, off: int, n: int) -> Result<
    (Seq<(ValueModel, ValueModel)>, int),
    DecodeError,
>
    decreases b.len() - off, 1int, n,
{
    if n <= 0 {
        Ok((Seq::empty(), off))
    } else if off < 0 || off > b.len() {
        Err(DecodeError::TooShort)
    } else {
        match dyn_dec(b, off) {
            Ok((k, o2)) => if o2 <= off || o2 > b.len() {
                Err(DecodeError::TooShort)
            } else {
                match dyn_dec(b, o2) {
                    Ok((v, o3)) => if o3 <= o2 || o3 > b.len() {
                        Err(DecodeError::TooShort)
                    } else {
                        match dyn_dec_pairs(b, o3, n - 1) {
                            Ok((ps, o4)) => Ok((seq![(k, v)] + ps, o4)),
                            Err(e) => Err(e),
                        }
                    },
                    Err(e) => Err(e),
                }
            },
            Err(e) => Err(e),
        }
    }
}

/// What codec `c` reads at `off`.
pub open spec fn dec(c: CodecModel, b: Seq<u8>, off: int) -> Result<(ValueModel, int), DecodeError>
    decreases c, 1int, 0int,
{
    match c {
        CodecModel::Bool => match dec_bool(b, off) {
            Ok((x, e)) => Ok((ValueModel::Bool(x), e)),
            Err(er) => Err(er),
        },
        CodecModel::Int => match dec_i64(b, off) {
            Ok((x, e)) => Ok((ValueModel::Int(x), e)),
            Err(er) => Err(er),
        },
        CodecModel::Float => match dec_u64(b, off) {
            Ok((x, e)) => Ok((ValueModel::Float(x), e)),
            Err(er) => Err(er),
        },
        CodecModel::Complex => match dec_u64(b, off) {
            Ok((re, e1)) => match dec_u64(b, e1) {
                Ok((im, e2)) => Ok((ValueModel::Complex(re, im), e2)),
                Err(er) => Err(er),
            },
            Err(er) => Err(er),
        },
        CodecModel::Str => match dec_bytes(b, off) {
            Ok((s, e)) => if is_utf8(s) {
                Ok((ValueModel::Str(s), e))
            } else {
                Err(DecodeError::BadUtf8)
            },
            Err(er) => Err(er),
        },
        CodecModel::Bytes => match dec_bytes(b, off) {
            Ok((x, e)) => Ok((ValueModel::Bytes(x), e)),
            Err(er) => Err(er),
        },
        CodecModel::Pickle => match dec_bytes(b, off) {
            Ok((x, e)) => Ok((ValueModel::Opaque(x), e)),
            Err(er) => Err(er),
        },
        CodecModel::Dynamic => dyn_dec(b, off),
        CodecModel::List(ci) => match dec_usize(b, off) {
            Ok((n, o2)) => match dec_items(*ci, n as int, b, o2) {
                Ok((vs, o3)) => Ok((ValueModel::List(vs), o3)),
                Err(er) => Err(er),
            },
            Err(er) => Err(er),
        },
        CodecModel::SetOf(ci) => match dec_usize(b, off) {
            Ok((n, o2)) => match dec_items(*ci, n as int, b, o2) {
                Ok((vs, o3)) => Ok((ValueModel::SetOf(vs), o3)),
                Err(er) => Err(er),
            },
            Err(er) => Err(er),
        },
        CodecModel::Tuple(cs) => match dec_zip(cs, b, off) {
            Ok((vs, o2)) => Ok((ValueModel::Tuple(vs), o2)),
            Err(er) => Err(er),
        },
        CodecModel::Dict(ck, cv) => match dec_usize(b, off) {
            Ok((n, o2)) => match dec_pairs(c, n as int, b, o2) {
                Ok((ps, o3)) => Ok((ValueModel::Dict(ps), o3)),
                Err(er) => Err(er),
            },
            Err(er) => Err(er),
        },
        CodecModel::Optional(ci) => match dec_bool(b, off) {
            Ok((present, o2)) => if present {
                dec(*ci, b, o2)
            } else {
                Ok((ValueModel::Null, o2))
            },
            Err(er) => Err(er),
        },
        CodecModel::Record { strategy, fields } => match dec_fields(fields, b, off) {
            Ok((vfs, o2)) => Ok((ValueModel::Record(vfs), o2)),
            Err(er) => Err(er),
        },
        CodecModel::TypedDict(fields) => match dec_keyed(fields, b, off) {
            Ok((ps, o2)) => Ok((ValueModel::Dict(ps), o2)),
            Err(er) => Err(er),
        },
        CodecModel::Union(opts) => match dec_u64(b, off) {
            Ok((idx, o2)) => if idx as int >= opts.len() {
                Err(DecodeError::BadIndex(idx))
            } else {
                dec_nth(opts, idx as int, b, o2)
            },
            Err(er) => Err(er),
        },
        CodecModel::ArrayDyn(k) => arr_dyn_dec(k, b, off),
        CodecModel::ArrayFixed { kind, shape, .. } => arr_fixed_dec(kind, shape, b, off),
    }
}

/// What reading `n` elements under one item codec at `off` yields.
pub open spec fn dec_items(ci: CodecModel, n: int, b: Seq<u8>, off: int) -> Result<
    (Seq<ValueModel>, int),
    DecodeError,
>
    decreases ci, 2int, n,
{
    if n <= 0 {
        Ok((Seq::empty(), off))
    } else {
        match dec(ci, b, off) {
            Ok((v, o2)) => match dec_items(ci, n - 1, b, o2) {
                Ok((vs, o3)) => Ok((seq![v] + vs, o3)),
                Err(e) => Err(e),
            },
            Err(e) => Err(e),
        }
    }
}

/// What reading one element per positional codec at `off` yields.
pub open spec fn dec_zip(cs: Seq<CodecModel>, b: Seq<u8>, off: int) -> Result<
    (Seq<ValueModel>, int),
    DecodeError,
>
    decreases cs, 1int, 0int,
{
    if cs.len() == 0 {
        Ok((Seq::empty(), off))
    } else {
        match dec(cs[0], b, off) {
            Ok((v, o2)) => match dec_zip(cs.drop_first(), b, o2) {
                Ok((vs, o3)) => Ok((seq![v] + vs, o3)),
                Err(e) => Err(e),
            },
            Err(e) => Err(e),
        }
    }
}

/// What reading `n` key-value pairs under the dict codec `c` at `off`
/// yields.
pub open spec fn dec_pairs(c: CodecModel, n: int, b: Seq<u8>, off: int) -> Result<
    (Seq<(ValueModel, ValueModel)>, int),
    DecodeError,
>
    decreases c, 0int, n,
{
    match c {
        CodecModel::Dict(ck, cv) => if n <= 0 {
            Ok((Seq::empty(), off))
        } else {
            match dec(*ck, b, off) {
                Ok((k, o2)) => match dec(*cv, b, o2) {
                    Ok((v, o3)) => match dec_pairs(c, n - 1, b, o3) {
                        Ok((ps, o4)) => Ok((seq![(k, v)] + ps, o4)),
                        Err(e) => Err(e),
                    },
                    Err(e) => Err(e),
                },
                Err(e) => Err(e),
            }
        },
        _ => Err(DecodeError::TooShort),
    }
}

/// What reading a record's fields at `off` yields: each declared name
/// paired with its decoded value, in declared order.
pub open spec fn dec_fields(fields: Seq<(Seq<u8>, CodecModel)>, b: Seq<u8>, off: int) -> Result<
    (Seq<(Seq<u8>, ValueModel)>, int),
    DecodeError,
>
    decreases fields, 1int, 0int,
{
    if fields.len() == 0 {
        Ok((Seq::empty(), off))
    } else {
        match dec(fields[0].1, b, off) {
            Ok((v, o2)) => match dec_fields(fields.drop_first(), b, o2) {
                Ok((vfs, o3)) => Ok((seq![(fields[0].0, v)] + vfs, o3)),
                Err(e) => Err(e),
            },
            Err(e) => Err(e),
        }
    }
}

/// What reading a keyed dict's values at `off` yields: each declared key
/// as a string, paired with its decoded value, in declared order.
pub open spec fn dec_keyed(fields: Seq<(Seq<u8>, CodecModel)>, b: Seq<u8>, off: int) -> Result<
    (Seq<(ValueModel, ValueModel)>, int),
    DecodeError,
>
    decreases fields, 1int, 0int,
{
    if fields.len() == 0 {
        Ok((Seq::empty(), off))
    } else {
        match dec(fields[0].1, b, off) {
            Ok((v, o2)) => match dec_keyed(fields.drop_first(), b, o2) {
                Ok((ps, o3)) => Ok((seq![(ValueModel::Str(fields[0].0), v)] + ps, o3)),
                Err(e) => Err(e),
            },
            Err(e) => Err(e),
        }
    }
}

/// What reading under the option at index `idx` at `off` yields.
pub open spec fn dec_nth(opts: Seq<CodecModel>, idx: int, b: Seq<u8>, off: int) -> Result<
    (ValueModel, int),
    DecodeError,
>
    decreases opts, 1int, 0int,
{
    if opts.len() == 0 {
        Err(DecodeError::TooShort)
    } else if idx == 0 {
        dec(opts[0], b, off)
    } else {
        dec_nth(opts.drop_first(), idx - 1, b, off)
    }
}

} // verus!

verus! {

// ---------------------------------------------------------------------
// The round-trip law: reading back what was written yields the value.
// ---------------------------------------------------------------------

/// The wire bytes of an array shape take eight bytes per dimension.
pub proof fn lemma_enc_shape_len(dims: Seq<usize>)
    ensures
        enc_shape(dims).len() == 8 * dims.len(),
    decreases dims,
{
    vstd::bytes::lemma_auto_spec_u64_to_from_le_bytes();
    if dims.len() > 0 {
        lemma_enc_shape_len(dims.drop_first());
    }
}

/// A window holding an encoded shape reads back as that shape.
pub proof fn lemma_rt_shape(dims: Seq<usize>, b: Seq<u8>, off: int)
    requires
        0 <= off,
        off + enc_shape(dims).len() <= b.len(),
        b.subrange(off, off + enc_shape(dims).len()) == enc_shape(dims),
    ensures
        dec_shape(dims.len() as int, b, off) == Ok::<(Seq<usize>, int), DecodeError>((
            dims,
            off + enc_shape(dims).len(),
        )),
    decreases dims,
{
    vstd::bytes::lemma_auto_spec_u64_to_from_le_bytes();
    if dims.len() > 0 {
        let w1 = enc_u64(dims[0] as u64);
        let w2 = enc_shape(dims.drop_first());
        assert(enc_shape(dims) == w1 + w2);
        crate::wire::lemma_window(b, off, w1, w2);
        crate::wire::lemma_rt_usize(b, off, dims[0] as int);
        assert(dec_usize(b, off) == Ok::<(usize, int), DecodeError>((dims[0], off + 8)));
        lemma_rt_shape(dims.drop_first(), b, off + 8);
        let rest_len = enc_shape(dims.drop_first()).len();
        assert(dec_shape(dims.drop_first().len() as int, b, off + 8) == Ok::<
            (Seq<usize>, int),
            DecodeError,
        >((dims.drop_first(), off + 8 + rest_len)));
        assert(dims.drop_first().len() as int == dims.len() as int - 1);
        assert(seq![dims[0]] + dims.drop_first() =~= dims);
        assert(dec_shape(dims.len() as int, b, off) == Ok::<(Seq<usize>, int), DecodeError>((
            seq![dims[0]] + dims.drop_first(),
            off + 8 + rest_len,
        )));
    } else {
        assert(Seq::<usize>::empty() =~= dims);
    }
}

/// A window holding a dynamic-shape array encoding reads back as that
/// array.
pub proof fn lemma_rt_arr_dyn(a: ArrayModel, b: Seq<u8>, off: int)
    requires
        crate::value::wf_array(a),
        0 <= off,
        off + arr_dyn_enc(a, off).len() <= b.len(),
        b.subrange(off, off + arr_dyn_enc(a, off).len()) == arr_dyn_enc(a, off),
    ensures
        arr_dyn_dec(a.kind, b, off) == Ok::<(ValueModel, int), DecodeError>((
            ValueModel::Array(a),
            off + arr_dyn_enc(a, off).len(),
        )),
{
    vstd::bytes::lemma_auto_spec_u64_to_from_le_bytes();
    lemma_enc_shape_len(a.shape);
    let w1 = enc_u64(a.shape.len() as u64);
    let w2 = enc_shape(a.shape);
    let head = w1 + w2;
    let size = spec_elem_size(a.kind);
    let pad = pad_to(off + head.len(), size);
    crate::wire::lemma_pad_to(off + head.len(), size);
    let w3 = zeros(pad);
    let w4 = enc_bytes(a.data);
    assert(arr_dyn_enc(a, off) == head + w3 + w4);
    assert(arr_dyn_enc(a, off) =~= w1 + (w2 + (w3 + w4)));
    crate::wire::lemma_window(b, off, w1, w2 + (w3 + w4));
    crate::wire::lemma_rt_usize(b, off, a.shape.len() as int);
    crate::wire::lemma_window(b, off + 8, w2, w3 + w4);
    lemma_rt_shape(a.shape, b, off + 8);
    let o3 = off + 8 + w2.len();
    crate::wire::lemma_window(b, o3, w3, w4);
    crate::wire::lemma_rt_bytes(b, o3 + pad, a.data);
    crate::value::lemma_shape_product_nonneg(a.shape);
    assert(dec_shape(a.shape.len() as int, b, off + 8) == Ok::<(Seq<usize>, int), DecodeError>((
        a.shape,
        o3,
    )));
    let end = o3 + pad + 8 + a.data.len();
    assert(dec_bytes(b, o3 + pad) == Ok::<(Seq<u8>, int), DecodeError>((a.data, end)));
    assert(ValueModel::Array(ArrayModel { kind: a.kind, shape: a.shape, data: a.data })
        == ValueModel::Array(a)) by {
        assert(ArrayModel { kind: a.kind, shape: a.shape, data: a.data } =~= a);
    }
    assert(end == off + arr_dyn_enc(a, off).len());
}

/// A window holding a fixed-shape array encoding reads back as that
/// array.
pub proof fn lemma_rt_arr_fixed(a: ArrayModel, b: Seq<u8>, off: int)
    requires
        crate::value::wf_array(a),
        0 <= off,
        off + arr_fixed_enc(a, off).len() <= b.len(),
        b.subrange(off, off + arr_fixed_enc(a, off).len()) == arr_fixed_enc(a, off),
    ensures
        arr_fixed_dec(a.kind, a.shape, b, off) == Ok::<(ValueModel, int), DecodeError>((
            ValueModel::Array(a),
            off + arr_fixed_enc(a, off).len(),
        )),
{
    vstd::bytes::lemma_auto_spec_u64_to_from_le_bytes();
    let size = spec_elem_size(a.kind);
    let pad = pad_to(off, size);
    crate::wire::lemma_pad_to(off, size);
    let w3 = zeros(pad);
    let w4 = enc_bytes(a.data);
    assert(arr_fixed_enc(a, off) == w3 + w4);
    crate::wire::lemma_window(b, off, w3, w4);
    crate::wire::lemma_rt_bytes(b, off + pad, a.data);
    crate::value::lemma_shape_product_nonneg(a.shape);
    assert(ValueModel::Array(ArrayModel { kind: a.kind, shape: a.shape, data: a.data })
        == ValueModel::Array(a)) by {
        assert(ArrayModel { kind: a.kind, shape: a.shape, data: a.data } =~= a);
    }
}

/// Every value the dynamic codec accepts encodes to at least its tag
/// byte.
pub proof fn lemma_dyn_enc_pos(v: ValueModel, off: int)
    requires
        dyn_accepts(v),
    ensures
        dyn_enc(v, off).len() >= 1,
{
}

/// A window holding the dynamic encoding of a value reads back as that
/// value.
pub proof fn lemma_rt_dyn(v: ValueModel, b: Seq<u8>, off: int)
    requires
        dyn_accepts(v),
        0 <= off,
        off + dyn_enc(v, off).len() <= b.len(),
        b.subrange(off, off + dyn_enc(v, off).len()) == dyn_enc(v, off),
    ensures
        dyn_dec(b, off) == Ok::<(ValueModel, int), DecodeError>((
            v,
            off + dyn_enc(v, off).len(),
        )),
    decreases v, 1int, 0int,
{
    vstd::bytes::lemma_auto_spec_u64_to_from_le_bytes();
    let tag = seq![spec_tag_byte(spec_detect(v))];
    crate::tag::lemma_tag_byte_roundtrip(spec_detect(v));
    match v {
        ValueModel::Bool(x) => {
            crate::wire::lemma_window(b, off, tag, enc_bool(x));
            assert(b[off] == tag[0]);
            crate::wire::lemma_rt_bool(b, off + 1, x);
        },
        ValueModel::Int(x) => {
            crate::wire::lemma_window(b, off, tag, enc_i64(x));
            assert(b[off] == tag[0]);
            crate::wire::lemma_rt_i64(b, off + 1, x);
        },
        ValueModel::Float(x) => {
            crate::wire::lemma_window(b, off, tag, enc_u64(x));
            assert(b[off] == tag[0]);
            crate::wire::lemma_rt_u64(b, off + 1, x);
        },
        ValueModel::Complex(re, im) => {
            assert(dyn_enc(v, off) =~= tag + (enc_u64(re) + enc_u64(im)));
            crate::wire::lemma_window(b, off, tag, enc_u64(re) + enc_u64(im));
            assert(b[off] == tag[0]);
            crate::wire::lemma_window(b, off + 1, enc_u64(re), enc_u64(im));
            crate::wire::lemma_rt_u64(b, off + 1, re);
            crate::wire::lemma_rt_u64(b, off + 9, im);
        },
        ValueModel::Str(s) => {
            crate::wire::lemma_window(b, off, tag, enc_bytes(s));
            assert(b[off] == tag[0]);
            crate::wire::lemma_rt_bytes(b, off + 1, s);
        },
        ValueModel::Bytes(x) => {
            crate::wire::lemma_window(b, off, tag, enc_bytes(x));
            assert(b[off] == tag[0]);
            crate::wire::lemma_rt_bytes(b, off + 1, x);
        },
        ValueModel::Opaque(x) => {
            crate::wire::lemma_window(b, off, tag, enc_bytes(x));
            assert(b[off] == tag[0]);
            crate::wire::lemma_rt_bytes(b, off + 1, x);
        },
        ValueModel::Array(a) => {
            crate::wire::lemma_window(b, off, tag, arr_dyn_enc(a, off + 1));
            assert(b[off] == tag[0]);
            lemma_rt_arr_dyn(a, b, off + 1);
        },
        ValueModel::List(items) => {
            let wn = enc_u64(items.len() as u64);
            let wi = dyn_enc_items(items, off + 9);
            assert(dyn_enc(v, off) =~= tag + (wn + wi));
            crate::wire::lemma_window(b, off, tag, wn + wi);
            assert(b[off] == tag[0]);
            crate::wire::lemma_window(b, off + 1, wn, wi);
            crate::wire::lemma_rt_usize(b, off + 1, items.len() as int);
            lemma_rt_dyn_items(items, b, off + 9);
        },
        ValueModel::SetOf(items) => {
            let wn = enc_u64(items.len() as u64);
            let wi = dyn_enc_items(items, off + 9);
            assert(dyn_enc(v, off) =~= tag + (wn + wi));
            crate::wire::lemma_window(b, off, tag, wn + wi);
            assert(b[off] == tag[0]);
            crate::wire::lemma_window(b, off + 1, wn, wi);
            crate::wire::lemma_rt_usize(b, off + 1, items.len() as int);
            lemma_rt_dyn_items(items, b, off + 9);
        },
        ValueModel::Tuple(items) => {
            let wn = enc_u64(items.len() as u64);
            let wi = dyn_enc_items(items, off + 9);
            assert(dyn_enc(v, off) =~= tag + (wn + wi));
            crate::wire::lemma_window(b, off, tag, wn + wi);
            assert(b[off] == tag[0]);
            crate::wire::lemma_window(b, off + 1, wn, wi);
            crate::wire::lemma_rt_usize(b, off + 1, items.len() as int);
            lemma_rt_dyn_items(items, b, off + 9);
        },
        ValueModel::Dict(pairs) => {
            let wn = enc_u64(pairs.len() as u64);
            let wi = dyn_enc_pairs(pairs, off + 9);
            assert(dyn_enc(v, off) =~= tag + (wn + wi));
            crate::wire::lemma_window(b, off, tag, wn + wi);
            assert(b[off] == tag[0]);
            crate::wire::lemma_window(b, off + 1, wn, wi);
            crate::wire::lemma_rt_usize(b, off + 1, pairs.len() as int);
            lemma_rt_dyn_pairs(pairs, b, off + 9);
        },
        ValueModel::Record(_) => {},
        ValueModel::Null => {},
    }
}

/// A window holding a run of dynamic encodings reads back as that run.
pub proof fn lemma_rt_dyn_items(items: Seq<ValueModel>, b: Seq<u8>, off: int)
    requires
        dyn_accepts_items(items),
        items.len() <= usize::MAX,
        0 <= off,
        off + dyn_enc_items(items, off).len() <= b.len(),
        b.subrange(off, off + dyn_enc_items(items, off).len()) == dyn_enc_items(items, off),
    ensures
        dyn_dec_items(b, off, items.len() as int) == Ok::<(Seq<ValueModel>, int), DecodeError>((
            items,
            off + dyn_enc_items(items, off).len(),
        )),
    decreases items, 2int, 0int,
{
    if items.len() == 0 {
        assert(dyn_dec_items(b, off, 0) == Ok::<(Seq<ValueModel>, int), DecodeError>((
            Seq::empty(),
            off,
        )));
        assert(Seq::<ValueModel>::empty() =~= items);
    } else {
        let head = dyn_enc(items[0], off);
        let rest = dyn_enc_items(items.drop_first(), off + head.len());
        assert(dyn_enc_items(items, off) == head + rest);
        crate::wire::lemma_window(b, off, head, rest);
        lemma_rt_dyn(items[0], b, off);
        lemma_dyn_enc_pos(items[0], off);
        lemma_rt_dyn_items(items.drop_first(), b, off + head.len());
        assert(seq![items[0]] + items.drop_first() =~= items);
    }
}

/// A window holding a run of dynamic key-value encodings reads back as
/// that run.
pub proof fn lemma_rt_dyn_pairs(pairs: Seq<(ValueModel, ValueModel)>, b: Seq<u8>, off: int)
    requires
        dyn_accepts_pairs(pairs),
        pairs.len() <= usize::MAX,
        0 <= off,
        off + dyn_enc_pairs(pairs, off).len() <= b.len(),
        b.subrange(off, off + dyn_enc_pairs(pairs, off).len()) == dyn_enc_pairs(pairs, off),
    ensures
        dyn_dec_pairs(b, off, pairs.len() as int) == Ok::<
            (Seq<(ValueModel, ValueModel)>, int),
            DecodeError,
        >((pairs, off + dyn_enc_pairs(pairs, off).len())),
    decreases pairs, 2int, 0int,
{
    if pairs.len() == 0 {
        assert(Seq::<(ValueModel, ValueModel)>::empty() =~= pairs);
    } else {
        let kh = dyn_enc(pairs[0].0, off);
        let vh = dyn_enc(pairs[0].1, off + kh.len());
        let rest = dyn_enc_pairs(pairs.drop_first(), off + kh.len() + vh.len());
        assert(dyn_enc_pairs(pairs, off) == kh + vh + rest);
        assert(dyn_enc_pairs(pairs, off) =~= kh + (vh + rest));
        crate::wire::lemma_window(b, off, kh, vh + rest);
        crate::wire::lemma_window(b, off + kh.len(), vh, rest);
        lemma_rt_dyn(pairs[0].0, b, off);
        lemma_dyn_enc_pos(pairs[0].0, off);
        lemma_rt_dyn(pairs[0].1, b, off + kh.len());
        lemma_dyn_enc_pos(pairs[0].1, off + kh.len());
        lemma_rt_dyn_pairs(pairs.drop_first(), b, off + kh.len() + vh.len());
        assert((pairs[0].0, pairs[0].1) == pairs[0]);
        assert(seq![pairs[0]] + pairs.drop_first() =~= pairs);
    }
}

} // verus!

verus! {

/// Round-trip law: a window holding what codec `c` writes for an accepted
/// value `v` at `off` reads back as exactly `v`, ending exactly where the
/// encoding ends.
pub proof fn lemma_round_trip(c: CodecModel, v: ValueModel, b: Seq<u8>, off: int)
    requires
        accepts(c, v),
        0 <= off,
        off + enc(c, v, off).len() <= b.len(),
        b.subrange(off, off + enc(c, v, off).len()) == enc(c, v, off),
    ensures
        dec(c, b, off) == Ok::<(ValueModel, int), DecodeError>((v, off + enc(c, v, off).len())),
    decreases c, 1int, 0int,
{
    vstd::bytes::lemma_auto_spec_u64_to_from_le_bytes();
    match c {
        CodecModel::Bool => {
            let x = v->Bool_0;
            crate::wire::lemma_rt_bool(b, off, x);
        },
        CodecModel::Int => {
            crate::wire::lemma_rt_i64(b, off, v->Int_0);
        },
        CodecModel::Float => {
            crate::wire::lemma_rt_u64(b, off, v->Float_0);
        },
        CodecModel::Complex => {
            let re = v->Complex_0;
            let im = v->Complex_1;
            crate::wire::lemma_window(b, off, enc_u64(re), enc_u64(im));
            crate::wire::lemma_rt_u64(b, off, re);
            crate::wire::lemma_rt_u64(b, off + 8, im);
        },
        CodecModel::Str => {
            crate::wire::lemma_rt_bytes(b, off, v->Str_0);
        },
        CodecModel::Bytes => {
            crate::wire::lemma_rt_bytes(b, off, v->Bytes_0);
        },
        CodecModel::Pickle => {
            crate::wire::lemma_rt_bytes(b, off, v->Opaque_0);
        },
        CodecModel::Dynamic => {
            lemma_rt_dyn(v, b, off);
        },
        CodecModel::List(ci) => {
            let items = v->List_0;
            let wn = enc_u64(items.len() as u64);
            let wi = enc_items(*ci, items, off + 8);
            assert(enc(c, v, off) == wn + wi);
            crate::wire::lemma_window(b, off, wn, wi);
            crate::wire::lemma_rt_usize(b, off, items.len() as int);
            lemma_rt_items(*ci, items, b, off + 8);
        },
        CodecModel::SetOf(ci) => {
            let items = v->SetOf_0;
            let wn = enc_u64(items.len() as u64);
            let wi = enc_items(*ci, items, off + 8);
            assert(enc(c, v, off) == wn + wi);
            crate::wire::lemma_window(b, off, wn, wi);
            crate::wire::lemma_rt_usize(b, off, items.len() as int);
            lemma_rt_items(*ci, items, b, off + 8);
        },
        CodecModel::Tuple(cs) => {
            let items = v->Tuple_0;
            lemma_rt_zip(cs, items, b, off);
        },
        CodecModel::Dict(ck, cv) => {
            let pairs = v->Dict_0;
            let wn = enc_u64(pairs.len() as u64);
            let wi = enc_pairs(c, pairs, off + 8);
            assert(enc(c, v, off) == wn + wi);
            crate::wire::lemma_window(b, off, wn, wi);
            crate::wire::lemma_rt_usize(b, off, pairs.len() as int);
            lemma_rt_pairs(c, pairs, b, off + 8);
        },
        CodecModel::Optional(ci) => {
            if v == ValueModel::Null {
                crate::wire::lemma_rt_bool(b, off, false);
            } else {
                let w2 = enc(*ci, v, off + 1);
                assert(enc(c, v, off) == enc_bool(true) + w2);
                crate::wire::lemma_window(b, off, enc_bool(true), w2);
                crate::wire::lemma_rt_bool(b, off, true);
                lemma_round_trip(*ci, v, b, off + 1);
            }
        },
        CodecModel::Record { strategy, fields } => {
            let vfields = v->Record_0;
            lemma_rt_fields(fields, vfields, b, off);
        },
        CodecModel::TypedDict(fields) => {
            let pairs = v->Dict_0;
            lemma_rt_keyed(fields, pairs, b, off);
        },
        CodecModel::Union(opts) => {
            let idx = first_accepting(opts, v);
            lemma_first_accepting(opts, v);
            let wn = enc_u64(idx as u64);
            let wi = enc_nth(opts, idx, v, off + 8);
            assert(enc(c, v, off) == wn + wi);
            crate::wire::lemma_window(b, off, wn, wi);
            crate::wire::lemma_rt_u64(b, off, idx as u64);
            assert((idx as u64) as int == idx);
            lemma_rt_nth(opts, idx, v, b, off + 8);
        },
        CodecModel::ArrayDyn(k) => {
            let a = v->Array_0;
            lemma_rt_arr_dyn(a, b, off);
        },
        CodecModel::ArrayFixed { kind, shape, .. } => {
            let a = v->Array_0;
            lemma_rt_arr_fixed(a, b, off);
        },
    }
}

/// Round trip for a run of elements under one item codec.
pub proof fn lemma_rt_items(ci: CodecModel, items: Seq<ValueModel>, b: Seq<u8>, off: int)
    requires
        accepts_items(ci, items),
        items.len() <= usize::MAX,
        0 <= off,
        off + enc_items(ci, items, off).len() <= b.len(),
        b.subrange(off, off + enc_items(ci, items, off).len()) == enc_items(ci, items, off),
    ensures
        dec_items(ci, items.len() as int, b, off) == Ok::<(Seq<ValueModel>, int), DecodeError>((
            items,
            off + enc_items(ci, items, off).len(),
        )),
    decreases ci, 2int, items.len(),
{
    if items.len() == 0 {
        assert(Seq::<ValueModel>::empty() =~= items);
    } else {
        let head = enc(ci, items[0], off);
        let rest = enc_items(ci, items.drop_first(), off + head.len());
        assert(enc_items(ci, items, off) == head + rest);
        crate::wire::lemma_window(b, off, head, rest);
        lemma_round_trip(ci, items[0], b, off);
        lemma_rt_items(ci, items.drop_first(), b, off + head.len());
        assert(seq![items[0]] + items.drop_first() =~= items);
    }
}

/// Round trip for a run of elements under per-position codecs.
pub proof fn lemma_rt_zip(cs: Seq<CodecModel>, items: Seq<ValueModel>, b: Seq<u8>, off: int)
    requires
        accepts_zip(cs, items),
        cs.len() == items.len(),
        0 <= off,
        off + enc_zip(cs, items, off).len() <= b.len(),
        b.subrange(off, off + enc_zip(cs, items, off).len()) == enc_zip(cs, items, off),
    ensures
        dec_zip(cs, b, off) == Ok::<(Seq<ValueModel>, int), DecodeError>((
            items,
            off + enc_zip(cs, items, off).len(),
        )),
    decreases cs, 1int, 0int,
{
    if cs.len() == 0 {
        assert(Seq::<ValueModel>::empty() =~= items);
    } else {
        let head = enc(cs[0], items[0], off);
        let rest = enc_zip(cs.drop_first(), items.drop_first(), off + head.len());
        assert(enc_zip(cs, items, off) == head + rest);
        crate::wire::lemma_window(b, off, head, rest);
        lemma_round_trip(cs[0], items[0], b, off);
        lemma_rt_zip(cs.drop_first(), items.drop_first(), b, off + head.len());
        assert(seq![items[0]] + items.drop_first() =~= items);
    }
}

/// Round trip for a run of key-value pairs under the dict codec `c`.
pub proof fn lemma_rt_pairs(
    c: CodecModel,
    pairs: Seq<(ValueModel, ValueModel)>,
    b: Seq<u8>,
    off: int,
)
    requires
        c is Dict,
        accepts_pairs(c, pairs),
        pairs.len() <= usize::MAX,
        0 <= off,
        off + enc_pairs(c, pairs, off).len() <= b.len(),
        b.subrange(off, off + enc_pairs(c, pairs, off).len()) == enc_pairs(c, pairs, off),
    ensures
        dec_pairs(c, pairs.len() as int, b, off) == Ok::<
            (Seq<(ValueModel, ValueModel)>, int),
            DecodeError,
        >((pairs, off + enc_pairs(c, pairs, off).len())),
    decreases c, 0int, pairs.len(),
{
    let ck = c->Dict_0;
    let cv = c->Dict_1;
    if pairs.len() == 0 {
        assert(Seq::<(ValueModel, ValueModel)>::empty() =~= pairs);
    } else {
        let kh = enc(*ck, pairs[0].0, off);
        let vh = enc(*cv, pairs[0].1, off + kh.len());
        let rest = enc_pairs(c, pairs.drop_first(), off + kh.len() + vh.len());
        assert(enc_pairs(c, pairs, off) == kh + vh + rest);
        assert(enc_pairs(c, pairs, off) =~= kh + (vh + rest));
        crate::wire::lemma_window(b, off, kh, vh + rest);
        crate::wire::lemma_window(b, off + kh.len(), vh, rest);
        lemma_round_trip(*ck, pairs[0].0, b, off);
        lemma_round_trip(*cv, pairs[0].1, b, off + kh.len());
        lemma_rt_pairs(c, pairs.drop_first(), b, off + kh.len() + vh.len());
        assert((pairs[0].0, pairs[0].1) == pairs[0]);
        assert(seq![pairs[0]] + pairs.drop_first() =~= pairs);
    }
}

/// Round trip for a record's fields.
pub proof fn lemma_rt_fields(
    fields: Seq<(Seq<u8>, CodecModel)>,
    vfields: Seq<(Seq<u8>, ValueModel)>,
    b: Seq<u8>,
    off: int,
)
    requires
        accepts_fields(fields, vfields),
        fields.len() == vfields.len(),
        0 <= off,
        off + enc_fields(fields, vfields, off).len() <= b.len(),
        b.subrange(off, off + enc_fields(fields, vfields, off).len()) == enc_fields(
            fields,
            vfields,
            off,
        ),
    ensures
        dec_fields(fields, b, off) == Ok::<(Seq<(Seq<u8>, ValueModel)>, int), DecodeError>((
            vfields,
            off + enc_fields(fields, vfields, off).len(),
        )),
    decreases fields, 1int, 0int,
{
    if fields.len() == 0 {
        assert(Seq::<(Seq<u8>, ValueModel)>::empty() =~= vfields);
    } else {
        let head = enc(fields[0].1, vfields[0].1, off);
        let rest = enc_fields(fields.drop_first(), vfields.drop_first(), off + head.len());
        assert(enc_fields(fields, vfields, off) == head + rest);
        crate::wire::lemma_window(b, off, head, rest);
        lemma_round_trip(fields[0].1, vfields[0].1, b, off);
        lemma_rt_fields(fields.drop_first(), vfields.drop_first(), b, off + head.len());
        assert((fields[0].0, vfields[0].1) == vfields[0]);
        assert(seq![vfields[0]] + vfields.drop_first() =~= vfields);
    }
}

/// Round trip for a keyed dict's values.
pub proof fn lemma_rt_keyed(
    fields: Seq<(Seq<u8>, CodecModel)>,
    pairs: Seq<(ValueModel, ValueModel)>,
    b: Seq<u8>,
    off: int,
)
    requires
        accepts_keyed(fields, pairs),
        fields.len() == pairs.len(),
        0 <= off,
        off + enc_keyed(fields, pairs, off).len() <= b.len(),
        b.subrange(off, off + enc_keyed(fields, pairs, off).len()) == enc_keyed(
            fields,
            pairs,
            off,
        ),
    ensures
        dec_keyed(fields, b, off) == Ok::<(Seq<(ValueModel, ValueModel)>, int), DecodeError>((
            pairs,
            off + enc_keyed(fields, pairs, off).len(),
        )),
    decreases fields, 1int, 0int,
{
    if fields.len() == 0 {
        assert(Seq::<(ValueModel, ValueModel)>::empty() =~= pairs);
    } else {
        let head = enc(fields[0].1, pairs[0].1, off);
        let rest = enc_keyed(fields.drop_first(), pairs.drop_first(), off + head.len());
        assert(enc_keyed(fields, pairs, off) == head + rest);
        crate::wire::lemma_window(b, off, head, rest);
        lemma_round_trip(fields[0].1, pairs[0].1, b, off);
        lemma_rt_keyed(fields.drop_first(), pairs.drop_first(), b, off + head.len());
        assert((ValueModel::Str(fields[0].0), pairs[0].1) == pairs[0]);
        assert(seq![pairs[0]] + pairs.drop_first() =~= pairs);
    }
}

/// Round trip for the chosen option of a union.
pub proof fn lemma_rt_nth(opts: Seq<CodecModel>, idx: int, v: ValueModel, b: Seq<u8>, off: int)
    requires
        0 <= idx < opts.len(),
        accepts(opts[idx], v),
        0 <= off,
        off + enc_nth(opts, idx, v, off).len() <= b.len(),
        b.subrange(off, off + enc_nth(opts, idx, v, off).len()) == enc_nth(opts, idx, v, off),
    ensures
        dec_nth(opts, idx, b, off) == Ok::<(ValueModel, int), DecodeError>((
            v,
            off + enc_nth(opts, idx, v, off).len(),
        )),
    decreases opts, 1int, 0int,
{
    if idx == 0 {
        lemma_round_trip(opts[0], v, b, off);
    } else {
        assert(opts.drop_first()[idx - 1] == opts[idx]);
        lemma_rt_nth(opts.drop_first(), idx - 1, v, b, off);
    }
}

} // verus!

verus! {

// ---------------------------------------------------------------------
// Pointwise characterizations of the acceptance helpers.
// ---------------------------------------------------------------------

/// A run is accepted exactly when each element is.
pub proof fn lemma_accepts_items(ci: CodecModel, items: Seq<ValueModel>)
    ensures
        accepts_items(ci, items) == (forall|i: int|
            0 <= i < items.len() ==> accepts(ci, #[trigger] items[i])),
    decreases items.len(),
{
    if items.len() > 0 {
        lemma_accepts_items(ci, items.drop_first());
        assert forall|i: int|
            0 <= i < items.drop_first().len() implies items.drop_first()[i] == items[i + 1] by {}
        if accepts(ci, items[0]) && accepts_items(ci, items.drop_first()) {
            assert forall|i: int| 0 <= i < items.len() implies accepts(ci, #[trigger] items[i]) by {
                if i > 0 {
                    assert(accepts(ci, items.drop_first()[i - 1]));
                }
            }
        }
    }
}

/// A zipped run is accepted exactly when each position is.
pub proof fn lemma_accepts_zip(cs: Seq<CodecModel>, items: Seq<ValueModel>)
    requires
        cs.len() == items.len(),
    ensures
        accepts_zip(cs, items) == (forall|i: int|
            0 <= i < cs.len() ==> accepts(#[trigger] cs[i], items[i])),
    decreases cs.len(),
{
    if cs.len() > 0 {
        lemma_accepts_zip(cs.drop_first(), items.drop_first());
        if accepts(cs[0], items[0]) && accepts_zip(cs.drop_first(), items.drop_first()) {
            assert forall|i: int| 0 <= i < cs.len() implies accepts(
                #[trigger] cs[i],
                items[i],
            ) by {
                if i > 0 {
                    assert(cs.drop_first()[i - 1] == cs[i]);
                    assert(items.drop_first()[i - 1] == items[i]);
                    assert(accepts(cs.drop_first()[i - 1], items.drop_first()[i - 1]));
                }
            }
        } else {
            assert(!accepts_zip(cs, items));
            if !accepts(cs[0], items[0]) {
            } else {
                let k = choose|i: int|
                    0 <= i < cs.drop_first().len() && !accepts(
                        #[trigger] cs.drop_first()[i],
                        items.drop_first()[i],
                    );
                assert(cs.drop_first()[k] == cs[k + 1]);
                assert(items.drop_first()[k] == items[k + 1]);
            }
        }
    }
}

/// A pair run is accepted exactly when each key and value is.
pub proof fn lemma_accepts_pairs(c: CodecModel, pairs: Seq<(ValueModel, ValueModel)>)
    requires
        c is Dict,
    ensures
        accepts_pairs(c, pairs) == (forall|i: int|
            0 <= i < pairs.len() ==> accepts(*c->Dict_0, (#[trigger] pairs[i]).0) && accepts(
                *c->Dict_1,
                pairs[i].1,
            )),
    decreases pairs.len(),
{
    if pairs.len() > 0 {
        lemma_accepts_pairs(c, pairs.drop_first());
        if accepts(*c->Dict_0, pairs[0].0) && accepts(*c->Dict_1, pairs[0].1) && accepts_pairs(
            c,
            pairs.drop_first(),
        ) {
            assert forall|i: int| 0 <= i < pairs.len() implies accepts(
                *c->Dict_0,
                (#[trigger] pairs[i]).0,
            ) && accepts(*c->Dict_1, pairs[i].1) by {
                if i > 0 {
                    assert(pairs.drop_first()[i - 1] == pairs[i]);
                }
            }
        }
    }
}

/// A record's fields are accepted exactly when each name matches and each
/// value is accepted.
pub proof fn lemma_accepts_fields(
    fields: Seq<(Seq<u8>, CodecModel)>,
    vfields: Seq<(Seq<u8>, ValueModel)>,
)
    requires
        fields.len() == vfields.len(),
    ensures
        accepts_fields(fields, vfields) == (forall|i: int|
            0 <= i < fields.len() ==> (#[trigger] fields[i]).0 == vfields[i].0 && accepts(
                fields[i].1,
                vfields[i].1,
            )),
    decreases fields.len(),
{
    if fields.len() > 0 {
        lemma_accepts_fields(fields.drop_first(), vfields.drop_first());
        if fields[0].0 == vfields[0].0 && accepts(fields[0].1, vfields[0].1) && accepts_fields(
            fields.drop_first(),
            vfields.drop_first(),
        ) {
            assert forall|i: int| 0 <= i < fields.len() implies (#[trigger] fields[i]).0
                == vfields[i].0 && accepts(fields[i].1, vfields[i].1) by {
                if i > 0 {
                    assert(fields.drop_first()[i - 1] == fields[i]);
                    assert(vfields.drop_first()[i - 1] == vfields[i]);
                }
            }
        } else {
            assert(!accepts_fields(fields, vfields));
            if fields[0].0 == vfields[0].0 && accepts(fields[0].1, vfields[0].1) {
                let k = choose|i: int|
                    0 <= i < fields.drop_first().len() && !((#[trigger] fields.drop_first()[i]).0
                        == vfields.drop_first()[i].0 && accepts(
                        fields.drop_first()[i].1,
                        vfields.drop_first()[i].1,
                    ));
                assert(fields.drop_first()[k] == fields[k + 1]);
                assert(vfields.drop_first()[k] == vfields[k + 1]);
            }
        }
    }
}

/// A keyed dict's entries are accepted exactly when each key is the
/// declared name and each value is accepted.
pub proof fn lemma_accepts_keyed(
    fields: Seq<(Seq<u8>, CodecModel)>,
    pairs: Seq<(ValueModel, ValueModel)>,
)
    requires
        fields.len() == pairs.len(),
    ensures
        accepts_keyed(fields, pairs) == (forall|i: int|
            0 <= i < fields.len() ==> (#[trigger] pairs[i]).0 == ValueModel::Str(fields[i].0)
                && is_utf8(fields[i].0) && fields[i].0.len() <= usize::MAX && accepts(
                fields[i].1,
                pairs[i].1,
            )),
    decreases fields.len(),
{
    if fields.len() > 0 {
        lemma_accepts_keyed(fields.drop_first(), pairs.drop_first());
        if pairs[0].0 == ValueModel::Str(fields[0].0) && is_utf8(fields[0].0) && fields[0].0.len()
            <= usize::MAX && accepts(fields[0].1, pairs[0].1) && accepts_keyed(
            fields.drop_first(),
            pairs.drop_first(),
        ) {
            assert forall|i: int| 0 <= i < fields.len() implies (#[trigger] pairs[i]).0
                == ValueModel::Str(fields[i].0) && is_utf8(fields[i].0) && fields[i].0.len()
                <= usize::MAX && accepts(fields[i].1, pairs[i].1) by {
                if i > 0 {
                    assert(fields.drop_first()[i - 1] == fields[i]);
                    assert(pairs.drop_first()[i - 1] == pairs[i]);
                }
            }
        } else {
            assert(!accepts_keyed(fields, pairs));
            if pairs[0].0 == ValueModel::Str(fields[0].0) && is_utf8(fields[0].0)
                && fields[0].0.len() <= usize::MAX && accepts(fields[0].1, pairs[0].1) {
                let k = choose|i: int|
                    0 <= i < fields.drop_first().len() && !((#[trigger] pairs.drop_first()[i]).0
                        == ValueModel::Str(fields.drop_first()[i].0) && is_utf8(
                        fields.drop_first()[i].0,
                    ) && fields.drop_first()[i].0.len() <= usize::MAX && accepts(
                        fields.drop_first()[i].1,
                        pairs.drop_first()[i].1,
                    ));
                assert(fields.drop_first()[k] == fields[k + 1]);
                assert(pairs.drop_first()[k] == pairs[k + 1]);
            }
        }
    }
}

/// A union accepts exactly when some option accepts.
pub proof fn lemma_accepts_any(opts: Seq<CodecModel>, v: ValueModel)
    ensures
        accepts_any(opts, v) == (exists|i: int| 0 <= i < opts.len() && accepts(#[trigger] opts[i], v)),
    decreases opts.len(),
{
    if opts.len() > 0 {
        lemma_accepts_any(opts.drop_first(), v);
        if accepts(opts[0], v) {
        } else if accepts_any(opts.drop_first(), v) {
            let k = choose|i: int|
                0 <= i < opts.drop_first().len() && accepts(#[trigger] opts.drop_first()[i], v);
            assert(opts.drop_first()[k] == opts[k + 1]);
        } else {
            assert forall|i: int| 0 <= i < opts.len() implies !accepts(#[trigger] opts[i], v) by {
                if i > 0 {
                    assert(opts.drop_first()[i - 1] == opts[i]);
                    assert(!accepts(opts.drop_first()[i - 1], v));
                }
            }
        }
    }
}

/// A run is dynamically accepted exactly when each element is.
pub proof fn lemma_dyn_accepts_items(items: Seq<ValueModel>)
    ensures
        dyn_accepts_items(items) == (forall|i: int|
            0 <= i < items.len() ==> dyn_accepts(#[trigger] items[i])),
    decreases items.len(),
{
    if items.len() > 0 {
        lemma_dyn_accepts_items(items.drop_first());
        if dyn_accepts(items[0]) && dyn_accepts_items(items.drop_first()) {
            assert forall|i: int| 0 <= i < items.len() implies dyn_accepts(
                #[trigger] items[i],
            ) by {
                if i > 0 {
                    assert(dyn_accepts(items.drop_first()[i - 1]));
                }
            }
        }
    }
}

/// A pair run is dynamically accepted exactly when each key and value is.
pub proof fn lemma_dyn_accepts_pairs(pairs: Seq<(ValueModel, ValueModel)>)
    ensures
        dyn_accepts_pairs(pairs) == (forall|i: int|
            0 <= i < pairs.len() ==> dyn_accepts((#[trigger] pairs[i]).0) && dyn_accepts(
                pairs[i].1,
            )),
    decreases pairs.len(),
{
    if pairs.len() > 0 {
        lemma_dyn_accepts_pairs(pairs.drop_first());
        if dyn_accepts(pairs[0].0) && dyn_accepts(pairs[0].1) && dyn_accepts_pairs(
            pairs.drop_first(),
        ) {
            assert forall|i: int| 0 <= i < pairs.len() implies dyn_accepts(
                (#[trigger] pairs[i]).0,
            ) && dyn_accepts(pairs[i].1) by {
                if i > 0 {
                    assert(pairs.drop_first()[i - 1] == pairs[i]);
                }
            }
        }
    }
}

} // verus!

verus! {

// ---------------------------------------------------------------------
// Deciding whether a value matches a codec's shape.
// ---------------------------------------------------------------------

/// Whether the dynamic codec accepts the value.
pub fn dyn_value_matches(v: &Value) -> (r: bool)
    ensures
        r == dyn_accepts(v@),
    decreases v, 1int, 0int,
{
    match v {
        Value::Bool(_) => true,
        Value::Int(_) => true,
        Value::Float(_) => true,
        Value::Complex(_, _) => true,
        Value::Str(s) => {
            let n = s.len();
            assert(s@.len() <= usize::MAX);
            validate_utf8(s.as_slice())
        },
        Value::Bytes(b) => {
            let n = b.len();
            assert(b@.len() <= usize::MAX);
            true
        },
        Value::Array(a) => {
            let sl = a.shape.len();
            let dl = a.data.len();
            assert(a.shape@.len() <= usize::MAX && a.data@.len() <= usize::MAX);
            match crate::value::array_byte_len(a.kind, &a.shape) {
                Some(n) => a.data.len() == n,
                None => {
                    let n = a.data.len();
                    assert(a.data@.len() <= usize::MAX);
                    false
                },
            }
        },
        Value::List(items) => {
            proof {
                crate::value::lemma_views_of(items@);
            }
            dyn_items_match(items)
        },
        Value::SetOf(items) => {
            proof {
                crate::value::lemma_views_of(items@);
            }
            dyn_items_match(items)
        },
        Value::Tuple(items) => {
            proof {
                crate::value::lemma_views_of(items@);
            }
            dyn_items_match(items)
        },
        Value::Dict(pairs) => {
            proof {
                crate::value::lemma_pair_views_of(pairs@);
            }
            dyn_pairs_match(pairs)
        },
        Value::Record(_) => false,
        Value::Null => false,
        Value::Opaque(b) => {
            let n = b.len();
            assert(b@.len() <= usize::MAX);
            true
        },
    }
}

/// Whether the dynamic codec accepts every element of a run.
fn dyn_items_match(items: &Vec<Value>) -> (r: bool)
    ensures
        r == (items@.len() <= usize::MAX && dyn_accepts_items(views_of(items@))),
    decreases items, 0int, 0int,
{
    proof {
        crate::value::lemma_views_of(items@);
        lemma_dyn_accepts_items(views_of(items@));
    }
    let n = items.len();
    let mut i: usize = 0;
    while i < n
        invariant
            0 <= i <= n,
            n == items@.len(),
            views_of(items@).len() == n,
            forall|j: int| 0 <= j < n ==> views_of(items@)[j] == items@[j]@,
            dyn_accepts_items(views_of(items@)) == (forall|j: int|
                0 <= j < n ==> dyn_accepts(#[trigger] views_of(items@)[j])),
            forall|j: int| 0 <= j < i ==> dyn_accepts(#[trigger] views_of(items@)[j]),
        decreases n - i,
    {
        if !dyn_value_matches(&items[i]) {
            assert(!dyn_accepts(views_of(items@)[i as int]));
            return false;
        }
        i = i + 1;
    }
    true
}

/// Whether the dynamic codec accepts every key and value of a run.
fn dyn_pairs_match(pairs: &Vec<(Value, Value)>) -> (r: bool)
    ensures
        r == (pairs@.len() <= usize::MAX && dyn_accepts_pairs(pair_views_of(pairs@))),
    decreases pairs, 0int, 0int,
{
    proof {
        crate::value::lemma_pair_views_of(pairs@);
        lemma_dyn_accepts_pairs(pair_views_of(pairs@));
    }
    let n = pairs.len();
    let mut i: usize = 0;
    while i < n
        invariant
            0 <= i <= n,
            n == pairs@.len(),
            pair_views_of(pairs@).len() == n,
            forall|j: int| 0 <= j < n ==> pair_views_of(pairs@)[j] == (
                pairs@[j].0@,
                pairs@[j].1@,
            ),
            dyn_accepts_pairs(pair_views_of(pairs@)) == (forall|j: int|
                0 <= j < n ==> dyn_accepts((#[trigger] pair_views_of(pairs@)[j]).0)
                    && dyn_accepts(pair_views_of(pairs@)[j].1)),
            forall|j: int|
                0 <= j < i ==> dyn_accepts((#[trigger] pair_views_of(pairs@)[j]).0)
                    && dyn_accepts(pair_views_of(pairs@)[j].1),
        decreases n - i,
    {
        let ok = dyn_value_matches(&pairs[i].0) && dyn_value_matches(&pairs[i].1);
        if !ok {
            assert(!(dyn_accepts((pair_views_of(pairs@)[i as int]).0) && dyn_accepts(
                pair_views_of(pairs@)[i as int].1,
            )));
            return false;
        }
        i = i + 1;
    }
    true
}

/// Whether one item codec accepts every element of a run.
fn items_match(ci: &Codec, items: &Vec<Value>) -> (r: bool)
    ensures
        r == accepts_items(ci@, views_of(items@)),
    decreases ci, 2int, 0int,
{
    proof {
        crate::value::lemma_views_of(items@);
        lemma_accepts_items(ci@, views_of(items@));
    }
    let n = items.len();
    let mut i: usize = 0;
    while i < n
        invariant
            0 <= i <= n,
            n == items@.len(),
            views_of(items@).len() == n,
            forall|j: int| 0 <= j < n ==> views_of(items@)[j] == items@[j]@,
            accepts_items(ci@, views_of(items@)) == (forall|j: int|
                0 <= j < n ==> accepts(ci@, #[trigger] views_of(items@)[j])),
            forall|j: int| 0 <= j < i ==> accepts(ci@, #[trigger] views_of(items@)[j]),
        decreases n - i,
    {
        if !ci.value_matches(&items[i]) {
            assert(!accepts(ci@, views_of(items@)[i as int]));
            return false;
        }
        i = i + 1;
    }
    true
}

/// Whether per-position codecs accept a run of the same arity.
fn zip_match(cs: &Vec<Codec>, items: &Vec<Value>) -> (r: bool)
    requires
        cs@.len() == items@.len(),
    ensures
        r == accepts_zip(codec_views_of(cs@), views_of(items@)),
    decreases cs, 1int, 0int,
{
    proof {
        crate::value::lemma_views_of(items@);
        lemma_codec_views_of(cs@);
        lemma_accepts_zip(codec_views_of(cs@), views_of(items@));
    }
    let n = cs.len();
    let mut i: usize = 0;
    while i < n
        invariant
            0 <= i <= n,
            n == cs@.len() == items@.len(),
            views_of(items@).len() == n,
            codec_views_of(cs@).len() == n,
            forall|j: int| 0 <= j < n ==> views_of(items@)[j] == items@[j]@,
            forall|j: int| 0 <= j < n ==> codec_views_of(cs@)[j] == cs@[j]@,
            accepts_zip(codec_views_of(cs@), views_of(items@)) == (forall|j: int|
                0 <= j < n ==> accepts(#[trigger] codec_views_of(cs@)[j], views_of(items@)[j])),
            forall|j: int|
                0 <= j < i ==> accepts(#[trigger] codec_views_of(cs@)[j], views_of(items@)[j]),
        decreases n - i,
    {
        if !cs[i].value_matches(&items[i]) {
            assert(!accepts(codec_views_of(cs@)[i as int], views_of(items@)[i as int]));
            return false;
        }
        i = i + 1;
    }
    true
}

/// Whether named field codecs accept a record's fields.
fn fields_match(fields: &Vec<(Vec<u8>, Codec)>, vfields: &Vec<(Vec<u8>, Value)>) -> (r: bool)
    requires
        fields@.len() == vfields@.len(),
    ensures
        r == accepts_fields(codec_field_views_of(fields@), field_views_of(vfields@)),
    decreases fields, 1int, 0int,
{
    proof {
        crate::value::lemma_field_views_of(vfields@);
        lemma_codec_field_views_of(fields@);
        lemma_accepts_fields(codec_field_views_of(fields@), field_views_of(vfields@));
    }
    let n = fields.len();
    let mut i: usize = 0;
    while i < n
        invariant
            0 <= i <= n,
            n == fields@.len() == vfields@.len(),
            field_views_of(vfields@).len() == n,
            codec_field_views_of(fields@).len() == n,
            forall|j: int| 0 <= j < n ==> field_views_of(vfields@)[j] == (
                vfields@[j].0@,
                vfields@[j].1@,
            ),
            forall|j: int| 0 <= j < n ==> codec_field_views_of(fields@)[j] == (
                fields@[j].0@,
                fields@[j].1@,
            ),
            accepts_fields(codec_field_views_of(fields@), field_views_of(vfields@)) == (
            forall|j: int|
                0 <= j < n ==> (#[trigger] codec_field_views_of(fields@)[j]).0
                    == field_views_of(vfields@)[j].0 && accepts(
                    codec_field_views_of(fields@)[j].1,
                    field_views_of(vfields@)[j].1,
                )),
            forall|j: int|
                0 <= j < i ==> (#[trigger] codec_field_views_of(fields@)[j]).0 == field_views_of(
                    vfields@,
                )[j].0 && accepts(
                    codec_field_views_of(fields@)[j].1,
                    field_views_of(vfields@)[j].1,
                ),
        decreases n - i,
    {
        let names_ok = crate::init::bytes_eq(&fields[i].0, &vfields[i].0);
        if !names_ok {
            assert(codec_field_views_of(fields@)[i as int].0 != field_views_of(
                vfields@,
            )[i as int].0);
            return false;
        }
        if !fields[i].1.value_matches(&vfields[i].1) {
            assert(!accepts(
                codec_field_views_of(fields@)[i as int].1,
                field_views_of(vfields@)[i as int].1,
            ));
            return false;
        }
        i = i + 1;
    }
    true
}

/// Whether named field codecs accept a dict's entries, keys included.
fn keyed_match(fields: &Vec<(Vec<u8>, Codec)>, pairs: &Vec<(Value, Value)>) -> (r: bool)
    requires
        fields@.len() == pairs@.len(),
    ensures
        r == accepts_keyed(codec_field_views_of(fields@), pair_views_of(pairs@)),
    decreases fields, 1int, 0int,
{
    proof {
        crate::value::lemma_pair_views_of(pairs@);
        lemma_codec_field_views_of(fields@);
        lemma_accepts_keyed(codec_field_views_of(fields@), pair_views_of(pairs@));
    }
    let n = fields.len();
    let mut i: usize = 0;
    while i < n
        invariant
            0 <= i <= n,
            n == fields@.len() == pairs@.len(),
            pair_views_of(pairs@).len() == n,
            codec_field_views_of(fields@).len() == n,
            forall|j: int| 0 <= j < n ==> pair_views_of(pairs@)[j] == (
                pairs@[j].0@,
                pairs@[j].1@,
            ),
            forall|j: int| 0 <= j < n ==> codec_field_views_of(fields@)[j] == (
                fields@[j].0@,
                fields@[j].1@,
            ),
            accepts_keyed(codec_field_views_of(fields@), pair_views_of(pairs@)) == (forall|j: int|
                0 <= j < n ==> (#[trigger] pair_views_of(pairs@)[j]).0 == ValueModel::Str(
                    codec_field_views_of(fields@)[j].0,
                ) && is_utf8(codec_field_views_of(fields@)[j].0) && codec_field_views_of(
                    fields@,
                )[j].0.len() <= usize::MAX && accepts(
                    codec_field_views_of(fields@)[j].1,
                    pair_views_of(pairs@)[j].1,
                )),
            forall|j: int|
                0 <= j < i ==> (#[trigger] pair_views_of(pairs@)[j]).0 == ValueModel::Str(
                    codec_field_views_of(fields@)[j].0,
                ) && is_utf8(codec_field_views_of(fields@)[j].0) && codec_field_views_of(
                    fields@,
                )[j].0.len() <= usize::MAX && accepts(
                    codec_field_views_of(fields@)[j].1,
                    pair_views_of(pairs@)[j].1,
                ),
        decreases n - i,
    {
        let key_ok: bool = match &pairs[i].0 {
            Value::Str(s) => crate::init::bytes_eq(s, &fields[i].0),
            _ => false,
        };
        if !key_ok {
            assert(pair_views_of(pairs@)[i as int].0 != ValueModel::Str(codec_field_views_of(
                fields@,
            )[i as int].0));
            return false;
        }
        if !validate_utf8(fields[i].0.as_slice()) {
            assert(!is_utf8(codec_field_views_of(fields@)[i as int].0));
            return false;
        }
        let name_len = fields[i].0.len();
        assert(fields@[i as int].0@.len() <= usize::MAX);
        if !fields[i].1.value_matches(&pairs[i].1) {
            assert(!accepts(
                codec_field_views_of(fields@)[i as int].1,
                pair_views_of(pairs@)[i as int].1,
            ));
            return false;
        }
        i = i + 1;
    }
    true
}

/// Finds the first option that accepts the value, if any.
pub fn find_option(opts: &Vec<Codec>, v: &Value) -> (r: Option<usize>)
    ensures
        match r {
            Some(i) => accepts_any(codec_views_of(opts@), v@) && i as int == first_accepting(
                codec_views_of(opts@),
                v@,
            ),
            None => !accepts_any(codec_views_of(opts@), v@),
        },
    decreases opts, 1int, 0int,
{
    proof {
        lemma_codec_views_of(opts@);
        lemma_accepts_any(codec_views_of(opts@), v@);
    }
    let ghost om = codec_views_of(opts@);
    let n = opts.len();
    let mut i: usize = 0;
    while i < n
        invariant
            0 <= i <= n,
            n == opts@.len(),
            om == codec_views_of(opts@),
            om.len() == n,
            forall|j: int| 0 <= j < n ==> om[j] == opts@[j]@,
            accepts_any(om, v@) == (exists|j: int| 0 <= j < n && accepts(#[trigger] om[j], v@)),
            forall|j: int| 0 <= j < i ==> !accepts(#[trigger] om[j], v@),
        decreases n - i,
    {
        if opts[i].value_matches(v) {
            proof {
                assert(accepts(om[i as int], v@));
                assert(accepts_any(om, v@));
                lemma_first_accepting(om, v@);
                let fa = first_accepting(om, v@);
                if fa < i as int {
                    assert(!accepts(om[fa], v@));
                }
                if fa > i as int {
                    assert(!accepts(om[i as int], v@));
                }
            }
            return Some(i);
        }
        i = i + 1;
    }
    proof {
        if accepts_any(om, v@) {
            let k = choose|j: int| 0 <= j < n && accepts(#[trigger] om[j], v@);
            assert(!accepts(om[k], v@));
        }
    }
    None
}

impl Codec {
    /// Whether this codec accepts the value, exactly as `accepts` says.
    pub fn value_matches(&self, v: &Value) -> (r: bool)
        ensures
            r == accepts(self@, v@),
        decreases self, 1int, 0int,
    {
        match self {
            Codec::Bool => matches!(v, Value::Bool(_)),
            Codec::Int => matches!(v, Value::Int(_)),
            Codec::Float => matches!(v, Value::Float(_)),
            Codec::Complex => matches!(v, Value::Complex(_, _)),
            Codec::Str => match v {
                Value::Str(s) => {
                    let n = s.len();
                    assert(s@.len() <= usize::MAX);
                    validate_utf8(s.as_slice())
                },
                _ => false,
            },
            Codec::Bytes => match v {
                Value::Bytes(b) => {
                    let n = b.len();
                    assert(b@.len() <= usize::MAX);
                    true
                },
                _ => false,
            },
            Codec::Pickle => match v {
                Value::Opaque(b) => {
                    let n = b.len();
                    assert(b@.len() <= usize::MAX);
                    true
                },
                _ => false,
            },
            Codec::Dynamic => dyn_value_matches(v),
            Codec::List(ci) => match v {
                Value::List(items) => {
                    let n = items.len();
                    proof {
                        crate::value::lemma_views_of(items@);
                    }
                    assert(views_of(items@).len() <= usize::MAX);
                    items_match(ci, items)
                },
                _ => false,
            },
            Codec::SetOf(ci) => match v {
                Value::SetOf(items) => {
                    let n = items.len();
                    proof {
                        crate::value::lemma_views_of(items@);
                    }
                    assert(views_of(items@).len() <= usize::MAX);
                    items_match(ci, items)
                },
                _ => false,
            },
            Codec::Tuple(cs) => match v {
                Value::Tuple(items) => {
                    proof {
                        lemma_codec_views_of(cs@);
                        crate::value::lemma_views_of(items@);
                    }
                    if items.len() != cs.len() {
                        false
                    } else {
                        let n = cs.len();
                        assert(cs@.len() <= usize::MAX);
                        zip_match(cs, items)
                    }
                },
                _ => false,
            },
            Codec::Dict(ck, cv) => match v {
                Value::Dict(pairs) => {
                    let n = pairs.len();
                    proof {
                        crate::value::lemma_pair_views_of(pairs@);
                    }
                    assert(pair_views_of(pairs@).len() <= usize::MAX);
                    self.dict_pairs_match(pairs)
                },
                _ => false,
            },
            Codec::Optional(ci) => match v {
                Value::Null => true,
                _ => {
                    assert(!(v@ is Null));
                    ci.value_matches(v)
                },
            },
            Codec::Record { strategy, fields } => match v {
                Value::Record(vfields) => {
                    proof {
                        lemma_codec_field_views_of(fields@);
                        crate::value::lemma_field_views_of(vfields@);
                    }
                    if vfields.len() != fields.len() {
                        false
                    } else {
                        let n = fields.len();
                        assert(fields@.len() <= usize::MAX);
                        fields_match(fields, vfields)
                    }
                },
                _ => false,
            },
            Codec::TypedDict(fields) => match v {
                Value::Dict(pairs) => {
                    proof {
                        lemma_codec_field_views_of(fields@);
                        crate::value::lemma_pair_views_of(pairs@);
                    }
                    if pairs.len() != fields.len() {
                        false
                    } else {
                        let n = fields.len();
                        assert(fields@.len() <= usize::MAX);
                        keyed_match(fields, pairs)
                    }
                },
                _ => false,
            },
            Codec::Union(opts) => {
                proof {
                    lemma_codec_views_of(opts@);
                }
                let n = opts.len();
                assert(opts@.len() <= usize::MAX);
                match find_option(opts, v) {
                    Some(_) => true,
                    None => false,
                }
            },
            Codec::ArrayDyn(k) => match v {
                Value::Array(a) => {
                    let sl = a.shape.len();
                    let dl = a.data.len();
                    assert(a.shape@.len() <= usize::MAX && a.data@.len() <= usize::MAX);
                    if !a.kind.eq_kind(*k) {
                        false
                    } else {
                        match crate::value::array_byte_len(a.kind, &a.shape) {
                            Some(n) => a.data.len() == n,
                            None => {
                                let n = a.data.len();
                                assert(a.data@.len() <= usize::MAX);
                                false
                            },
                        }
                    }
                },
                _ => false,
            },
            Codec::ArrayFixed { kind, shape, pool } => match v {
                Value::Array(a) => {
                    let sl = a.shape.len();
                    let dl = a.data.len();
                    assert(a.shape@.len() <= usize::MAX && a.data@.len() <= usize::MAX);
                    if !a.kind.eq_kind(*kind) {
                        false
                    } else if !crate::value::shapes_eq(&a.shape, shape) {
                        false
                    } else {
                        match crate::value::array_byte_len(a.kind, &a.shape) {
                            Some(n) => a.data.len() == n,
                            None => {
                                let n = a.data.len();
                                assert(a.data@.len() <= usize::MAX);
                                false
                            },
                        }
                    }
                },
                _ => false,
            },
        }
    }

    /// Whether this dict codec accepts every key and value of a run.
    fn dict_pairs_match(&self, pairs: &Vec<(Value, Value)>) -> (r: bool)
        requires
            self is Dict,
        ensures
            r == accepts_pairs(self@, pair_views_of(pairs@)),
        decreases self, 0int, 0int,
    {
        let (ck, cv) = match self {
            Codec::Dict(ck, cv) => (ck, cv),
            _ => { unreached() },
        };
        proof {
            crate::value::lemma_pair_views_of(pairs@);
            lemma_accepts_pairs(self@, pair_views_of(pairs@));
        }
        let n = pairs.len();
        let mut i: usize = 0;
        while i < n
            invariant
                0 <= i <= n,
                n == pairs@.len(),
                *self == Codec::Dict(*ck, *cv),
                self@ is Dict,
                self@->Dict_0 == Box::new(ck@),
                self@->Dict_1 == Box::new(cv@),
                pair_views_of(pairs@).len() == n,
                forall|j: int| 0 <= j < n ==> pair_views_of(pairs@)[j] == (
                    pairs@[j].0@,
                    pairs@[j].1@,
                ),
                accepts_pairs(self@, pair_views_of(pairs@)) == (forall|j: int|
                    0 <= j < n ==> accepts(ck@, (#[trigger] pair_views_of(pairs@)[j]).0)
                        && accepts(cv@, pair_views_of(pairs@)[j].1)),
                forall|j: int|
                    0 <= j < i ==> accepts(ck@, (#[trigger] pair_views_of(pairs@)[j]).0)
                        && accepts(cv@, pair_views_of(pairs@)[j].1),
            decreases n - i,
        {
            let ok = ck.value_matches(&pairs[i].0) && cv.value_matches(&pairs[i].1);
            if !ok {
                assert(!(accepts(ck@, (pair_views_of(pairs@)[i as int]).0) && accepts(
                    cv@,
                    pair_views_of(pairs@)[i as int].1,
                )));
                return false;
            }
            i = i + 1;
        }
        true
    }
}

impl ElementKind {
    /// Compares two element kinds.
    pub fn eq_kind(&self, other: ElementKind) -> (r: bool)
        ensures
            r == (*self == other),
    {
        match (self, other) {
            (ElementKind::Int8, ElementKind::Int8) => true,
            (ElementKind::Int16, ElementKind::Int16) => true,
            (ElementKind::Int32, ElementKind::Int32) => true,
            (ElementKind::Int64, ElementKind::Int64) => true,
            (ElementKind::Uint8, ElementKind::Uint8) => true,
            (ElementKind::Uint16, ElementKind::Uint16) => true,
            (ElementKind::Uint32, ElementKind::Uint32) => true,
            (ElementKind::Uint64, ElementKind::Uint64) => true,
            (ElementKind::Float32, ElementKind::Float32) => true,
            (ElementKind::Float64, ElementKind::Float64) => true,
            _ => false,
        }
    }
}

} // verus!

verus! {

/// The nth-option encoding is the chosen option's encoding.
pub proof fn lemma_enc_nth(opts: Seq<CodecModel>, idx: int, v: ValueModel, off: int)
    requires
        0 <= idx < opts.len(),
    ensures
        enc_nth(opts, idx, v, off) == enc(opts[idx], v, off),
    decreases opts,
{
    if idx > 0 {
        lemma_enc_nth(opts.drop_first(), idx - 1, v, off);
        assert(opts.drop_first()[idx - 1] == opts[idx]);
    }
}

/// The nth-option decoding is the chosen option's decoding.
pub proof fn lemma_dec_nth(opts: Seq<CodecModel>, idx: int, b: Seq<u8>, off: int)
    requires
        0 <= idx < opts.len(),
    ensures
        dec_nth(opts, idx, b, off) == dec(opts[idx], b, off),
    decreases opts,
{
    if idx > 0 {
        lemma_dec_nth(opts.drop_first(), idx - 1, b, off);
        assert(opts.drop_first()[idx - 1] == opts[idx]);
    }
}

// ---------------------------------------------------------------------
// Appending: writing a value into a pre-sized buffer.
// ---------------------------------------------------------------------

/// Writes `n` zero-valued padding bytes at `offset`.
fn write_zeros(buf: &mut Vec<u8>, offset: usize, n: usize) -> (end: usize)
    requires
        offset + n <= old(buf)@.len(),
    ensures
        end == offset + n,
        final(buf)@ == crate::wire::splice(old(buf)@, offset as int, zeros(n as int)),
{
    let total = buf.len();
    let mut i: usize = 0;
    while i < n
        invariant
            0 <= i <= n,
            offset + n <= total,
            total == buf@.len(),
            buf@.len() == old(buf)@.len(),
            forall|j: int| 0 <= j < i ==> #[trigger] buf@[offset + j] == 0u8,
            forall|j: int| 0 <= j < offset ==> buf@[j] == old(buf)@[j],
            forall|j: int| offset + i <= j < buf@.len() ==> buf@[j] == old(buf)@[j],
        decreases n - i,
    {
        buf[offset + i] = 0u8;
        i = i + 1;
    }
    proof {
        let w = zeros(n as int);
        crate::wire::lemma_splice_len(old(buf)@, offset as int, w);
        assert forall|k: int| 0 <= k < buf@.len() implies buf@[k] == crate::wire::splice(
            old(buf)@,
            offset as int,
            w,
        )[k] by {
            if offset <= k < offset + n {
                assert(buf@[offset + (k - offset)] == 0u8);
                assert(crate::wire::splice(old(buf)@, offset as int, w).subrange(
                    offset as int,
                    offset + n,
                )[k - offset] == w[k - offset]);
            }
        }
        assert(buf@ =~= crate::wire::splice(old(buf)@, offset as int, w));
    }
    offset + n
}

/// Writes each dimension of a shape, from `idx` on.
fn append_shape(shape: &Vec<usize>, idx: usize, buf: &mut Vec<u8>, cur: usize) -> (end: usize)
    requires
        idx <= shape@.len(),
        cur + enc_shape(shape@.skip(idx as int)).len() <= old(buf)@.len(),
    ensures
        end as int == cur + enc_shape(shape@.skip(idx as int)).len(),
        final(buf)@ == crate::wire::splice(
            old(buf)@,
            cur as int,
            enc_shape(shape@.skip(idx as int)),
        ),
    decreases shape@.len() - idx,
{
    proof {
        vstd::bytes::lemma_auto_spec_u64_to_from_le_bytes();
    }
    if idx == shape.len() {
        assert(shape@.skip(idx as int) =~= Seq::<usize>::empty());
        assert(buf@ =~= crate::wire::splice(
            buf@,
            cur as int,
            enc_shape(shape@.skip(idx as int)),
        ));
        return cur;
    }
    let ghost sk = shape@.skip(idx as int);
    proof {
        assert(sk[0] == shape@[idx as int]);
        assert(sk.drop_first() =~= shape@.skip(idx as int + 1));
        assert(enc_shape(sk) == enc_u64(sk[0] as u64) + enc_shape(sk.drop_first()));
    }
    let e1 = crate::wire::append_u64(buf, cur, shape[idx] as u64);
    let end = append_shape(shape, idx + 1, buf, e1);
    proof {
        crate::wire::lemma_splice_splice(
            old(buf)@,
            cur as int,
            enc_u64(shape@[idx as int] as u64),
            enc_shape(shape@.skip(idx as int + 1)),
        );
    }
    end
}

impl Codec {
    /// Writes an accepted value's encoding at `offset`.  The buffer must
    /// already be large enough; its length never changes.
    fn append_raw(&self, buf: &mut Vec<u8>, offset: usize, v: &Value) -> (end: usize)
        requires
            accepts(self@, v@),
            offset + enc(self@, v@, offset as int).len() <= old(buf)@.len(),
        ensures
            end as int == offset + enc(self@, v@, offset as int).len(),
            final(buf)@ == crate::wire::splice(
                old(buf)@,
                offset as int,
                enc(self@, v@, offset as int),
            ),
        decreases self, 1int, 0int,
    {
        proof {
            vstd::bytes::lemma_auto_spec_u64_to_from_le_bytes();
        }
        let ghost w = enc(self@, v@, offset as int);
        match self {
            Codec::Bool => {
                let x = match v {
                    Value::Bool(x) => *x,
                    _ => { unreached() },
                };
                crate::wire::append_bool(buf, offset, x)
            },
            Codec::Int => {
                let x = match v {
                    Value::Int(x) => *x,
                    _ => { unreached() },
                };
                crate::wire::append_i64(buf, offset, x)
            },
            Codec::Float => {
                let x = match v {
                    Value::Float(x) => *x,
                    _ => { unreached() },
                };
                crate::wire::append_u64(buf, offset, x)
            },
            Codec::Complex => {
                let (re, im) = match v {
                    Value::Complex(re, im) => (*re, *im),
                    _ => { unreached() },
                };
                let e1 = crate::wire::append_u64(buf, offset, re);
                let end = crate::wire::append_u64(buf, e1, im);
                proof {
                    crate::wire::lemma_splice_splice(
                        old(buf)@,
                        offset as int,
                        enc_u64(re),
                        enc_u64(im),
                    );
                }
                end
            },
            Codec::Str => {
                let s = match v {
                    Value::Str(s) => s,
                    _ => { unreached() },
                };
                crate::wire::append_bytes(buf, offset, s.as_slice())
            },
            Codec::Bytes => {
                let s = match v {
                    Value::Bytes(s) => s,
                    _ => { unreached() },
                };
                crate::wire::append_bytes(buf, offset, s.as_slice())
            },
            Codec::Pickle => {
                let s = match v {
                    Value::Opaque(s) => s,
                    _ => { unreached() },
                };
                crate::wire::append_bytes(buf, offset, s.as_slice())
            },
            Codec::Dynamic => append_dyn(buf, offset, v),
            Codec::List(ci) => {
                let items = match v {
                    Value::List(items) => items,
                    _ => { unreached() },
                };
                proof {
                    crate::value::lemma_views_of(items@);
                }
                let e1 = crate::wire::append_u64(buf, offset, items.len() as u64);
                assert(views_of(items@).skip(0) =~= views_of(items@));
                let end = append_items(ci, items, 0, buf, e1);
                proof {
                    crate::wire::lemma_splice_splice(
                        old(buf)@,
                        offset as int,
                        enc_u64(items@.len() as u64),
                        enc_items((**ci)@, views_of(items@), offset + 8),
                    );
                }
                end
            },
            Codec::SetOf(ci) => {
                let items = match v {
                    Value::SetOf(items) => items,
                    _ => { unreached() },
                };
                proof {
                    crate::value::lemma_views_of(items@);
                }
                let e1 = crate::wire::append_u64(buf, offset, items.len() as u64);
                assert(views_of(items@).skip(0) =~= views_of(items@));
                let end = append_items(ci, items, 0, buf, e1);
                proof {
                    crate::wire::lemma_splice_splice(
                        old(buf)@,
                        offset as int,
                        enc_u64(items@.len() as u64),
                        enc_items((**ci)@, views_of(items@), offset + 8),
                    );
                }
                end
            },
            Codec::Tuple(cs) => {
                let items = match v {
                    Value::Tuple(items) => items,
                    _ => { unreached() },
                };
                proof {
                    crate::value::lemma_views_of(items@);
                    lemma_codec_views_of(cs@);
                    assert(codec_views_of(cs@).skip(0) =~= codec_views_of(cs@));
                    assert(views_of(items@).skip(0) =~= views_of(items@));
                }
                append_zip(cs, items, 0, buf, offset)
            },
            Codec::Dict(ck, cv) => {
                let pairs = match v {
                    Value::Dict(pairs) => pairs,
                    _ => { unreached() },
                };
                proof {
                    crate::value::lemma_pair_views_of(pairs@);
                }
                let e1 = crate::wire::append_u64(buf, offset, pairs.len() as u64);
                assert(pair_views_of(pairs@).skip(0) =~= pair_views_of(pairs@));
                let end = self.append_pairs(pairs, 0, buf, e1);
                proof {
                    crate::wire::lemma_splice_splice(
                        old(buf)@,
                        offset as int,
                        enc_u64(pairs@.len() as u64),
                        enc_pairs(self@, pair_views_of(pairs@), offset + 8),
                    );
                }
                end
            },
            Codec::Optional(ci) => {
                match v {
                    Value::Null => crate::wire::append_bool(buf, offset, false),
                    _ => {
                        assert(!(v@ is Null));
                        let e1 = crate::wire::append_bool(buf, offset, true);
                        let end = ci.append_raw(buf, e1, v);
                        proof {
                            crate::wire::lemma_splice_splice(
                                old(buf)@,
                                offset as int,
                                enc_bool(true),
                                enc((**ci)@, v@, offset + 1),
                            );
                        }
                        end
                    },
                }
            },
            Codec::Record { strategy, fields } => {
                let vfields = match v {
                    Value::Record(vfields) => vfields,
                    _ => { unreached() },
                };
                proof {
                    crate::value::lemma_field_views_of(vfields@);
                    lemma_codec_field_views_of(fields@);
                    assert(codec_field_views_of(fields@).skip(0) =~= codec_field_views_of(
                        fields@,
                    ));
                    assert(field_views_of(vfields@).skip(0) =~= field_views_of(vfields@));
                }
                append_fields(fields, vfields, 0, buf, offset)
            },
            Codec::TypedDict(fields) => {
                let pairs = match v {
                    Value::Dict(pairs) => pairs,
                    _ => { unreached() },
                };
                proof {
                    crate::value::lemma_pair_views_of(pairs@);
                    lemma_codec_field_views_of(fields@);
                    assert(codec_field_views_of(fields@).skip(0) =~= codec_field_views_of(
                        fields@,
                    ));
                    assert(pair_views_of(pairs@).skip(0) =~= pair_views_of(pairs@));
                }
                append_keyed(fields, pairs, 0, buf, offset)
            },
            Codec::Union(opts) => {
                proof {
                    lemma_codec_views_of(opts@);
                }
                let idx = match find_option(opts, v) {
                    Some(idx) => idx,
                    None => { unreached() },
                };
                proof {
                    lemma_first_accepting(codec_views_of(opts@), v@);
                    lemma_enc_nth(codec_views_of(opts@), idx as int, v@, offset + 8);
                }
                let e1 = crate::wire::append_u64(buf, offset, idx as u64);
                let end = opts[idx].append_raw(buf, e1, v);
                proof {
                    crate::wire::lemma_splice_splice(
                        old(buf)@,
                        offset as int,
                        enc_u64(idx as u64),
                        enc_nth(codec_views_of(opts@), idx as int, v@, offset + 8),
                    );
                }
                end
            },
            Codec::ArrayDyn(k) => {
                let a = match v {
                    Value::Array(a) => a,
                    _ => { unreached() },
                };
                self.append_array_dyn(a, buf, offset)
            },
            Codec::ArrayFixed { kind, shape, pool } => {
                let a = match v {
                    Value::Array(a) => a,
                    _ => { unreached() },
                };
                let size = elem_size(a.kind);
                let pad = crate::wire::bytes_to_alignment(offset, size);
                let e1 = write_zeros(buf, offset, pad);
                let end = crate::wire::append_bytes(buf, e1, a.data.as_slice());
                proof {
                    crate::wire::lemma_splice_splice(
                        old(buf)@,
                        offset as int,
                        zeros(pad as int),
                        enc_bytes(a.data@),
                    );
                }
                end
            },
        }
    }

    /// Writes a dynamic-shape array encoding: rank, dimensions, padding,
    /// then the length-prefixed raw bytes.
    fn append_array_dyn(&self, a: &ArrayValue, buf: &mut Vec<u8>, offset: usize) -> (end: usize)
        requires
            crate::value::wf_array(a@),
            offset + arr_dyn_enc(a@, offset as int).len() <= old(buf)@.len(),
        ensures
            end as int == offset + arr_dyn_enc(a@, offset as int).len(),
            final(buf)@ == crate::wire::splice(
                old(buf)@,
                offset as int,
                arr_dyn_enc(a@, offset as int),
            ),
    {
        proof {
            vstd::bytes::lemma_auto_spec_u64_to_from_le_bytes();
            lemma_enc_shape_len(a.shape@);
        }
        let ghost head = enc_u64(a.shape@.len() as u64) + enc_shape(a.shape@);
        let ghost size_g = spec_elem_size(a.kind);
        let ghost padlen = crate::wire::pad_to(offset + head.len(), size_g);
        proof {
            assert(arr_dyn_enc(a@, offset as int) == head + zeros(padlen) + enc_bytes(a.data@));
            assert(arr_dyn_enc(a@, offset as int) =~= enc_u64(a.shape@.len() as u64) + (enc_shape(
                a.shape@,
            ) + (zeros(padlen) + enc_bytes(a.data@))));
        }
        let e1 = crate::wire::append_u64(buf, offset, a.shape.len() as u64);
        assert(a.shape@.skip(0) =~= a.shape@);
        let e2 = append_shape(&a.shape, 0, buf, e1);
        let size = elem_size(a.kind);
        let pad = crate::wire::bytes_to_alignment(e2, size);
        let e3 = write_zeros(buf, e2, pad);
        let end = crate::wire::append_bytes(buf, e3, a.data.as_slice());
        proof {
            crate::wire::lemma_splice_splice(
                crate::wire::splice(
                    crate::wire::splice(old(buf)@, offset as int, enc_u64(a.shape@.len() as u64)),
                    offset + 8,
                    enc_shape(a.shape@),
                ),
                e2 as int,
                zeros(padlen),
                enc_bytes(a.data@),
            );
            crate::wire::lemma_splice_splice(
                crate::wire::splice(old(buf)@, offset as int, enc_u64(a.shape@.len() as u64)),
                offset + 8,
                enc_shape(a.shape@),
                zeros(padlen) + enc_bytes(a.data@),
            );
            crate::wire::lemma_splice_splice(
                old(buf)@,
                offset as int,
                enc_u64(a.shape@.len() as u64),
                enc_shape(a.shape@) + (zeros(padlen) + enc_bytes(a.data@)),
            );
        }
        end
    }

    /// Writes the key-value pairs of a dict, from `idx` on.
    fn append_pairs(
        &self,
        pairs: &Vec<(Value, Value)>,
        idx: usize,
        buf: &mut Vec<u8>,
        cur: usize,
    ) -> (end: usize)
        requires
            self is Dict,
            idx <= pairs@.len(),
            accepts_pairs(self@, pair_views_of(pairs@).skip(idx as int)),
            cur + enc_pairs(self@, pair_views_of(pairs@).skip(idx as int), cur as int).len()
                <= old(buf)@.len(),
        ensures
            end as int == cur + enc_pairs(
                self@,
                pair_views_of(pairs@).skip(idx as int),
                cur as int,
            ).len(),
            final(buf)@ == crate::wire::splice(
                old(buf)@,
                cur as int,
                enc_pairs(self@, pair_views_of(pairs@).skip(idx as int), cur as int),
            ),
        decreases self, 0int, pairs@.len() - idx,
    {
        let (ck, cv) = match self {
            Codec::Dict(ck, cv) => (ck, cv),
            _ => { unreached() },
        };
        proof {
            crate::value::lemma_pair_views_of(pairs@);
        }
        let ghost sk = pair_views_of(pairs@).skip(idx as int);
        if idx == pairs.len() {
            assert(sk =~= Seq::<(ValueModel, ValueModel)>::empty());
            assert(buf@ =~= crate::wire::splice(buf@, cur as int, enc_pairs(self@, sk, cur as int)));
            return cur;
        }
        proof {
            assert(sk[0] == pair_views_of(pairs@)[idx as int]);
            assert(sk[0] == (pairs@[idx as int].0@, pairs@[idx as int].1@));
            assert(sk.drop_first() =~= pair_views_of(pairs@).skip(idx as int + 1));
        }
        let ghost kh = enc((**ck)@, pairs@[idx as int].0@, cur as int);
        let ghost vh = enc((**cv)@, pairs@[idx as int].1@, cur + kh.len());
        let ghost rest = enc_pairs(self@, sk.drop_first(), cur + kh.len() + vh.len());
        proof {
            assert(enc_pairs(self@, sk, cur as int) == kh + vh + rest);
            assert(enc_pairs(self@, sk, cur as int) =~= kh + (vh + rest));
        }
        let e1 = ck.append_raw(buf, cur, &pairs[idx].0);
        let e2 = cv.append_raw(buf, e1, &pairs[idx].1);
        let end = self.append_pairs(pairs, idx + 1, buf, e2);
        proof {
            crate::wire::lemma_splice_splice(
                crate::wire::splice(old(buf)@, cur as int, kh),
                e1 as int,
                vh,
                rest,
            );
            crate::wire::lemma_splice_splice(old(buf)@, cur as int, kh, vh + rest);
        }
        end
    }
}

/// Writes the elements of a run under one item codec, from `idx` on.
fn append_items(
    ci: &Codec,
    items: &Vec<Value>,
    idx: usize,
    buf: &mut Vec<u8>,
    cur: usize,
) -> (end: usize)
    requires
        idx <= items@.len(),
        accepts_items(ci@, views_of(items@).skip(idx as int)),
        cur + enc_items(ci@, views_of(items@).skip(idx as int), cur as int).len() <= old(
            buf,
        )@.len(),
    ensures
        end as int == cur + enc_items(ci@, views_of(items@).skip(idx as int), cur as int).len(),
        final(buf)@ == crate::wire::splice(
            old(buf)@,
            cur as int,
            enc_items(ci@, views_of(items@).skip(idx as int), cur as int),
        ),
    decreases ci, 2int, items@.len() - idx,
{
    proof {
        crate::value::lemma_views_of(items@);
    }
    let ghost sk = views_of(items@).skip(idx as int);
    if idx == items.len() {
        assert(sk =~= Seq::<ValueModel>::empty());
        assert(buf@ =~= crate::wire::splice(buf@, cur as int, enc_items(ci@, sk, cur as int)));
        return cur;
    }
    proof {
        assert(sk[0] == views_of(items@)[idx as int]);
        assert(sk[0] == items@[idx as int]@);
        assert(sk.drop_first() =~= views_of(items@).skip(idx as int + 1));
    }
    let ghost head = enc(ci@, items@[idx as int]@, cur as int);
    let ghost rest = enc_items(ci@, sk.drop_first(), cur + head.len());
    proof {
        assert(enc_items(ci@, sk, cur as int) == head + rest);
    }
    let e1 = ci.append_raw(buf, cur, &items[idx]);
    let end = append_items(ci, items, idx + 1, buf, e1);
    proof {
        crate::wire::lemma_splice_splice(old(buf)@, cur as int, head, rest);
    }
    end
}

/// Writes the elements of a run under per-position codecs, from `idx` on.
fn append_zip(
    cs: &Vec<Codec>,
    items: &Vec<Value>,
    idx: usize,
    buf: &mut Vec<u8>,
    cur: usize,
) -> (end: usize)
    requires
        cs@.len() == items@.len(),
        idx <= cs@.len(),
        accepts_zip(codec_views_of(cs@).skip(idx as int), views_of(items@).skip(idx as int)),
        cur + enc_zip(
            codec_views_of(cs@).skip(idx as int),
            views_of(items@).skip(idx as int),
            cur as int,
        ).len() <= old(buf)@.len(),
    ensures
        end as int == cur + enc_zip(
            codec_views_of(cs@).skip(idx as int),
            views_of(items@).skip(idx as int),
            cur as int,
        ).len(),
        final(buf)@ == crate::wire::splice(
            old(buf)@,
            cur as int,
            enc_zip(
                codec_views_of(cs@).skip(idx as int),
                views_of(items@).skip(idx as int),
                cur as int,
            ),
        ),
    decreases cs, 1int, cs@.len() - idx,
{
    proof {
        crate::value::lemma_views_of(items@);
        lemma_codec_views_of(cs@);
    }
    let ghost csk = codec_views_of(cs@).skip(idx as int);
    let ghost vsk = views_of(items@).skip(idx as int);
    if idx == cs.len() {
        assert(csk =~= Seq::<CodecModel>::empty());
        assert(buf@ =~= crate::wire::splice(buf@, cur as int, enc_zip(csk, vsk, cur as int)));
        return cur;
    }
    proof {
        assert(csk[0] == codec_views_of(cs@)[idx as int]);
        assert(csk[0] == cs@[idx as int]@);
        assert(vsk[0] == items@[idx as int]@);
        assert(csk.drop_first() =~= codec_views_of(cs@).skip(idx as int + 1));
        assert(vsk.drop_first() =~= views_of(items@).skip(idx as int + 1));
    }
    let ghost head = enc(cs@[idx as int]@, items@[idx as int]@, cur as int);
    let ghost rest = enc_zip(csk.drop_first(), vsk.drop_first(), cur + head.len());
    proof {
        assert(enc_zip(csk, vsk, cur as int) == head + rest);
    }
    let e1 = cs[idx].append_raw(buf, cur, &items[idx]);
    let end = append_zip(cs, items, idx + 1, buf, e1);
    proof {
        crate::wire::lemma_splice_splice(old(buf)@, cur as int, head, rest);
    }
    end
}

/// Writes a record's field values, from `idx` on.
fn append_fields(
    fields: &Vec<(Vec<u8>, Codec)>,
    vfields: &Vec<(Vec<u8>, Value)>,
    idx: usize,
    buf: &mut Vec<u8>,
    cur: usize,
) -> (end: usize)
    requires
        fields@.len() == vfields@.len(),
        idx <= fields@.len(),
        accepts_fields(
            codec_field_views_of(fields@).skip(idx as int),
            field_views_of(vfields@).skip(idx as int),
        ),
        cur + enc_fields(
            codec_field_views_of(fields@).skip(idx as int),
            field_views_of(vfields@).skip(idx as int),
            cur as int,
        ).len() <= old(buf)@.len(),
    ensures
        end as int == cur + enc_fields(
            codec_field_views_of(fields@).skip(idx as int),
            field_views_of(vfields@).skip(idx as int),
            cur as int,
        ).len(),
        final(buf)@ == crate::wire::splice(
            old(buf)@,
            cur as int,
            enc_fields(
                codec_field_views_of(fields@).skip(idx as int),
                field_views_of(vfields@).skip(idx as int),
                cur as int,
            ),
        ),
    decreases fields, 1int, fields@.len() - idx,
{
    proof {
        crate::value::lemma_field_views_of(vfields@);
        lemma_codec_field_views_of(fields@);
    }
    let ghost csk = codec_field_views_of(fields@).skip(idx as int);
    let ghost vsk = field_views_of(vfields@).skip(idx as int);
    if idx == fields.len() {
        assert(csk =~= Seq::<(Seq<u8>, CodecModel)>::empty());
        assert(buf@ =~= crate::wire::splice(buf@, cur as int, enc_fields(csk, vsk, cur as int)));
        return cur;
    }
    proof {
        assert(csk[0] == codec_field_views_of(fields@)[idx as int]);
        assert(vsk[0] == field_views_of(vfields@)[idx as int]);
        assert(csk.drop_first() =~= codec_field_views_of(fields@).skip(idx as int + 1));
        assert(vsk.drop_first() =~= field_views_of(vfields@).skip(idx as int + 1));
    }
    let ghost head = enc(fields@[idx as int].1@, vfields@[idx as int].1@, cur as int);
    let ghost rest = enc_fields(csk.drop_first(), vsk.drop_first(), cur + head.len());
    proof {
        assert(enc_fields(csk, vsk, cur as int) == head + rest);
    }
    let e1 = fields[idx].1.append_raw(buf, cur, &vfields[idx].1);
    let end = append_fields(fields, vfields, idx + 1, buf, e1);
    proof {
        crate::wire::lemma_splice_splice(old(buf)@, cur as int, head, rest);
    }
    end
}

/// Writes a keyed dict's values in declared key order, from `idx` on.
fn append_keyed(
    fields: &Vec<(Vec<u8>, Codec)>,
    pairs: &Vec<(Value, Value)>,
    idx: usize,
    buf: &mut Vec<u8>,
    cur: usize,
) -> (end: usize)
    requires
        fields@.len() == pairs@.len(),
        idx <= fields@.len(),
        accepts_keyed(
            codec_field_views_of(fields@).skip(idx as int),
            pair_views_of(pairs@).skip(idx as int),
        ),
        cur + enc_keyed(
            codec_field_views_of(fields@).skip(idx as int),
            pair_views_of(pairs@).skip(idx as int),
            cur as int,
        ).len() <= old(buf)@.len(),
    ensures
        end as int == cur + enc_keyed(
            codec_field_views_of(fields@).skip(idx as int),
            pair_views_of(pairs@).skip(idx as int),
            cur as int,
        ).len(),
        final(buf)@ == crate::wire::splice(
            old(buf)@,
            cur as int,
            enc_keyed(
                codec_field_views_of(fields@).skip(idx as int),
                pair_views_of(pairs@).skip(idx as int),
                cur as int,
            ),
        ),
    decreases fields, 1int, fields@.len() - idx,
{
    proof {
        crate::value::lemma_pair_views_of(pairs@);
        lemma_codec_field_views_of(fields@);
    }
    let ghost csk = codec_field_views_of(fields@).skip(idx as int);
    let ghost vsk = pair_views_of(pairs@).skip(idx as int);
    if idx == fields.len() {
        assert(csk =~= Seq::<(Seq<u8>, CodecModel)>::empty());
        assert(buf@ =~= crate::wire::splice(buf@, cur as int, enc_keyed(csk, vsk, cur as int)));
        return cur;
    }
    proof {
        assert(csk[0] == codec_field_views_of(fields@)[idx as int]);
        assert(vsk[0] == pair_views_of(pairs@)[idx as int]);
        assert(csk.drop_first() =~= codec_field_views_of(fields@).skip(idx as int + 1));
        assert(vsk.drop_first() =~= pair_views_of(pairs@).skip(idx as int + 1));
    }
    let ghost head = enc(fields@[idx as int].1@, pairs@[idx as int].1@, cur as int);
    let ghost rest = enc_keyed(csk.drop_first(), vsk.drop_first(), cur + head.len());
    proof {
        assert(enc_keyed(csk, vsk, cur as int) == head + rest);
    }
    let e1 = fields[idx].1.append_raw(buf, cur, &pairs[idx].1);
    let end = append_keyed(fields, pairs, idx + 1, buf, e1);
    proof {
        crate::wire::lemma_splice_splice(old(buf)@, cur as int, head, rest);
    }
    end
}

/// Writes a value's dynamic encoding: the tag byte, then the payload.
fn append_dyn(buf: &mut Vec<u8>, offset: usize, v: &Value) -> (end: usize)
    requires
        dyn_accepts(v@),
        offset + dyn_enc(v@, offset as int).len() <= old(buf)@.len(),
    ensures
        end as int == offset + dyn_enc(v@, offset as int).len(),
        final(buf)@ == crate::wire::splice(
            old(buf)@,
            offset as int,
            dyn_enc(v@, offset as int),
        ),
    decreases v, 1int, 0int,
{
    proof {
        vstd::bytes::lemma_auto_spec_u64_to_from_le_bytes();
    }
    let ghost tag = seq![spec_tag_byte(spec_detect(v@))];
    let t = get_type_tag_byte(crate::tag::detect_type(v));
    match v {
        Value::Bool(x) => {
            let e1 = crate::wire::write_byte(buf, offset, t);
            let end = crate::wire::append_bool(buf, e1, *x);
            proof {
                crate::wire::lemma_splice_splice(old(buf)@, offset as int, tag, enc_bool(*x));
            }
            end
        },
        Value::Int(x) => {
            let e1 = crate::wire::write_byte(buf, offset, t);
            let end = crate::wire::append_i64(buf, e1, *x);
            proof {
                crate::wire::lemma_splice_splice(old(buf)@, offset as int, tag, enc_i64(*x));
            }
            end
        },
        Value::Float(x) => {
            let e1 = crate::wire::write_byte(buf, offset, t);
            let end = crate::wire::append_u64(buf, e1, *x);
            proof {
                crate::wire::lemma_splice_splice(old(buf)@, offset as int, tag, enc_u64(*x));
            }
            end
        },
        Value::Complex(re, im) => {
            proof {
                assert(dyn_enc(v@, offset as int) =~= tag + (enc_u64(*re) + enc_u64(*im)));
            }
            let e1 = crate::wire::write_byte(buf, offset, t);
            let e2 = crate::wire::append_u64(buf, e1, *re);
            let end = crate::wire::append_u64(buf, e2, *im);
            proof {
                crate::wire::lemma_splice_splice(
                    crate::wire::splice(old(buf)@, offset as int, tag),
                    offset + 1,
                    enc_u64(*re),
                    enc_u64(*im),
                );
                crate::wire::lemma_splice_splice(
                    old(buf)@,
                    offset as int,
                    tag,
                    enc_u64(*re) + enc_u64(*im),
                );
            }
            end
        },
        Value::Str(s) => {
            let e1 = crate::wire::write_byte(buf, offset, t);
            let end = crate::wire::append_bytes(buf, e1, s.as_slice());
            proof {
                crate::wire::lemma_splice_splice(old(buf)@, offset as int, tag, enc_bytes(s@));
            }
            end
        },
        Value::Bytes(s) => {
            let e1 = crate::wire::write_byte(buf, offset, t);
            let end = crate::wire::append_bytes(buf, e1, s.as_slice());
            proof {
                crate::wire::lemma_splice_splice(old(buf)@, offset as int, tag, enc_bytes(s@));
            }
            end
        },
        Value::Opaque(s) => {
            let e1 = crate::wire::write_byte(buf, offset, t);
            let end = crate::wire::append_bytes(buf, e1, s.as_slice());
            proof {
                crate::wire::lemma_splice_splice(old(buf)@, offset as int, tag, enc_bytes(s@));
            }
            end
        },
        Value::Array(a) => {
            let e1 = crate::wire::write_byte(buf, offset, t);
            let end = Codec::ArrayDyn(a.kind).append_array_dyn(a, buf, e1);
            proof {
                crate::wire::lemma_splice_splice(
                    old(buf)@,
                    offset as int,
                    tag,
                    arr_dyn_enc(a@, offset + 1),
                );
            }
            end
        },
        Value::List(items) => {
            proof {
                crate::value::lemma_views_of(items@);
                assert(dyn_enc(v@, offset as int) =~= tag + (enc_u64(views_of(items@).len() as u64)
                    + dyn_enc_items(views_of(items@), offset + 9)));
            }
            let e1 = crate::wire::write_byte(buf, offset, t);
            let e2 = crate::wire::append_u64(buf, e1, items.len() as u64);
            assert(views_of(items@).skip(0) =~= views_of(items@));
            let end = append_dyn_items(items, 0, buf, e2);
            proof {
                crate::wire::lemma_splice_splice(
                    crate::wire::splice(old(buf)@, offset as int, tag),
                    offset + 1,
                    enc_u64(views_of(items@).len() as u64),
                    dyn_enc_items(views_of(items@), offset + 9),
                );
                crate::wire::lemma_splice_splice(
                    old(buf)@,
                    offset as int,
                    tag,
                    enc_u64(views_of(items@).len() as u64) + dyn_enc_items(
                        views_of(items@),
                        offset + 9,
                    ),
                );
            }
            end
        },
        Value::SetOf(items) => {
            proof {
                crate::value::lemma_views_of(items@);
                assert(dyn_enc(v@, offset as int) =~= tag + (enc_u64(views_of(items@).len() as u64)
                    + dyn_enc_items(views_of(items@), offset + 9)));
            }
            let e1 = crate::wire::write_byte(buf, offset, t);
            let e2 = crate::wire::append_u64(buf, e1, items.len() as u64);
            assert(views_of(items@).skip(0) =~= views_of(items@));
            let end = append_dyn_items(items, 0, buf, e2);
            proof {
                crate::wire::lemma_splice_splice(
                    crate::wire::splice(old(buf)@, offset as int, tag),
                    offset + 1,
                    enc_u64(views_of(items@).len() as u64),
                    dyn_enc_items(views_of(items@), offset + 9),
                );
                crate::wire::lemma_splice_splice(
                    old(buf)@,
                    offset as int,
                    tag,
                    enc_u64(views_of(items@).len() as u64) + dyn_enc_items(
                        views_of(items@),
                        offset + 9,
                    ),
                );
            }
            end
        },
        Value::Tuple(items) => {
            proof {
                crate::value::lemma_views_of(items@);
                assert(dyn_enc(v@, offset as int) =~= tag + (enc_u64(views_of(items@).len() as u64)
                    + dyn_enc_items(views_of(items@), offset + 9)));
            }
            let e1 = crate::wire::write_byte(buf, offset, t);
            let e2 = crate::wire::append_u64(buf, e1, items.len() as u64);
            assert(views_of(items@).skip(0) =~= views_of(items@));
            let end = append_dyn_items(items, 0, buf, e2);
            proof {
                crate::wire::lemma_splice_splice(
                    crate::wire::splice(old(buf)@, offset as int, tag),
                    offset + 1,
                    enc_u64(views_of(items@).len() as u64),
                    dyn_enc_items(views_of(items@), offset + 9),
                );
                crate::wire::lemma_splice_splice(
                    old(buf)@,
                    offset as int,
                    tag,
                    enc_u64(views_of(items@).len() as u64) + dyn_enc_items(
                        views_of(items@),
                        offset + 9,
                    ),
                );
            }
            end
        },
        Value::Dict(pairs) => {
            proof {
                crate::value::lemma_pair_views_of(pairs@);
                assert(dyn_enc(v@, offset as int) =~= tag + (enc_u64(pair_views_of(
                    pairs@,
                ).len() as u64) + dyn_enc_pairs(pair_views_of(pairs@), offset + 9)));
            }
            let e1 = crate::wire::write_byte(buf, offset, t);
            let e2 = crate::wire::append_u64(buf, e1, pairs.len() as u64);
            assert(pair_views_of(pairs@).skip(0) =~= pair_views_of(pairs@));
            let end = append_dyn_pairs(pairs, 0, buf, e2);
            proof {
                crate::wire::lemma_splice_splice(
                    crate::wire::splice(old(buf)@, offset as int, tag),
                    offset + 1,
                    enc_u64(pair_views_of(pairs@).len() as u64),
                    dyn_enc_pairs(pair_views_of(pairs@), offset + 9),
                );
                crate::wire::lemma_splice_splice(
                    old(buf)@,
                    offset as int,
                    tag,
                    enc_u64(pair_views_of(pairs@).len() as u64) + dyn_enc_pairs(
                        pair_views_of(pairs@),
                        offset + 9,
                    ),
                );
            }
            end
        },
        Value::Record(_) => { unreached() },
        Value::Null => { unreached() },
    }
}

/// Writes the dynamic encodings of a run of elements, from `idx` on.
fn append_dyn_items(items: &Vec<Value>, idx: usize, buf: &mut Vec<u8>, cur: usize) -> (end: usize)
    requires
        idx <= items@.len(),
        dyn_accepts_items(views_of(items@).skip(idx as int)),
        cur + dyn_enc_items(views_of(items@).skip(idx as int), cur as int).len() <= old(
            buf,
        )@.len(),
    ensures
        end as int == cur + dyn_enc_items(views_of(items@).skip(idx as int), cur as int).len(),
        final(buf)@ == crate::wire::splice(
            old(buf)@,
            cur as int,
            dyn_enc_items(views_of(items@).skip(idx as int), cur as int),
        ),
    decreases items, 2int, items@.len() - idx,
{
    proof {
        crate::value::lemma_views_of(items@);
    }
    let ghost sk = views_of(items@).skip(idx as int);
    if idx == items.len() {
        assert(sk =~= Seq::<ValueModel>::empty());
        assert(buf@ =~= crate::wire::splice(buf@, cur as int, dyn_enc_items(sk, cur as int)));
        return cur;
    }
    proof {
        assert(sk[0] == views_of(items@)[idx as int]);
        assert(sk[0] == items@[idx as int]@);
        assert(sk.drop_first() =~= views_of(items@).skip(idx as int + 1));
    }
    let ghost head = dyn_enc(items@[idx as int]@, cur as int);
    let ghost rest = dyn_enc_items(sk.drop_first(), cur + head.len());
    proof {
        assert(dyn_enc_items(sk, cur as int) == head + rest);
    }
    let e1 = append_dyn(buf, cur, &items[idx]);
    let end = append_dyn_items(items, idx + 1, buf, e1);
    proof {
        crate::wire::lemma_splice_splice(old(buf)@, cur as int, head, rest);
    }
    end
}

/// Writes the dynamic encodings of a run of key-value pairs, from `idx`
/// on.
fn append_dyn_pairs(
    pairs: &Vec<(Value, Value)>,
    idx: usize,
    buf: &mut Vec<u8>,
    cur: usize,
) -> (end: usize)
    requires
        idx <= pairs@.len(),
        dyn_accepts_pairs(pair_views_of(pairs@).skip(idx as int)),
        cur + dyn_enc_pairs(pair_views_of(pairs@).skip(idx as int), cur as int).len() <= old(
            buf,
        )@.len(),
    ensures
        end as int == cur + dyn_enc_pairs(pair_views_of(pairs@).skip(idx as int), cur as int).len(),
        final(buf)@ == crate::wire::splice(
            old(buf)@,
            cur as int,
            dyn_enc_pairs(pair_views_of(pairs@).skip(idx as int), cur as int),
        ),
    decreases pairs, 2int, pairs@.len() - idx,
{
    proof {
        crate::value::lemma_pair_views_of(pairs@);
    }
    let ghost sk = pair_views_of(pairs@).skip(idx as int);
    if idx == pairs.len() {
        assert(sk =~= Seq::<(ValueModel, ValueModel)>::empty());
        assert(buf@ =~= crate::wire::splice(buf@, cur as int, dyn_enc_pairs(sk, cur as int)));
        return cur;
    }
    proof {
        assert(sk[0] == pair_views_of(pairs@)[idx as int]);
        assert(sk[0] == (pairs@[idx as int].0@, pairs@[idx as int].1@));
        assert(sk.drop_first() =~= pair_views_of(pairs@).skip(idx as int + 1));
    }
    let ghost kh = dyn_enc(pairs@[idx as int].0@, cur as int);
    let ghost vh = dyn_enc(pairs@[idx as int].1@, cur + kh.len());
    let ghost rest = dyn_enc_pairs(sk.drop_first(), cur + kh.len() + vh.len());
    proof {
        assert(dyn_enc_pairs(sk, cur as int) == kh + vh + rest);
        assert(dyn_enc_pairs(sk, cur as int) =~= kh + (vh + rest));
    }
    let e1 = append_dyn(buf, cur, &pairs[idx].0);
    let e2 = append_dyn(buf, e1, &pairs[idx].1);
    let end = append_dyn_pairs(pairs, idx + 1, buf, e2);
    proof {
        crate::wire::lemma_splice_splice(
            crate::wire::splice(old(buf)@, cur as int, kh),
            e1 as int,
            vh,
            rest,
        );
        crate::wire::lemma_splice_splice(old(buf)@, cur as int, kh, vh + rest);
    }
    end
}

} // verus!

verus! {

// ---------------------------------------------------------------------
// The codec's runtime invariant, and the public append entry points.
// ---------------------------------------------------------------------

/// Whether every codec of a run satisfies its invariant.
pub open spec fn codecs_inv(cs: Seq<Codec>) -> bool
    decreases cs, 2int, 0int,
{
    if cs.len() == 0 {
        true
    } else {
        cs[0].inv() && codecs_inv(cs.drop_first())
    }
}

/// Whether every named child codec of a run satisfies its invariant.
pub open spec fn codec_fields_inv(fields: Seq<(Vec<u8>, Codec)>) -> bool
    decreases fields, 2int, 0int,
{
    if fields.len() == 0 {
        true
    } else {
        fields[0].1.inv() && codec_fields_inv(fields.drop_first())
    }
}

/// A run's invariant holds exactly when each codec's does.
pub proof fn lemma_codecs_inv(cs: Seq<Codec>)
    ensures
        codecs_inv(cs) == (forall|i: int| 0 <= i < cs.len() ==> (#[trigger] cs[i]).inv()),
    decreases cs.len(),
{
    if cs.len() > 0 {
        lemma_codecs_inv(cs.drop_first());
        if cs[0].inv() && codecs_inv(cs.drop_first()) {
            assert forall|i: int| 0 <= i < cs.len() implies (#[trigger] cs[i]).inv() by {
                if i > 0 {
                    assert(cs.drop_first()[i - 1] == cs[i]);
                }
            }
        } else {
            assert(!codecs_inv(cs));
            if cs[0].inv() {
                let k = choose|i: int|
                    0 <= i < cs.drop_first().len() && !(#[trigger] cs.drop_first()[i]).inv();
                assert(cs.drop_first()[k] == cs[k + 1]);
            }
        }
    }
}

/// A run's invariant holds exactly when each named child's does.
pub proof fn lemma_codec_fields_inv(fields: Seq<(Vec<u8>, Codec)>)
    ensures
        codec_fields_inv(fields) == (forall|i: int|
            0 <= i < fields.len() ==> (#[trigger] fields[i]).1.inv()),
    decreases fields.len(),
{
    if fields.len() > 0 {
        lemma_codec_fields_inv(fields.drop_first());
        if fields[0].1.inv() && codec_fields_inv(fields.drop_first()) {
            assert forall|i: int| 0 <= i < fields.len() implies (#[trigger] fields[i]).1.inv() by {
                if i > 0 {
                    assert(fields.drop_first()[i - 1] == fields[i]);
                }
            }
        } else {
            assert(!codec_fields_inv(fields));
            if fields[0].1.inv() {
                let k = choose|i: int|
                    0 <= i < fields.drop_first().len() && !(#[trigger] fields.drop_first()[i]).1.inv();
                assert(fields.drop_first()[k] == fields[k + 1]);
            }
        }
    }
}

impl Codec {
    /// The codec tree's runtime invariant: every allocation pool is well
    /// formed and sized to its codec's static frame.
    pub open spec fn inv(&self) -> bool
        decreases self, 1int, 0int,
    {
        match self {
            Codec::List(ci) => (**ci).inv(),
            Codec::SetOf(ci) => (**ci).inv(),
            Codec::Optional(ci) => (**ci).inv(),
            Codec::Dict(ck, cv) => (**ck).inv() && (**cv).inv(),
            Codec::Tuple(cs) => codecs_inv(cs@),
            Codec::Union(opts) => codecs_inv(opts@),
            Codec::Record { strategy, fields } => codec_fields_inv(fields@),
            Codec::TypedDict(fields) => codec_fields_inv(fields@),
            Codec::ArrayFixed { kind, shape, pool } => pool.inv() && pool.frame as int
                == spec_elem_size(*kind) * shape_product(shape@),
            _ => true,
        }
    }

    /// Writes `v` at `offset` when this codec accepts it; a value of the
    /// wrong shape is rejected with nothing written.  The buffer must be
    /// pre-sized for an accepted value's encoding; its length never
    /// changes.
    pub fn append(&self, buf: &mut Vec<u8>, offset: usize, v: &Value) -> (r: Result<
        usize,
        EncodeError,
    >)
        requires
            accepts(self@, v@) ==> offset + enc(self@, v@, offset as int).len() <= old(
                buf,
            )@.len(),
        ensures
            final(buf)@.len() == old(buf)@.len(),
            match r {
                Ok(end) => {
                    &&& accepts(self@, v@)
                    &&& offset <= end
                    &&& end as int == offset + enc(self@, v@, offset as int).len()
                    &&& final(buf)@ == crate::wire::splice(
                        old(buf)@,
                        offset as int,
                        enc(self@, v@, offset as int),
                    )
                },
                Err(e) => {
                    &&& !accepts(self@, v@)
                    &&& e == EncodeError::Mismatch
                    &&& final(buf)@ == old(buf)@
                },
            },
    {
        if !self.value_matches(v) {
            return Err(EncodeError::Mismatch);
        }
        proof {
            crate::wire::lemma_splice_len(
                old(buf)@,
                offset as int,
                enc(self@, v@, offset as int),
            );
        }
        let end = self.append_raw(buf, offset, v);
        Ok(end)
    }

    /// Writes `v` under the option an external selector chose.  An index
    /// at or beyond the option count is rejected before anything is
    /// written; so is a value the chosen option does not accept.
    pub fn append_with_index(
        &self,
        buf: &mut Vec<u8>,
        offset: usize,
        v: &Value,
        idx: usize,
    ) -> (r: Result<usize, EncodeError>)
        requires
            self is Union,
            (idx < self@->Union_0.len() && accepts(self@->Union_0[idx as int], v@)) ==> offset + 8
                + enc(self@->Union_0[idx as int], v@, offset + 8).len() <= old(buf)@.len(),
        ensures
            final(buf)@.len() == old(buf)@.len(),
            match r {
                Ok(end) => {
                    &&& idx < self@->Union_0.len()
                    &&& offset <= end
                    &&& accepts(self@->Union_0[idx as int], v@)
                    &&& end as int == offset + 8 + enc(
                        self@->Union_0[idx as int],
                        v@,
                        offset + 8,
                    ).len()
                    &&& final(buf)@ == crate::wire::splice(
                        old(buf)@,
                        offset as int,
                        enc_u64(idx as u64) + enc(self@->Union_0[idx as int], v@, offset + 8),
                    )
                },
                Err(e) => {
                    &&& final(buf)@ == old(buf)@
                    &&& match e {
                        EncodeError::BadIndex(i) => i == idx as u64 && idx
                            >= self@->Union_0.len(),
                        EncodeError::Mismatch => idx < self@->Union_0.len() && !accepts(
                            self@->Union_0[idx as int],
                            v@,
                        ),
                    }
                },
            },
    {
        let opts = match self {
            Codec::Union(opts) => opts,
            _ => { unreached() },
        };
        proof {
            lemma_codec_views_of(opts@);
        }
        if idx >= opts.len() {
            return Err(EncodeError::BadIndex(idx as u64));
        }
        if !opts[idx].value_matches(v) {
            return Err(EncodeError::Mismatch);
        }
        proof {
            vstd::bytes::lemma_auto_spec_u64_to_from_le_bytes();
            crate::wire::lemma_splice_len(
                old(buf)@,
                offset as int,
                enc_u64(idx as u64) + enc(self@->Union_0[idx as int], v@, offset + 8),
            );
        }
        let e1 = crate::wire::append_u64(buf, offset, idx as u64);
        let end = opts[idx].append_raw(buf, e1, v);
        proof {
            crate::wire::lemma_splice_splice(
                old(buf)@,
                offset as int,
                enc_u64(idx as u64),
                enc(self@->Union_0[idx as int], v@, offset + 8),
            );
        }
        Ok(end)
    }
}

} // verus!

verus! {

// ---------------------------------------------------------------------
// Retrieving: reading a value back out of the buffer.
// ---------------------------------------------------------------------

/// Reads a dynamic-shape array of kind `k` at `offset`.
fn retrieve_array_dyn(k: ElementKind, buf: &Vec<u8>, offset: usize) -> (r: Result<
    (Value, usize),
    DecodeError,
>)
    ensures
        match r {
            Ok((v, end)) => offset <= end <= buf@.len() && arr_dyn_dec(k, buf@, offset as int)
                == Ok::<(ValueModel, int), DecodeError>((v@, end as int)),
            Err(e) => arr_dyn_dec(k, buf@, offset as int) == Err::<
                (ValueModel, int),
                DecodeError,
            >(e),
        },
{
    let (rank, o2) = match crate::wire::retrieve_usize(buf, offset) {
        Ok(p) => p,
        Err(e) => {
            return Err(e);
        },
    };
    let mut dims: Vec<usize> = Vec::new();
    let mut cur: usize = o2;
    let mut j: usize = 0;
    while j < rank
        invariant
            0 <= j <= rank,
            dims@.len() == j,
            o2 <= cur <= buf@.len(),
            offset <= o2,
            crate::wire::dec_usize(buf@, offset as int) == Ok::<(usize, int), DecodeError>((
                rank,
                o2 as int,
            )),
            ({
                match dec_shape((rank - j) as int, buf@, cur as int) {
                    Ok((ds, e)) => dec_shape(rank as int, buf@, o2 as int) == Ok::<
                        (Seq<usize>, int),
                        DecodeError,
                    >((dims@ + ds, e)),
                    Err(er) => dec_shape(rank as int, buf@, o2 as int) == Err::<
                        (Seq<usize>, int),
                        DecodeError,
                    >(er),
                }
            }),
        decreases rank - j,
    {
        match crate::wire::retrieve_usize(buf, cur) {
            Ok((d, e2)) => {
                proof {
                    match dec_shape((rank - j - 1) as int, buf@, e2 as int) {
                        Ok((ds2, ee)) => {
                            assert(dec_shape((rank - j) as int, buf@, cur as int) == Ok::<
                                (Seq<usize>, int),
                                DecodeError,
                            >((seq![d] + ds2, ee)));
                            assert(dims@ + (seq![d] + ds2) =~= (dims@ + seq![d]) + ds2);
                            assert(dims@.push(d) =~= dims@ + seq![d]);
                        },
                        Err(ee) => {
                            assert(dec_shape((rank - j) as int, buf@, cur as int) == Err::<
                                (Seq<usize>, int),
                                DecodeError,
                            >(ee));
                        },
                    }
                }
                dims.push(d);
                cur = e2;
                j = j + 1;
            },
            Err(e) => {
                return Err(e);
            },
        }
    }
    proof {
        assert(dims@ + Seq::<usize>::empty() =~= dims@);
        assert(dec_shape(rank as int, buf@, o2 as int) == Ok::<(Seq<usize>, int), DecodeError>((
            dims@,
            cur as int,
        )));
    }
    let size = elem_size(k);
    let pad = crate::wire::bytes_to_alignment(cur, size);
    if buf.len() - cur < pad {
        return Err(DecodeError::TooShort);
    }
    match crate::wire::retrieve_bytes(buf, cur + pad) {
        Err(e) => Err(e),
        Ok((data, end)) => {
            match crate::value::array_byte_len(k, &dims) {
                Some(nb) => {
                    if data.len() == nb {
                        let av = ArrayValue { kind: k, shape: dims, data };
                        Ok((Value::Array(av), end))
                    } else {
                        Err(DecodeError::BadShape)
                    }
                },
                None => {
                    let dl = data.len();
                    assert(data@.len() <= usize::MAX);
                    Err(DecodeError::BadShape)
                },
            }
        },
    }
}

/// Reads `n` elements under the dynamic codec starting at `start`.
fn retrieve_dyn_items(buf: &Vec<u8>, start: usize, n: usize) -> (r: Result<
    (Vec<Value>, usize),
    DecodeError,
>)
    requires
        start <= buf@.len(),
    ensures
        match r {
            Ok((vs, end)) => start <= end <= buf@.len() && dyn_dec_items(
                buf@,
                start as int,
                n as int,
            ) == Ok::<(Seq<ValueModel>, int), DecodeError>((views_of(vs@), end as int)),
            Err(e) => dyn_dec_items(buf@, start as int, n as int) == Err::<
                (Seq<ValueModel>, int),
                DecodeError,
            >(e),
        },
    decreases buf@.len() - start, 1int, 0int,
{
    let mut acc: Vec<Value> = Vec::new();
    let mut cur: usize = start;
    let mut j: usize = 0;
    proof {
        crate::value::lemma_views_of(acc@);
    }
    while j < n
        invariant
            0 <= j <= n,
            acc@.len() == j,
            start <= cur <= buf@.len(),
            ({
                match dyn_dec_items(buf@, cur as int, (n - j) as int) {
                    Ok((vs, e)) => dyn_dec_items(buf@, start as int, n as int) == Ok::<
                        (Seq<ValueModel>, int),
                        DecodeError,
                    >((views_of(acc@) + vs, e)),
                    Err(er) => dyn_dec_items(buf@, start as int, n as int) == Err::<
                        (Seq<ValueModel>, int),
                        DecodeError,
                    >(er),
                }
            }),
        decreases n - j,
    {
        match retrieve_dyn(buf, cur) {
            Ok((item, e2)) => {
                proof {
                    crate::value::lemma_views_of_push(acc@, item);
                    match dyn_dec_items(buf@, e2 as int, (n - j - 1) as int) {
                        Ok((vs2, ee)) => {
                            assert(dyn_dec_items(buf@, cur as int, (n - j) as int) == Ok::<
                                (Seq<ValueModel>, int),
                                DecodeError,
                            >((seq![item@] + vs2, ee)));
                            assert(views_of(acc@) + (seq![item@] + vs2) =~= (views_of(acc@)
                                + seq![item@]) + vs2);
                        },
                        Err(ee) => {
                            assert(dyn_dec_items(buf@, cur as int, (n - j) as int) == Err::<
                                (Seq<ValueModel>, int),
                                DecodeError,
                            >(ee));
                        },
                    }
                }
                acc.push(item);
                cur = e2;
                j = j + 1;
            },
            Err(e) => {
                return Err(e);
            },
        }
    }
    proof {
        assert(views_of(acc@) + Seq::<ValueModel>::empty() =~= views_of(acc@));
    }
    Ok((acc, cur))
}

/// Reads `n` key-value pairs under the dynamic codec starting at `start`.
fn retrieve_dyn_pairs(buf: &Vec<u8>, start: usize, n: usize) -> (r: Result<
    (Vec<(Value, Value)>, usize),
    DecodeError,
>)
    requires
        start <= buf@.len(),
    ensures
        match r {
            Ok((ps, end)) => start <= end <= buf@.len() && dyn_dec_pairs(
                buf@,
                start as int,
                n as int,
            ) == Ok::<(Seq<(ValueModel, ValueModel)>, int), DecodeError>((
                pair_views_of(ps@),
                end as int,
            )),
            Err(e) => dyn_dec_pairs(buf@, start as int, n as int) == Err::<
                (Seq<(ValueModel, ValueModel)>, int),
                DecodeError,
            >(e),
        },
    decreases buf@.len() - start, 1int, 0int,
{
    let mut acc: Vec<(Value, Value)> = Vec::new();
    let mut cur: usize = start;
    let mut j: usize = 0;
    proof {
        crate::value::lemma_pair_views_of(acc@);
    }
    while j < n
        invariant
            0 <= j <= n,
            acc@.len() == j,
            start <= cur <= buf@.len(),
            ({
                match dyn_dec_pairs(buf@, cur as int, (n - j) as int) {
                    Ok((ps, e)) => dyn_dec_pairs(buf@, start as int, n as int) == Ok::<
                        (Seq<(ValueModel, ValueModel)>, int),
                        DecodeError,
                    >((pair_views_of(acc@) + ps, e)),
                    Err(er) => dyn_dec_pairs(buf@, start as int, n as int) == Err::<
                        (Seq<(ValueModel, ValueModel)>, int),
                        DecodeError,
                    >(er),
                }
            }),
        decreases n - j,
    {
        match retrieve_dyn(buf, cur) {
            Ok((kv, e2)) => {
                match retrieve_dyn(buf, e2) {
                    Ok((vv, e3)) => {
                        proof {
                            crate::value::lemma_pair_views_of_push(acc@, kv, vv);
                            match dyn_dec_pairs(buf@, e3 as int, (n - j - 1) as int) {
                                Ok((ps2, ee)) => {
                                    assert(dyn_dec_pairs(buf@, cur as int, (n - j) as int) == Ok::<
                                        (Seq<(ValueModel, ValueModel)>, int),
                                        DecodeError,
                                    >((seq![(kv@, vv@)] + ps2, ee)));
                                    assert(pair_views_of(acc@) + (seq![(kv@, vv@)] + ps2) =~= (
                                    pair_views_of(acc@) + seq![(kv@, vv@)]) + ps2);
                                },
                                Err(ee) => {
                                    assert(dyn_dec_pairs(buf@, cur as int, (n - j) as int)
                                        == Err::<
                                        (Seq<(ValueModel, ValueModel)>, int),
                                        DecodeError,
                                    >(ee));
                                },
                            }
                        }
                        acc.push((kv, vv));
                        cur = e3;
                        j = j + 1;
                    },
                    Err(e) => {
                        return Err(e);
                    },
                }
            },
            Err(e) => {
                return Err(e);
            },
        }
    }
    proof {
        assert(pair_views_of(acc@) + Seq::<(ValueModel, ValueModel)>::empty() =~= pair_views_of(
            acc@,
        ));
    }
    Ok((acc, cur))
}

/// Reads a dynamically encoded value at `offset`: the tag byte, then the
/// matching payload.
pub fn retrieve_dyn(buf: &Vec<u8>, offset: usize) -> (r: Result<(Value, usize), DecodeError>)
    ensures
        match r {
            Ok((v, end)) => offset < end <= buf@.len() && dyn_dec(buf@, offset as int) == Ok::<
                (ValueModel, int),
                DecodeError,
            >((v@, end as int)),
            Err(e) => dyn_dec(buf@, offset as int) == Err::<(ValueModel, int), DecodeError>(e),
        },
    decreases buf@.len() - offset, 0int, 0int,
{
    if buf.len() < 1 || offset > buf.len() - 1 {
        return Err(DecodeError::TooShort);
    }
    let tb = buf[offset];
    let t = match retrieve_type_tag(tb) {
        Some(t) => t,
        None => {
            return Err(DecodeError::BadTag(tb));
        },
    };
    match t {
        TypeTag::Bool => match crate::wire::retrieve_bool(buf, offset + 1) {
            Ok((x, e)) => Ok((Value::Bool(x), e)),
            Err(er) => Err(er),
        },
        TypeTag::Int => match crate::wire::retrieve_i64(buf, offset + 1) {
            Ok((x, e)) => Ok((Value::Int(x), e)),
            Err(er) => Err(er),
        },
        TypeTag::Float => match crate::wire::retrieve_u64(buf, offset + 1) {
            Ok((x, e)) => Ok((Value::Float(x), e)),
            Err(er) => Err(er),
        },
        TypeTag::Complex => match crate::wire::retrieve_u64(buf, offset + 1) {
            Ok((re, e1)) => match crate::wire::retrieve_u64(buf, e1) {
                Ok((im, e2)) => Ok((Value::Complex(re, im), e2)),
                Err(er) => Err(er),
            },
            Err(er) => Err(er),
        },
        TypeTag::Str => match crate::wire::retrieve_bytes(buf, offset + 1) {
            Ok((s, e)) => {
                if validate_utf8(s.as_slice()) {
                    Ok((Value::Str(s), e))
                } else {
                    Err(DecodeError::BadUtf8)
                }
            },
            Err(er) => Err(er),
        },
        TypeTag::Bytes => match crate::wire::retrieve_bytes(buf, offset + 1) {
            Ok((s, e)) => Ok((Value::Bytes(s), e)),
            Err(er) => Err(er),
        },
        TypeTag::Other => match crate::wire::retrieve_bytes(buf, offset + 1) {
            Ok((s, e)) => Ok((Value::Opaque(s), e)),
            Err(er) => Err(er),
        },
        TypeTag::Array(k) => match retrieve_array_dyn(k, buf, offset + 1) {
            Ok((v, e)) => Ok((v, e)),
            Err(er) => Err(er),
        },
        TypeTag::List => match crate::wire::retrieve_usize(buf, offset + 1) {
            Ok((n, o2)) => match retrieve_dyn_items(buf, o2, n) {
                Ok((vs, e)) => Ok((Value::List(vs), e)),
                Err(er) => Err(er),
            },
            Err(er) => Err(er),
        },
        TypeTag::SetOf => match crate::wire::retrieve_usize(buf, offset + 1) {
            Ok((n, o2)) => match retrieve_dyn_items(buf, o2, n) {
                Ok((vs, e)) => Ok((Value::SetOf(vs), e)),
                Err(er) => Err(er),
            },
            Err(er) => Err(er),
        },
        TypeTag::Tuple => match crate::wire::retrieve_usize(buf, offset + 1) {
            Ok((n, o2)) => match retrieve_dyn_items(buf, o2, n) {
                Ok((vs, e)) => Ok((Value::Tuple(vs), e)),
                Err(er) => Err(er),
            },
            Err(er) => Err(er),
        },
        TypeTag::Dict => match crate::wire::retrieve_usize(buf, offset + 1) {
            Ok((n, o2)) => match retrieve_dyn_pairs(buf, o2, n) {
                Ok((ps, e)) => Ok((Value::Dict(ps), e)),
                Err(er) => Err(er),
            },
            Err(er) => Err(er),
        },
    }
}

} // verus!

verus! {

/// The height of a codec configuration tree, the measure that decode
/// recursion descends on.
pub open spec fn cheight(c: CodecModel) -> nat
    decreases c, 1int, 0int,
{
    match c {
        CodecModel::List(ci) => 1 + cheight(*ci),
        CodecModel::SetOf(ci) => 1 + cheight(*ci),
        CodecModel::Optional(ci) => 1 + cheight(*ci),
        CodecModel::Dict(ck, cv) => 1 + cheight(*ck) + cheight(*cv),
        CodecModel::Tuple(cs) => 1 + cheight_sum(cs),
        CodecModel::Union(opts) => 1 + cheight_sum(opts),
        CodecModel::Record { strategy, fields } => 1 + cheight_fsum(fields),
        CodecModel::TypedDict(fields) => 1 + cheight_fsum(fields),
        _ => 0,
    }
}

/// The summed height of a run of codecs.
pub open spec fn cheight_sum(cs: Seq<CodecModel>) -> nat
    decreases cs, 2int, 0int,
{
    if cs.len() == 0 {
        0
    } else {
        cheight(cs[0]) + cheight_sum(cs.drop_first())
    }
}

/// The summed height of a run of named child codecs.
pub open spec fn cheight_fsum(fields: Seq<(Seq<u8>, CodecModel)>) -> nat
    decreases fields, 2int, 0int,
{
    if fields.len() == 0 {
        0
    } else {
        cheight(fields[0].1) + cheight_fsum(fields.drop_first())
    }
}

/// Every codec of a run stands at or below the run's summed height.
pub proof fn lemma_cheight_sum(cs: Seq<CodecModel>)
    ensures
        forall|i: int| 0 <= i < cs.len() ==> cheight(#[trigger] cs[i]) <= cheight_sum(cs),
    decreases cs.len(),
{
    if cs.len() > 0 {
        lemma_cheight_sum(cs.drop_first());
        assert forall|i: int| 0 <= i < cs.len() implies cheight(#[trigger] cs[i]) <= cheight_sum(
            cs,
        ) by {
            if i > 0 {
                assert(cs.drop_first()[i - 1] == cs[i]);
                assert(cheight(cs.drop_first()[i - 1]) <= cheight_sum(cs.drop_first()));
            }
        }
    }
}

/// Every named child of a run stands at or below the run's summed height.
pub proof fn lemma_cheight_fsum(fields: Seq<(Seq<u8>, CodecModel)>)
    ensures
        forall|i: int|
            0 <= i < fields.len() ==> cheight((#[trigger] fields[i]).1) <= cheight_fsum(fields),
    decreases fields.len(),
{
    if fields.len() > 0 {
        lemma_cheight_fsum(fields.drop_first());
        assert forall|i: int| 0 <= i < fields.len() implies cheight((#[trigger] fields[i]).1)
            <= cheight_fsum(fields) by {
            if i > 0 {
                assert(fields.drop_first()[i - 1] == fields[i]);
                assert(cheight(fields.drop_first()[i - 1].1) <= cheight_fsum(
                    fields.drop_first(),
                ));
            }
        }
    }
}

} // verus!

verus! {

/// Reads `n` elements under one item codec starting at `start`.
fn retrieve_items(ci: &mut Codec, n: usize, buf: &Vec<u8>, start: usize) -> (r: Result<
    (Vec<Value>, usize),
    DecodeError,
>)
    requires
        old(ci).inv(),
        start <= buf@.len(),
    ensures
        final(ci).inv(),
        final(ci)@ == old(ci)@,
        match r {
            Ok((vs, end)) => start <= end <= buf@.len() && dec_items(
                old(ci)@,
                n as int,
                buf@,
                start as int,
            ) == Ok::<(Seq<ValueModel>, int), DecodeError>((views_of(vs@), end as int)),
            Err(e) => dec_items(old(ci)@, n as int, buf@, start as int) == Err::<
                (Seq<ValueModel>, int),
                DecodeError,
            >(e),
        },
    decreases 2 * cheight(old(ci)@) + 1, 0int, n,
{
    if n == 0 {
        let vs: Vec<Value> = Vec::new();
        proof {
            assert(views_of(vs@) =~= Seq::<ValueModel>::empty());
        }
        return Ok((vs, start));
    }
    match ci.retrieve(buf, start) {
        Err(e) => Err(e),
        Ok((v, e2)) => {
            match retrieve_items(ci, n - 1, buf, e2) {
                Err(e) => Err(e),
                Ok((rest, end)) => {
                    let ghost rest0 = rest@;
                    let ghost v0 = v@;
                    let mut vs = rest;
                    vs.insert(0, v);
                    proof {
                        assert(vs@ =~= seq![v] + rest0);
                        assert((seq![v] + rest0)[0] == v);
                        assert((seq![v] + rest0).drop_first() =~= rest0);
                        assert(views_of(vs@) == seq![v0] + views_of(rest0));
                    }
                    Ok((vs, end))
                },
            }
        },
    }
}

/// Reads one element per positional codec, from `idx` on.
fn retrieve_zip(cs: &mut Vec<Codec>, idx: usize, buf: &Vec<u8>, start: usize) -> (r: Result<
    (Vec<Value>, usize),
    DecodeError,
>)
    requires
        codecs_inv(old(cs)@),
        idx <= old(cs)@.len(),
        start <= buf@.len(),
    ensures
        codecs_inv(final(cs)@),
        codec_views_of(final(cs)@) == codec_views_of(old(cs)@),
        final(cs)@.len() == old(cs)@.len(),
        match r {
            Ok((vs, end)) => start <= end <= buf@.len() && dec_zip(
                codec_views_of(old(cs)@).skip(idx as int),
                buf@,
                start as int,
            ) == Ok::<(Seq<ValueModel>, int), DecodeError>((views_of(vs@), end as int)),
            Err(e) => dec_zip(codec_views_of(old(cs)@).skip(idx as int), buf@, start as int)
                == Err::<(Seq<ValueModel>, int), DecodeError>(e),
        },
    decreases 2 * cheight_sum(codec_views_of(old(cs)@)) + 1, 0int, old(cs)@.len() - idx,
{
    let ghost csm = codec_views_of(cs@);
    proof {
        lemma_codec_views_of(cs@);
        lemma_codecs_inv(cs@);
        lemma_cheight_sum(csm);
    }
    if idx == cs.len() {
        let vs: Vec<Value> = Vec::new();
        proof {
            assert(csm.skip(idx as int) =~= Seq::<CodecModel>::empty());
            assert(views_of(vs@) =~= Seq::<ValueModel>::empty());
        }
        return Ok((vs, start));
    }
    proof {
        assert(csm.skip(idx as int)[0] == csm[idx as int]);
        assert(csm.skip(idx as int).drop_first() =~= csm.skip(idx as int + 1));
        assert(cs@[idx as int].inv());
    }
    let ghost cs_before = cs@;
    let r0 = cs[idx].retrieve(buf, start);
    proof {
        lemma_codec_views_of(cs@);
        assert forall|k: int| 0 <= k < cs@.len() implies codec_views_of(cs@)[k] == csm[k] by {
            if k != idx {
                assert(cs@[k] == cs_before[k]);
            }
        }
        assert(codec_views_of(cs@) =~= csm);
        lemma_codecs_inv(cs@);
        assert forall|k: int| 0 <= k < cs@.len() implies (#[trigger] cs@[k]).inv() by {
            if k != idx {
                assert(cs@[k] == cs_before[k]);
            }
        }
    }
    match r0 {
        Err(e) => Err(e),
        Ok((v, e2)) => {
            match retrieve_zip(cs, idx + 1, buf, e2) {
                Err(e) => Err(e),
                Ok((rest, end)) => {
                    let ghost rest0 = rest@;
                    let ghost v0 = v@;
                    let mut vs = rest;
                    vs.insert(0, v);
                    proof {
                        assert(vs@ =~= seq![v] + rest0);
                        assert((seq![v] + rest0)[0] == v);
                        assert((seq![v] + rest0).drop_first() =~= rest0);
                        assert(views_of(vs@) == seq![v0] + views_of(rest0));
                    }
                    Ok((vs, end))
                },
            }
        },
    }
}

/// Reads `n` key-value pairs under the key and value codecs starting at
/// `start`, exactly as the dict codec they belong to says.
fn retrieve_pairs(
    ck: &mut Codec,
    cv: &mut Codec,
    n: usize,
    buf: &Vec<u8>,
    start: usize,
) -> (r: Result<(Vec<(Value, Value)>, usize), DecodeError>)
    requires
        old(ck).inv(),
        old(cv).inv(),
        start <= buf@.len(),
    ensures
        final(ck).inv(),
        final(cv).inv(),
        final(ck)@ == old(ck)@,
        final(cv)@ == old(cv)@,
        match r {
            Ok((ps, end)) => start <= end <= buf@.len() && dec_pairs(
                CodecModel::Dict(Box::new(old(ck)@), Box::new(old(cv)@)),
                n as int,
                buf@,
                start as int,
            ) == Ok::<(Seq<(ValueModel, ValueModel)>, int), DecodeError>((
                pair_views_of(ps@),
                end as int,
            )),
            Err(e) => dec_pairs(
                CodecModel::Dict(Box::new(old(ck)@), Box::new(old(cv)@)),
                n as int,
                buf@,
                start as int,
            ) == Err::<(Seq<(ValueModel, ValueModel)>, int), DecodeError>(e),
        },
    decreases 2 * (cheight(old(ck)@) + cheight(old(cv)@)) + 1, 0int, n,
{
    let ghost c0 = CodecModel::Dict(Box::new((*ck)@), Box::new((*cv)@));
    if n == 0 {
        let ps: Vec<(Value, Value)> = Vec::new();
        proof {
            assert(pair_views_of(ps@) =~= Seq::<(ValueModel, ValueModel)>::empty());
        }
        return Ok((ps, start));
    }
    match ck.retrieve(buf, start) {
        Err(e) => Err(e),
        Ok((kitem, e2)) => {
            match cv.retrieve(buf, e2) {
                Err(e) => Err(e),
                Ok((vitem, e3)) => {
                    match retrieve_pairs(ck, cv, n - 1, buf, e3) {
                        Err(e) => Err(e),
                        Ok((rest, end)) => {
                            let ghost rest0 = rest@;
                            let ghost k0 = kitem@;
                            let ghost w0 = vitem@;
                            let mut ps = rest;
                            ps.insert(0, (kitem, vitem));
                            proof {
                                assert(ps@ =~= seq![(kitem, vitem)] + rest0);
                                assert((seq![(kitem, vitem)] + rest0)[0] == (kitem, vitem));
                                assert((seq![(kitem, vitem)] + rest0).drop_first() =~= rest0);
                                assert(pair_views_of(ps@) == seq![(k0, w0)] + pair_views_of(
                                    rest0,
                                ));
                            }
                            Ok((ps, end))
                        },
                    }
                },
            }
        },
    }
}

/// Reads a record's fields, from `idx` on: each declared name paired with
/// its decoded value.
fn retrieve_fields(
    fields: &mut Vec<(Vec<u8>, Codec)>,
    idx: usize,
    buf: &Vec<u8>,
    start: usize,
) -> (r: Result<(Vec<(Vec<u8>, Value)>, usize), DecodeError>)
    requires
        codec_fields_inv(old(fields)@),
        idx <= old(fields)@.len(),
        start <= buf@.len(),
    ensures
        codec_fields_inv(final(fields)@),
        codec_field_views_of(final(fields)@) == codec_field_views_of(old(fields)@),
        final(fields)@.len() == old(fields)@.len(),
        match r {
            Ok((vfs, end)) => start <= end <= buf@.len() && dec_fields(
                codec_field_views_of(old(fields)@).skip(idx as int),
                buf@,
                start as int,
            ) == Ok::<(Seq<(Seq<u8>, ValueModel)>, int), DecodeError>((
                field_views_of(vfs@),
                end as int,
            )),
            Err(e) => dec_fields(
                codec_field_views_of(old(fields)@).skip(idx as int),
                buf@,
                start as int,
            ) == Err::<(Seq<(Seq<u8>, ValueModel)>, int), DecodeError>(e),
        },
    decreases 2 * cheight_fsum(codec_field_views_of(old(fields)@)) + 1, 0int, old(
        fields,
    )@.len() - idx,
{
    let ghost fm = codec_field_views_of(fields@);
    proof {
        lemma_codec_field_views_of(fields@);
        lemma_codec_fields_inv(fields@);
        lemma_cheight_fsum(fm);
    }
    if idx == fields.len() {
        let vfs: Vec<(Vec<u8>, Value)> = Vec::new();
        proof {
            assert(fm.skip(idx as int) =~= Seq::<(Seq<u8>, CodecModel)>::empty());
            assert(field_views_of(vfs@) =~= Seq::<(Seq<u8>, ValueModel)>::empty());
        }
        return Ok((vfs, start));
    }
    proof {
        assert(fm.skip(idx as int)[0] == fm[idx as int]);
        assert(fm.skip(idx as int).drop_first() =~= fm.skip(idx as int + 1));
        assert(fields@[idx as int].1.inv());
    }
    let name = crate::value::copy_bytes(&fields[idx].0);
    let ghost fields_before = fields@;
    let r0 = fields[idx].1.retrieve(buf, start);
    proof {
        lemma_codec_field_views_of(fields@);
        assert forall|k: int| 0 <= k < fields@.len() implies codec_field_views_of(fields@)[k]
            == fm[k] by {
            if k != idx {
                assert(fields@[k] == fields_before[k]);
            } else {
                assert(fields@[k].0 == fields_before[k].0);
            }
        }
        assert(codec_field_views_of(fields@) =~= fm);
        lemma_codec_fields_inv(fields@);
        assert forall|k: int| 0 <= k < fields@.len() implies (#[trigger] fields@[k]).1.inv() by {
            if k != idx {
                assert(fields@[k] == fields_before[k]);
            }
        }
    }
    match r0 {
        Err(e) => Err(e),
        Ok((v, e2)) => {
            match retrieve_fields(fields, idx + 1, buf, e2) {
                Err(e) => Err(e),
                Ok((rest, end)) => {
                    let ghost rest0 = rest@;
                    let ghost v0 = v@;
                    let ghost nm0 = name@;
                    let mut vfs = rest;
                    vfs.insert(0, (name, v));
                    proof {
                        assert(vfs@ =~= seq![(name, v)] + rest0);
                        assert((seq![(name, v)] + rest0)[0] == (name, v));
                        assert((seq![(name, v)] + rest0).drop_first() =~= rest0);
                        assert(field_views_of(vfs@) == seq![(nm0, v0)] + field_views_of(rest0));
                        assert(nm0 == fm[idx as int].0);
                    }
                    Ok((vfs, end))
                },
            }
        },
    }
}

/// Reads a keyed dict's values, from `idx` on: each declared key as a
/// string, paired with its decoded value.
fn retrieve_keyed(
    fields: &mut Vec<(Vec<u8>, Codec)>,
    idx: usize,
    buf: &Vec<u8>,
    start: usize,
) -> (r: Result<(Vec<(Value, Value)>, usize), DecodeError>)
    requires
        codec_fields_inv(old(fields)@),
        idx <= old(fields)@.len(),
        start <= buf@.len(),
    ensures
        codec_fields_inv(final(fields)@),
        codec_field_views_of(final(fields)@) == codec_field_views_of(old(fields)@),
        final(fields)@.len() == old(fields)@.len(),
        match r {
            Ok((ps, end)) => start <= end <= buf@.len() && dec_keyed(
                codec_field_views_of(old(fields)@).skip(idx as int),
                buf@,
                start as int,
            ) == Ok::<(Seq<(ValueModel, ValueModel)>, int), DecodeError>((
                pair_views_of(ps@),
                end as int,
            )),
            Err(e) => dec_keyed(
                codec_field_views_of(old(fields)@).skip(idx as int),
                buf@,
                start as int,
            ) == Err::<(Seq<(ValueModel, ValueModel)>, int), DecodeError>(e),
        },
    decreases 2 * cheight_fsum(codec_field_views_of(old(fields)@)) + 1, 0int, old(
        fields,
    )@.len() - idx,
{
    let ghost fm = codec_field_views_of(fields@);
    proof {
        lemma_codec_field_views_of(fields@);
        lemma_codec_fields_inv(fields@);
        lemma_cheight_fsum(fm);
    }
    if idx == fields.len() {
        let ps: Vec<(Value, Value)> = Vec::new();
        proof {
            assert(fm.skip(idx as int) =~= Seq::<(Seq<u8>, CodecModel)>::empty());
            assert(pair_views_of(ps@) =~= Seq::<(ValueModel, ValueModel)>::empty());
        }
        return Ok((ps, start));
    }
    proof {
        assert(fm.skip(idx as int)[0] == fm[idx as int]);
        assert(fm.skip(idx as int).drop_first() =~= fm.skip(idx as int + 1));
        assert(fields@[idx as int].1.inv());
    }
    let name = crate::value::copy_bytes(&fields[idx].0);
    let key = Value::Str(name);
    let ghost fields_before = fields@;
    let r0 = fields[idx].1.retrieve(buf, start);
    proof {
        lemma_codec_field_views_of(fields@);
        assert forall|k: int| 0 <= k < fields@.len() implies codec_field_views_of(fields@)[k]
            == fm[k] by {
            if k != idx {
                assert(fields@[k] == fields_before[k]);
            } else {
                assert(fields@[k].0 == fields_before[k].0);
            }
        }
        assert(codec_field_views_of(fields@) =~= fm);
        lemma_codec_fields_inv(fields@);
        assert forall|k: int| 0 <= k < fields@.len() implies (#[trigger] fields@[k]).1.inv() by {
            if k != idx {
                assert(fields@[k] == fields_before[k]);
            }
        }
    }
    match r0 {
        Err(e) => Err(e),
        Ok((v, e2)) => {
            match retrieve_keyed(fields, idx + 1, buf, e2) {
                Err(e) => Err(e),
                Ok((rest, end)) => {
                    let ghost rest0 = rest@;
                    let ghost v0 = v@;
                    let ghost key0 = key@;
                    let mut ps = rest;
                    ps.insert(0, (key, v));
                    proof {
                        assert(ps@ =~= seq![(key, v)] + rest0);
                        assert((seq![(key, v)] + rest0)[0] == (key, v));
                        assert((seq![(key, v)] + rest0).drop_first() =~= rest0);
                        assert(pair_views_of(ps@) == seq![(key0, v0)] + pair_views_of(rest0));
                        assert(key0 == ValueModel::Str(fm[idx as int].0));
                    }
                    Ok((ps, end))
                },
            }
        },
    }
}

} // verus!

verus! {

impl Codec {
    /// Reads one value at `offset`, exactly as `dec` says, advancing the
    /// cursor by the bytes consumed.  The codec's configuration never
    /// changes; only a fixed-shape array codec's pool contents may.
    pub fn retrieve(&mut self, buf: &Vec<u8>, offset: usize) -> (r: Result<
        (Value, usize),
        DecodeError,
    >)
        requires
            old(self).inv(),
            offset <= buf@.len(),
        ensures
            final(self).inv(),
            final(self)@ == old(self)@,
            match r {
                Ok((v, end)) => offset <= end <= buf@.len() && dec(
                    old(self)@,
                    buf@,
                    offset as int,
                ) == Ok::<(ValueModel, int), DecodeError>((v@, end as int)),
                Err(e) => dec(old(self)@, buf@, offset as int) == Err::<
                    (ValueModel, int),
                    DecodeError,
                >(e),
            },
        decreases 2 * cheight(old(self)@), 0int, 0int,
    {
        match self {
            Codec::Bool => match crate::wire::retrieve_bool(buf, offset) {
                Ok((x, e)) => Ok((Value::Bool(x), e)),
                Err(er) => Err(er),
            },
            Codec::Int => match crate::wire::retrieve_i64(buf, offset) {
                Ok((x, e)) => Ok((Value::Int(x), e)),
                Err(er) => Err(er),
            },
            Codec::Float => match crate::wire::retrieve_u64(buf, offset) {
                Ok((x, e)) => Ok((Value::Float(x), e)),
                Err(er) => Err(er),
            },
            Codec::Complex => match crate::wire::retrieve_u64(buf, offset) {
                Ok((re, e1)) => match crate::wire::retrieve_u64(buf, e1) {
                    Ok((im, e2)) => Ok((Value::Complex(re, im), e2)),
                    Err(er) => Err(er),
                },
                Err(er) => Err(er),
            },
            Codec::Str => match crate::wire::retrieve_bytes(buf, offset) {
                Ok((s, e)) => {
                    if validate_utf8(s.as_slice()) {
                        Ok((Value::Str(s), e))
                    } else {
                        Err(DecodeError::BadUtf8)
                    }
                },
                Err(er) => Err(er),
            },
            Codec::Bytes => match crate::wire::retrieve_bytes(buf, offset) {
                Ok((s, e)) => Ok((Value::Bytes(s), e)),
                Err(er) => Err(er),
            },
            Codec::Pickle => match crate::wire::retrieve_bytes(buf, offset) {
                Ok((s, e)) => Ok((Value::Opaque(s), e)),
                Err(er) => Err(er),
            },
            Codec::Dynamic => match retrieve_dyn(buf, offset) {
                Ok((v, e)) => Ok((v, e)),
                Err(er) => Err(er),
            },
            Codec::List(ci) => {
                proof {
                    assert(old(self)@ == CodecModel::List(Box::new((**ci)@)));
                    assert(cheight(old(self)@) == 1 + cheight((**ci)@));
                }
                match crate::wire::retrieve_usize(buf, offset) {
                    Err(e) => Err(e),
                    Ok((n, o2)) => {
                        match retrieve_items(ci, n, buf, o2) {
                            Err(e) => Err(e),
                            Ok((vs, end)) => Ok((Value::List(vs), end)),
                        }
                    },
                }
            },
            Codec::SetOf(ci) => {
                proof {
                    assert(old(self)@ == CodecModel::SetOf(Box::new((**ci)@)));
                    assert(cheight(old(self)@) == 1 + cheight((**ci)@));
                }
                match crate::wire::retrieve_usize(buf, offset) {
                    Err(e) => Err(e),
                    Ok((n, o2)) => {
                        match retrieve_items(ci, n, buf, o2) {
                            Err(e) => Err(e),
                            Ok((vs, end)) => Ok((Value::SetOf(vs), end)),
                        }
                    },
                }
            },
            Codec::Tuple(cs) => {
                let ghost csm = codec_views_of(cs@);
                proof {
                    assert(old(self)@ == CodecModel::Tuple(csm));
                    assert(cheight(old(self)@) == 1 + cheight_sum(csm));
                    assert(csm.skip(0) =~= csm);
                }
                match retrieve_zip(cs, 0, buf, offset) {
                    Err(e) => Err(e),
                    Ok((vs, end)) => Ok((Value::Tuple(vs), end)),
                }
            },
            Codec::Dict(ck, cv) => {
                proof {
                    assert(old(self)@ == CodecModel::Dict(
                        Box::new((**ck)@),
                        Box::new((**cv)@),
                    ));
                    assert(cheight(old(self)@) == 1 + cheight((**ck)@) + cheight((**cv)@));
                }
                match crate::wire::retrieve_usize(buf, offset) {
                    Err(e) => Err(e),
                    Ok((n, o2)) => {
                        match retrieve_pairs(ck, cv, n, buf, o2) {
                            Err(e) => Err(e),
                            Ok((ps, end)) => Ok((Value::Dict(ps), end)),
                        }
                    },
                }
            },
            Codec::Optional(ci) => {
                proof {
                    assert(old(self)@ == CodecModel::Optional(Box::new((**ci)@)));
                    assert(cheight(old(self)@) == 1 + cheight((**ci)@));
                }
                match crate::wire::retrieve_bool(buf, offset) {
                    Ok((present, o2)) => {
                        if present {
                            match ci.retrieve(buf, o2) {
                                Ok((v, e)) => Ok((v, e)),
                                Err(er) => Err(er),
                            }
                        } else {
                            Ok((Value::Null, o2))
                        }
                    },
                    Err(er) => Err(er),
                }
            },
            Codec::Record { strategy, fields } => {
                let ghost fm = codec_field_views_of(fields@);
                proof {
                    assert(old(self)@ == (CodecModel::Record {
                        strategy: strategy@,
                        fields: fm,
                    }));
                    assert(cheight(old(self)@) == 1 + cheight_fsum(fm));
                    assert(fm.skip(0) =~= fm);
                }
                match retrieve_fields(fields, 0, buf, offset) {
                    Err(e) => Err(e),
                    Ok((vfs, end)) => Ok((Value::Record(vfs), end)),
                }
            },
            Codec::TypedDict(fields) => {
                let ghost fm = codec_field_views_of(fields@);
                proof {
                    assert(old(self)@ == CodecModel::TypedDict(fm));
                    assert(cheight(old(self)@) == 1 + cheight_fsum(fm));
                    assert(fm.skip(0) =~= fm);
                }
                match retrieve_keyed(fields, 0, buf, offset) {
                    Err(e) => Err(e),
                    Ok((ps, end)) => Ok((Value::Dict(ps), end)),
                }
            },
            Codec::Union(opts) => {
                let ghost om = codec_views_of(opts@);
                proof {
                    lemma_codec_views_of(opts@);
                    lemma_codecs_inv(opts@);
                    assert(old(self)@ == CodecModel::Union(om));
                    assert(cheight(old(self)@) == 1 + cheight_sum(om));
                    lemma_cheight_sum(om);
                }
                let (idx, o2) = match crate::wire::retrieve_u64(buf, offset) {
                    Ok(p) => p,
                    Err(e) => {
                        return Err(e);
                    },
                };
                if idx >= opts.len() as u64 {
                    return Err(DecodeError::BadIndex(idx));
                }
                let iu = idx as usize;
                proof {
                    assert(opts@[iu as int].inv());
                    lemma_dec_nth(om, iu as int, buf@, o2 as int);
                }
                let ghost opts_before = opts@;
                let r0 = opts[iu].retrieve(buf, o2);
                proof {
                    lemma_codec_views_of(opts@);
                    assert forall|k: int| 0 <= k < opts@.len() implies codec_views_of(opts@)[k]
                        == om[k] by {
                        if k != iu {
                            assert(opts@[k] == opts_before[k]);
                        }
                    }
                    assert(codec_views_of(opts@) =~= om);
                    lemma_codecs_inv(opts@);
                    assert forall|k: int| 0 <= k < opts@.len() implies (
                    #[trigger] opts@[k]).inv() by {
                        if k != iu {
                            assert(opts@[k] == opts_before[k]);
                        }
                    }
                }
                match r0 {
                    Ok((v, e)) => Ok((v, e)),
                    Err(er) => Err(er),
                }
            },
            Codec::ArrayDyn(k) => match retrieve_array_dyn(*k, buf, offset) {
                Ok((v, e)) => Ok((v, e)),
                Err(er) => Err(er),
            },
            Codec::ArrayFixed { kind, shape, pool } => {
                let size = elem_size(*kind);
                let pad = crate::wire::bytes_to_alignment(offset, size);
                if buf.len() - offset < pad {
                    return Err(DecodeError::TooShort);
                }
                match crate::wire::retrieve_bytes(buf, offset + pad) {
                    Err(e) => Err(e),
                    Ok((data, end)) => {
                        let frame = pool.frame;
                        if data.len() != frame {
                            return Err(DecodeError::BadShape);
                        }
                        let out = pool.acquire(&data);
                        let vshape = crate::value::copy_shape(shape);
                        let av = ArrayValue { kind: *kind, shape: vshape, data: out };
                        proof {
                            assert(av@ =~= ArrayModel {
                                kind: *kind,
                                shape: shape@,
                                data: data@,
                            });
                        }
                        Ok((Value::Array(av), end))
                    },
                }
            },
        }
    }
}

} // verus!

verus! {

/// Union index integrity: a stored option index at or beyond the option
/// count fails the decode with the out-of-range index, before any option
/// is consulted — the stream is treated as corrupt, never clamped.  The
/// decode's result is fixed by the buffer alone, and `retrieve` keeps the
/// codec's configuration unchanged on every error.
pub proof fn lemma_union_index_integrity(opts: Seq<CodecModel>, b: Seq<u8>, off: int)
    requires
        ({
            match dec_u64(b, off) {
                Ok((idx, _)) => idx as int >= opts.len(),
                Err(_) => false,
            }
        }),
    ensures
        ({
            match dec_u64(b, off) {
                Ok((idx, _)) => dec(CodecModel::Union(opts), b, off) == Err::<
                    (ValueModel, int),
                    DecodeError,
                >(DecodeError::BadIndex(idx)),
                Err(_) => false,
            }
        }),
{
}

} // verus!

verus! {

// ---------------------------------------------------------------------
// Appending into a growable buffer.
// ---------------------------------------------------------------------

/// Appends `n` zero-valued padding bytes at the end of a growing buffer.
fn push_zeros(v: &mut Vec<u8>, n: usize)
    ensures
        final(v)@ == old(v)@ + zeros(n as int),
{
    let mut i: usize = 0;
    while i < n
        invariant
            0 <= i <= n,
            v@ == old(v)@ + zeros(i as int),
        decreases n - i,
    {
        v.push(0u8);
        assert(v@ =~= old(v)@ + zeros(i + 1));
        i = i + 1;
    }
}

/// Appends each dimension of a shape at the end of a growing buffer,
/// from `idx` on.
fn push_dims(shape: &Vec<usize>, idx: usize, v: &mut Vec<u8>)
    requires
        idx <= shape@.len(),
    ensures
        final(v)@ == old(v)@ + enc_shape(shape@.skip(idx as int)),
    decreases shape@.len() - idx,
{
    let ghost sk = shape@.skip(idx as int);
    if idx == shape.len() {
        assert(sk =~= Seq::<usize>::empty());
        assert(v@ =~= v@ + enc_shape(sk));
        return ;
    }
    proof {
        assert(sk[0] == shape@[idx as int]);
        assert(sk.drop_first() =~= shape@.skip(idx as int + 1));
    }
    let ghost before = v@;
    crate::wire::push_u64(v, shape[idx] as u64);
    push_dims(shape, idx + 1, v);
    proof {
        assert(enc_shape(sk) == enc_u64(sk[0] as u64) + enc_shape(sk.drop_first()));
        assert(v@ =~= before + enc_shape(sk));
    }
}

/// Appends a dynamic-shape array encoding at the end of a growing
/// buffer.
fn push_array_dyn(a: &ArrayValue, v: &mut Vec<u8>)
    requires
        crate::value::wf_array(a@),
    ensures
        final(v)@ == old(v)@ + arr_dyn_enc(a@, old(v)@.len() as int),
{
    proof {
        vstd::bytes::lemma_auto_spec_u64_to_from_le_bytes();
        crate::codec::lemma_enc_shape_len(a.shape@);
    }
    let ghost before = v@;
    let ghost off = before.len() as int;
    crate::wire::push_u64(v, a.shape.len() as u64);
    assert(a.shape@.skip(0) =~= a.shape@);
    push_dims(&a.shape, 0, v);
    let size = elem_size(a.kind);
    let pad = crate::wire::bytes_to_alignment(v.len(), size);
    push_zeros(v, pad);
    crate::wire::push_bytes(v, a.data.as_slice());
    proof {
        let head = enc_u64(a.shape@.len() as u64) + enc_shape(a.shape@);
        let padlen = crate::wire::pad_to(off + head.len(), spec_elem_size(a.kind));
        assert(arr_dyn_enc(a@, off) == head + zeros(padlen) + enc_bytes(a.data@));
        assert(v@ =~= before + arr_dyn_enc(a@, off));
    }
}

/// Appends the elements of a run at the end of a growing buffer, from
/// `idx` on.
fn push_items(ci: &Codec, items: &Vec<Value>, idx: usize, v: &mut Vec<u8>)
    requires
        idx <= items@.len(),
        accepts_items(ci@, views_of(items@).skip(idx as int)),
    ensures
        final(v)@ == old(v)@ + enc_items(
            ci@,
            views_of(items@).skip(idx as int),
            old(v)@.len() as int,
        ),
    decreases ci, 2int, items@.len() - idx,
{
    proof {
        crate::value::lemma_views_of(items@);
    }
    let ghost sk = views_of(items@).skip(idx as int);
    if idx == items.len() {
        assert(sk =~= Seq::<ValueModel>::empty());
        assert(v@ =~= v@ + enc_items(ci@, sk, v@.len() as int));
        return ;
    }
    proof {
        assert(sk[0] == views_of(items@)[idx as int]);
        assert(sk[0] == items@[idx as int]@);
        assert(sk.drop_first() =~= views_of(items@).skip(idx as int + 1));
    }
    let ghost before = v@;
    ci.append_vec_raw(v, &items[idx]);
    push_items(ci, items, idx + 1, v);
    proof {
        let off = before.len() as int;
        let head = enc(ci@, items@[idx as int]@, off);
        assert(enc_items(ci@, sk, off) == head + enc_items(
            ci@,
            sk.drop_first(),
            off + head.len(),
        ));
        assert(v@ =~= before + enc_items(ci@, sk, off));
    }
}

/// Appends one element per positional codec at the end of a growing
/// buffer, from `idx` on.
fn push_zip(cs: &Vec<Codec>, items: &Vec<Value>, idx: usize, v: &mut Vec<u8>)
    requires
        cs@.len() == items@.len(),
        idx <= cs@.len(),
        accepts_zip(codec_views_of(cs@).skip(idx as int), views_of(items@).skip(idx as int)),
    ensures
        final(v)@ == old(v)@ + enc_zip(
            codec_views_of(cs@).skip(idx as int),
            views_of(items@).skip(idx as int),
            old(v)@.len() as int,
        ),
    decreases cs, 1int, cs@.len() - idx,
{
    proof {
        crate::value::lemma_views_of(items@);
        lemma_codec_views_of(cs@);
    }
    let ghost csk = codec_views_of(cs@).skip(idx as int);
    let ghost vsk = views_of(items@).skip(idx as int);
    if idx == cs.len() {
        assert(csk =~= Seq::<CodecModel>::empty());
        assert(v@ =~= v@ + enc_zip(csk, vsk, v@.len() as int));
        return ;
    }
    proof {
        assert(csk[0] == codec_views_of(cs@)[idx as int]);
        assert(csk[0] == cs@[idx as int]@);
        assert(vsk[0] == items@[idx as int]@);
        assert(csk.drop_first() =~= codec_views_of(cs@).skip(idx as int + 1));
        assert(vsk.drop_first() =~= views_of(items@).skip(idx as int + 1));
    }
    let ghost before = v@;
    cs[idx].append_vec_raw(v, &items[idx]);
    push_zip(cs, items, idx + 1, v);
    proof {
        let off = before.len() as int;
        let head = enc(cs@[idx as int]@, items@[idx as int]@, off);
        assert(enc_zip(csk, vsk, off) == head + enc_zip(
            csk.drop_first(),
            vsk.drop_first(),
            off + head.len(),
        ));
        assert(v@ =~= before + enc_zip(csk, vsk, off));
    }
}

/// Appends a record's field values at the end of a growing buffer, from
/// `idx` on.
fn push_fields(
    fields: &Vec<(Vec<u8>, Codec)>,
    vfields: &Vec<(Vec<u8>, Value)>,
    idx: usize,
    v: &mut Vec<u8>,
)
    requires
        fields@.len() == vfields@.len(),
        idx <= fields@.len(),
        accepts_fields(
            codec_field_views_of(fields@).skip(idx as int),
            field_views_of(vfields@).skip(idx as int),
        ),
    ensures
        final(v)@ == old(v)@ + enc_fields(
            codec_field_views_of(fields@).skip(idx as int),
            field_views_of(vfields@).skip(idx as int),
            old(v)@.len() as int,
        ),
    decreases fields, 1int, fields@.len() - idx,
{
    proof {
        crate::value::lemma_field_views_of(vfields@);
        lemma_codec_field_views_of(fields@);
    }
    let ghost csk = codec_field_views_of(fields@).skip(idx as int);
    let ghost vsk = field_views_of(vfields@).skip(idx as int);
    if idx == fields.len() {
        assert(csk =~= Seq::<(Seq<u8>, CodecModel)>::empty());
        assert(v@ =~= v@ + enc_fields(csk, vsk, v@.len() as int));
        return ;
    }
    proof {
        assert(csk[0] == codec_field_views_of(fields@)[idx as int]);
        assert(vsk[0] == field_views_of(vfields@)[idx as int]);
        assert(csk.drop_first() =~= codec_field_views_of(fields@).skip(idx as int + 1));
        assert(vsk.drop_first() =~= field_views_of(vfields@).skip(idx as int + 1));
    }
    let ghost before = v@;
    fields[idx].1.append_vec_raw(v, &vfields[idx].1);
    push_fields(fields, vfields, idx + 1, v);
    proof {
        let off = before.len() as int;
        let head = enc(fields@[idx as int].1@, vfields@[idx as int].1@, off);
        assert(enc_fields(csk, vsk, off) == head + enc_fields(
            csk.drop_first(),
            vsk.drop_first(),
            off + head.len(),
        ));
        assert(v@ =~= before + enc_fields(csk, vsk, off));
    }
}

/// Appends a keyed dict's values at the end of a growing buffer, from
/// `idx` on.
fn push_keyed(
    fields: &Vec<(Vec<u8>, Codec)>,
    pairs: &Vec<(Value, Value)>,
    idx: usize,
    v: &mut Vec<u8>,
)
    requires
        fields@.len() == pairs@.len(),
        idx <= fields@.len(),
        accepts_keyed(
            codec_field_views_of(fields@).skip(idx as int),
            pair_views_of(pairs@).skip(idx as int),
        ),
    ensures
        final(v)@ == old(v)@ + enc_keyed(
            codec_field_views_of(fields@).skip(idx as int),
            pair_views_of(pairs@).skip(idx as int),
            old(v)@.len() as int,
        ),
    decreases fields, 1int, fields@.len() - idx,
{
    proof {
        crate::value::lemma_pair_views_of(pairs@);
        lemma_codec_field_views_of(fields@);
    }
    let ghost csk = codec_field_views_of(fields@).skip(idx as int);
    let ghost vsk = pair_views_of(pairs@).skip(idx as int);
    if idx == fields.len() {
        assert(csk =~= Seq::<(Seq<u8>, CodecModel)>::empty());
        assert(v@ =~= v@ + enc_keyed(csk, vsk, v@.len() as int));
        return ;
    }
    proof {
        assert(csk[0] == codec_field_views_of(fields@)[idx as int]);
        assert(vsk[0] == pair_views_of(pairs@)[idx as int]);
        assert(csk.drop_first() =~= codec_field_views_of(fields@).skip(idx as int + 1));
        assert(vsk.drop_first() =~= pair_views_of(pairs@).skip(idx as int + 1));
    }
    let ghost before = v@;
    fields[idx].1.append_vec_raw(v, &pairs[idx].1);
    push_keyed(fields, pairs, idx + 1, v);
    proof {
        let off = before.len() as int;
        let head = enc(fields@[idx as int].1@, pairs@[idx as int].1@, off);
        assert(enc_keyed(csk, vsk, off) == head + enc_keyed(
            csk.drop_first(),
            vsk.drop_first(),
            off + head.len(),
        ));
        assert(v@ =~= before + enc_keyed(csk, vsk, off));
    }
}

/// Appends the dynamic encodings of a run at the end of a growing
/// buffer, from `idx` on.
fn push_dyn_items(items: &Vec<Value>, idx: usize, v: &mut Vec<u8>)
    requires
        idx <= items@.len(),
        dyn_accepts_items(views_of(items@).skip(idx as int)),
    ensures
        final(v)@ == old(v)@ + dyn_enc_items(
            views_of(items@).skip(idx as int),
            old(v)@.len() as int,
        ),
    decreases items, 2int, items@.len() - idx,
{
    proof {
        crate::value::lemma_views_of(items@);
    }
    let ghost sk = views_of(items@).skip(idx as int);
    if idx == items.len() {
        assert(sk =~= Seq::<ValueModel>::empty());
        assert(v@ =~= v@ + dyn_enc_items(sk, v@.len() as int));
        return ;
    }
    proof {
        assert(sk[0] == views_of(items@)[idx as int]);
        assert(sk[0] == items@[idx as int]@);
        assert(sk.drop_first() =~= views_of(items@).skip(idx as int + 1));
    }
    let ghost before = v@;
    push_dyn(&items[idx], v);
    push_dyn_items(items, idx + 1, v);
    proof {
        let off = before.len() as int;
        let head = dyn_enc(items@[idx as int]@, off);
        assert(dyn_enc_items(sk, off) == head + dyn_enc_items(
            sk.drop_first(),
            off + head.len(),
        ));
        assert(v@ =~= before + dyn_enc_items(sk, off));
    }
}

/// Appends the dynamic encodings of a run of pairs at the end of a
/// growing buffer, from `idx` on.
fn push_dyn_pairs(pairs: &Vec<(Value, Value)>, idx: usize, v: &mut Vec<u8>)
    requires
        idx <= pairs@.len(),
        dyn_accepts_pairs(pair_views_of(pairs@).skip(idx as int)),
    ensures
        final(v)@ == old(v)@ + dyn_enc_pairs(
            pair_views_of(pairs@).skip(idx as int),
            old(v)@.len() as int,
        ),
    decreases pairs, 2int, pairs@.len() - idx,
{
    proof {
        crate::value::lemma_pair_views_of(pairs@);
    }
    let ghost sk = pair_views_of(pairs@).skip(idx as int);
    if idx == pairs.len() {
        assert(sk =~= Seq::<(ValueModel, ValueModel)>::empty());
        assert(v@ =~= v@ + dyn_enc_pairs(sk, v@.len() as int));
        return ;
    }
    proof {
        assert(sk[0] == pair_views_of(pairs@)[idx as int]);
        assert(sk[0] == (pairs@[idx as int].0@, pairs@[idx as int].1@));
        assert(sk.drop_first() =~= pair_views_of(pairs@).skip(idx as int + 1));
    }
    let ghost before = v@;
    push_dyn(&pairs[idx].0, v);
    push_dyn(&pairs[idx].1, v);
    push_dyn_pairs(pairs, idx + 1, v);
    proof {
        let off = before.len() as int;
        let kh = dyn_enc(pairs@[idx as int].0@, off);
        let vh = dyn_enc(pairs@[idx as int].1@, off + kh.len());
        assert(dyn_enc_pairs(sk, off) == kh + vh + dyn_enc_pairs(
            sk.drop_first(),
            off + kh.len() + vh.len(),
        ));
        assert(v@ =~= before + dyn_enc_pairs(sk, off));
    }
}

/// Appends a value's dynamic encoding at the end of a growing buffer.
fn push_dyn(value: &Value, v: &mut Vec<u8>)
    requires
        dyn_accepts(value@),
    ensures
        final(v)@ == old(v)@ + dyn_enc(value@, old(v)@.len() as int),
    decreases value, 1int, 0int,
{
    proof {
        vstd::bytes::lemma_auto_spec_u64_to_from_le_bytes();
    }
    let ghost before = v@;
    let ghost off = before.len() as int;
    let ghost tag = seq![spec_tag_byte(spec_detect(value@))];
    let t = get_type_tag_byte(crate::tag::detect_type(value));
    crate::wire::push_byte(v, t);
    match value {
        Value::Bool(x) => {
            crate::wire::push_bool(v, *x);
            assert(v@ =~= before + dyn_enc(value@, off));
        },
        Value::Int(x) => {
            crate::wire::push_u64(v, *x as u64);
            assert(v@ =~= before + dyn_enc(value@, off));
        },
        Value::Float(x) => {
            crate::wire::push_u64(v, *x);
            assert(v@ =~= before + dyn_enc(value@, off));
        },
        Value::Complex(re, im) => {
            crate::wire::push_u64(v, *re);
            crate::wire::push_u64(v, *im);
            assert(v@ =~= before + dyn_enc(value@, off));
        },
        Value::Str(s) => {
            crate::wire::push_bytes(v, s.as_slice());
            assert(v@ =~= before + dyn_enc(value@, off));
        },
        Value::Bytes(s) => {
            crate::wire::push_bytes(v, s.as_slice());
            assert(v@ =~= before + dyn_enc(value@, off));
        },
        Value::Opaque(s) => {
            crate::wire::push_bytes(v, s.as_slice());
            assert(v@ =~= before + dyn_enc(value@, off));
        },
        Value::Array(a) => {
            push_array_dyn(a, v);
            assert(v@ =~= before + dyn_enc(value@, off));
        },
        Value::List(items) => {
            proof {
                crate::value::lemma_views_of(items@);
            }
            crate::wire::push_u64(v, items.len() as u64);
            assert(views_of(items@).skip(0) =~= views_of(items@));
            push_dyn_items(items, 0, v);
            assert(v@ =~= before + dyn_enc(value@, off));
        },
        Value::SetOf(items) => {
            proof {
                crate::value::lemma_views_of(items@);
            }
            crate::wire::push_u64(v, items.len() as u64);
            assert(views_of(items@).skip(0) =~= views_of(items@));
            push_dyn_items(items, 0, v);
            assert(v@ =~= before + dyn_enc(value@, off));
        },
        Value::Tuple(items) => {
            proof {
                crate::value::lemma_views_of(items@);
            }
            crate::wire::push_u64(v, items.len() as u64);
            assert(views_of(items@).skip(0) =~= views_of(items@));
            push_dyn_items(items, 0, v);
            assert(v@ =~= before + dyn_enc(value@, off));
        },
        Value::Dict(pairs) => {
            proof {
                crate::value::lemma_pair_views_of(pairs@);
            }
            crate::wire::push_u64(v, pairs.len() as u64);
            assert(pair_views_of(pairs@).skip(0) =~= pair_views_of(pairs@));
            push_dyn_pairs(pairs, 0, v);
            assert(v@ =~= before + dyn_enc(value@, off));
        },
        Value::Record(_) => {
            proof {
                assert(false);
            }
        },
        Value::Null => {
            proof {
                assert(false);
            }
        },
    }
}

impl Codec {
    /// Appends an accepted value's encoding at the end of a growing
    /// buffer.
    fn append_vec_raw(&self, v: &mut Vec<u8>, value: &Value)
        requires
            accepts(self@, value@),
        ensures
            final(v)@ == old(v)@ + enc(self@, value@, old(v)@.len() as int),
        decreases self, 1int, 0int,
    {
        proof {
            vstd::bytes::lemma_auto_spec_u64_to_from_le_bytes();
        }
        let ghost before = v@;
        let ghost off = before.len() as int;
        match self {
            Codec::Bool => {
                let x = match value {
                    Value::Bool(x) => *x,
                    _ => { unreached() },
                };
                crate::wire::push_bool(v, x);
            },
            Codec::Int => {
                let x = match value {
                    Value::Int(x) => *x,
                    _ => { unreached() },
                };
                crate::wire::push_u64(v, x as u64);
            },
            Codec::Float => {
                let x = match value {
                    Value::Float(x) => *x,
                    _ => { unreached() },
                };
                crate::wire::push_u64(v, x);
            },
            Codec::Complex => {
                let (re, im) = match value {
                    Value::Complex(re, im) => (*re, *im),
                    _ => { unreached() },
                };
                crate::wire::push_u64(v, re);
                crate::wire::push_u64(v, im);
                assert(v@ =~= before + enc(self@, value@, off));
            },
            Codec::Str => {
                let s = match value {
                    Value::Str(s) => s,
                    _ => { unreached() },
                };
                crate::wire::push_bytes(v, s.as_slice());
            },
            Codec::Bytes => {
                let s = match value {
                    Value::Bytes(s) => s,
                    _ => { unreached() },
                };
                crate::wire::push_bytes(v, s.as_slice());
            },
            Codec::Pickle => {
                let s = match value {
                    Value::Opaque(s) => s,
                    _ => { unreached() },
                };
                crate::wire::push_bytes(v, s.as_slice());
            },
            Codec::Dynamic => {
                push_dyn(value, v);
            },
            Codec::List(ci) => {
                let items = match value {
                    Value::List(items) => items,
                    _ => { unreached() },
                };
                proof {
                    crate::value::lemma_views_of(items@);
                }
                crate::wire::push_u64(v, items.len() as u64);
                assert(views_of(items@).skip(0) =~= views_of(items@));
                push_items(ci, items, 0, v);
                assert(v@ =~= before + enc(self@, value@, off));
            },
            Codec::SetOf(ci) => {
                let items = match value {
                    Value::SetOf(items) => items,
                    _ => { unreached() },
                };
                proof {
                    crate::value::lemma_views_of(items@);
                }
                crate::wire::push_u64(v, items.len() as u64);
                assert(views_of(items@).skip(0) =~= views_of(items@));
                push_items(ci, items, 0, v);
                assert(v@ =~= before + enc(self@, value@, off));
            },
            Codec::Tuple(cs) => {
                let items = match value {
                    Value::Tuple(items) => items,
                    _ => { unreached() },
                };
                proof {
                    crate::value::lemma_views_of(items@);
                    lemma_codec_views_of(cs@);
                    assert(codec_views_of(cs@).skip(0) =~= codec_views_of(cs@));
                    assert(views_of(items@).skip(0) =~= views_of(items@));
                }
                push_zip(cs, items, 0, v);
            },
            Codec::Dict(ck, cv) => {
                let pairs = match value {
                    Value::Dict(pairs) => pairs,
                    _ => { unreached() },
                };
                proof {
                    crate::value::lemma_pair_views_of(pairs@);
                }
                crate::wire::push_u64(v, pairs.len() as u64);
                assert(pair_views_of(pairs@).skip(0) =~= pair_views_of(pairs@));
                self.push_pairs(pairs, 0, v);
                assert(v@ =~= before + enc(self@, value@, off));
            },
            Codec::Optional(ci) => {
                match value {
                    Value::Null => {
                        crate::wire::push_bool(v, false);
                    },
                    _ => {
                        assert(!(value@ is Null));
                        crate::wire::push_bool(v, true);
                        ci.append_vec_raw(v, value);
                        assert(v@ =~= before + enc(self@, value@, off));
                    },
                }
            },
            Codec::Record { strategy, fields } => {
                let vfields = match value {
                    Value::Record(vfields) => vfields,
                    _ => { unreached() },
                };
                proof {
                    crate::value::lemma_field_views_of(vfields@);
                    lemma_codec_field_views_of(fields@);
                    assert(codec_field_views_of(fields@).skip(0) =~= codec_field_views_of(
                        fields@,
                    ));
                    assert(field_views_of(vfields@).skip(0) =~= field_views_of(vfields@));
                }
                push_fields(fields, vfields, 0, v);
            },
            Codec::TypedDict(fields) => {
                let pairs = match value {
                    Value::Dict(pairs) => pairs,
                    _ => { unreached() },
                };
                proof {
                    crate::value::lemma_pair_views_of(pairs@);
                    lemma_codec_field_views_of(fields@);
                    assert(codec_field_views_of(fields@).skip(0) =~= codec_field_views_of(
                        fields@,
                    ));
                    assert(pair_views_of(pairs@).skip(0) =~= pair_views_of(pairs@));
                }
                push_keyed(fields, pairs, 0, v);
            },
            Codec::Union(opts) => {
                proof {
                    lemma_codec_views_of(opts@);
                }
                let idx = match find_option(opts, value) {
                    Some(idx) => idx,
                    None => { unreached() },
                };
                proof {
                    lemma_first_accepting(codec_views_of(opts@), value@);
                    lemma_enc_nth(codec_views_of(opts@), idx as int, value@, off + 8);
                }
                crate::wire::push_u64(v, idx as u64);
                opts[idx].append_vec_raw(v, value);
                assert(v@ =~= before + enc(self@, value@, off));
            },
            Codec::ArrayDyn(k) => {
                let a = match value {
                    Value::Array(a) => a,
                    _ => { unreached() },
                };
                push_array_dyn(a, v);
            },
            Codec::ArrayFixed { kind, shape, pool } => {
                let a = match value {
                    Value::Array(a) => a,
                    _ => { unreached() },
                };
                let size = elem_size(a.kind);
                let pad = crate::wire::bytes_to_alignment(v.len(), size);
                push_zeros(v, pad);
                crate::wire::push_bytes(v, a.data.as_slice());
                assert(v@ =~= before + enc(self@, value@, off));
            },
        }
    }

    /// Appends a value's encoding at the end of a growing buffer, for
    /// callers that do not pre-size it; a value of the wrong shape is
    /// rejected with nothing written.
    pub fn append_vec(&self, v: &mut Vec<u8>, value: &Value) -> (r: Result<(), EncodeError>)
        ensures
            match r {
                Ok(()) => accepts(self@, value@) && final(v)@ == old(v)@ + enc(
                    self@,
                    value@,
                    old(v)@.len() as int,
                ),
                Err(e) => {
                    &&& !accepts(self@, value@)
                    &&& e == EncodeError::Mismatch
                    &&& final(v)@ == old(v)@
                },
            },
    {
        if !self.value_matches(value) {
            return Err(EncodeError::Mismatch);
        }
        self.append_vec_raw(v, value);
        Ok(())
    }

    /// Appends the key-value pairs of a dict at the end of a growing
    /// buffer, from `idx` on.
    fn push_pairs(&self, pairs: &Vec<(Value, Value)>, idx: usize, v: &mut Vec<u8>)
        requires
            self is Dict,
            idx <= pairs@.len(),
            accepts_pairs(self@, pair_views_of(pairs@).skip(idx as int)),
        ensures
            final(v)@ == old(v)@ + enc_pairs(
                self@,
                pair_views_of(pairs@).skip(idx as int),
                old(v)@.len() as int,
            ),
        decreases self, 0int, pairs@.len() - idx,
    {
        let (ck, cv) = match self {
            Codec::Dict(ck, cv) => (ck, cv),
            _ => { unreached() },
        };
        proof {
            crate::value::lemma_pair_views_of(pairs@);
        }
        let ghost sk = pair_views_of(pairs@).skip(idx as int);
        if idx == pairs.len() {
            assert(sk =~= Seq::<(ValueModel, ValueModel)>::empty());
            assert(v@ =~= v@ + enc_pairs(self@, sk, v@.len() as int));
            return ;
        }
        proof {
            assert(sk[0] == pair_views_of(pairs@)[idx as int]);
            assert(sk[0] == (pairs@[idx as int].0@, pairs@[idx as int].1@));
            assert(sk.drop_first() =~= pair_views_of(pairs@).skip(idx as int + 1));
        }
        let ghost before = v@;
        ck.append_vec_raw(v, &pairs[idx].0);
        cv.append_vec_raw(v, &pairs[idx].1);
        self.push_pairs(pairs, idx + 1, v);
        proof {
            let off = before.len() as int;
            let kh = enc((**ck)@, pairs@[idx as int].0@, off);
            let vh = enc((**cv)@, pairs@[idx as int].1@, off + kh.len());
            assert(enc_pairs(self@, sk, off) == kh + vh + enc_pairs(
                self@,
                sk.drop_first(),
                off + kh.len() + vh.len(),
            ));
            assert(v@ =~= before + enc_pairs(self@, sk, off));
        }
    }
}

} // verus!
