//! The codec descriptor: an inert, serializable description of exactly
//! one codec's configuration.
//!
//! A descriptor mirrors the codec's composite structure and carries every
//! literal parameter.  Host-language closures and classes — a record's
//! class, a union's selector, an external strategy object, array pre- and
//! postprocessors — are embedded as the opaque byte runs the host
//! runtime's generic serializer produced for them; this subsystem never
//! interprets those bytes.
//!
//! Its compact binary self-serialization writes one leading variant tag
//! byte, then the variant's payload from the wire primitives, recursively
//! for nested descriptors; each nested descriptor travels as a
//! length-prefixed frame.  The tag assignment is a closed protocol
//! constant.
//!
//! Because rebuilding a descriptor that embeds host objects ends in the
//! host's generic deserializer, which can run arbitrary embedded logic,
//! reconstruction from an untrusted source passes a security gate first:
//! the tree is scanned for embedded objects, and without an operator's
//! bypass or confirmation the reconstruction is refused outright.

use vstd::prelude::*;

use crate::errors::{ConstructionError, DecodeError, SecurityAbort};
use crate::init::{byte_views_of, strategy_fits, InitStrategy, InitStrategyModel};
use crate::value::ElementKind;

verus! {

/// The pooling and preprocessing configuration of a numeric-array codec.
pub enum ArrayConfig {
    /// The shape travels on the wire; decode allocates fresh storage.
    Dynamic { pre_pkl: Option<Vec<u8>>, post_pkl: Option<Vec<u8>> },
    /// One static shape; decode reuses pooled buffers.
    Fixed {
        pre_pkl: Option<Vec<u8>>,
        post_pkl: Option<Vec<u8>>,
        shape: Vec<usize>,
        pool_min: usize,
        pool_max: Option<usize>,
    },
}

/// The mathematical model of an array configuration.
#[verifier::ext_equal]
pub enum ArrayConfigModel {
    Dynamic { pre_pkl: Option<Seq<u8>>, post_pkl: Option<Seq<u8>> },
    Fixed {
        pre_pkl: Option<Seq<u8>>,
        post_pkl: Option<Seq<u8>>,
        shape: Seq<usize>,
        pool_min: usize,
        pool_max: Option<usize>,
    },
}

/// The model of an optional embedded byte run.
pub open spec fn opt_view(o: Option<Vec<u8>>) -> Option<Seq<u8>> {
    match o {
        Some(b) => Some(b@),
        None => None,
    }
}

impl View for ArrayConfig {
    type V = ArrayConfigModel;

    open spec fn view(&self) -> ArrayConfigModel {
        match self {
            ArrayConfig::Dynamic { pre_pkl, post_pkl } => ArrayConfigModel::Dynamic {
                pre_pkl: opt_view(*pre_pkl),
                post_pkl: opt_view(*post_pkl),
            },
            ArrayConfig::Fixed { pre_pkl, post_pkl, shape, pool_min, pool_max } => {
                ArrayConfigModel::Fixed {
                    pre_pkl: opt_view(*pre_pkl),
                    post_pkl: opt_view(*post_pkl),
                    shape: shape@,
                    pool_min: *pool_min,
                    pool_max: *pool_max,
                }
            },
        }
    }
}

/// A closed, recursively nested description of one codec's configuration.
pub enum CodecDescriptor {
    Bool,
    Bytes,
    Complex,
    /// A record codec: the embedded host class, the construction
    /// strategy, and the named field descriptors in declared order.
    Dataclass {
        class_pkl: Vec<u8>,
        strategy: InitStrategy,
        fields: Vec<(Vec<u8>, CodecDescriptor)>,
    },
    Dict(Box<CodecDescriptor>, Box<CodecDescriptor>),
    Dynamic,
    Float,
    Int,
    List(Box<CodecDescriptor>),
    /// A numeric-array codec: element kind and mode configuration.
    Array { kind: ElementKind, config: ArrayConfig },
    Optional(Box<CodecDescriptor>),
    Pickle,
    /// A delegate to a caller-supplied host strategy object; only the
    /// host layer can run it.
    External { serde_pkl: Vec<u8> },
    SetOf(Box<CodecDescriptor>),
    Str,
    Tuple(Vec<CodecDescriptor>),
    TypedDict(Vec<(Vec<u8>, CodecDescriptor)>),
    /// A tagged union: option descriptors and the embedded host selector.
    Union { options: Vec<CodecDescriptor>, selector_pkl: Vec<u8> },
}

/// The mathematical model of a descriptor.
#[verifier::ext_equal]
pub enum DescModel {
    Bool,
    Bytes,
    Complex,
    Dataclass {
        class_pkl: Seq<u8>,
        strategy: InitStrategyModel,
        fields: Seq<(Seq<u8>, DescModel)>,
    },
    Dict(Box<DescModel>, Box<DescModel>),
    Dynamic,
    Float,
    Int,
    List(Box<DescModel>),
    Array { kind: ElementKind, config: ArrayConfigModel },
    Optional(Box<DescModel>),
    Pickle,
    External { serde_pkl: Seq<u8> },
    SetOf(Box<DescModel>),
    Str,
    Tuple(Seq<DescModel>),
    TypedDict(Seq<(Seq<u8>, DescModel)>),
    Union { options: Seq<DescModel>, selector_pkl: Seq<u8> },
}

/// The models of a run of descriptors, in order.
pub open spec fn desc_views_of(items: Seq<CodecDescriptor>) -> Seq<DescModel>
    decreases items,
{
    if items.len() == 0 {
        Seq::empty()
    } else {
        seq![items[0].view()] + desc_views_of(items.drop_first())
    }
}

/// The models of a run of named child descriptors, in order.
pub open spec fn desc_field_views_of(fields: Seq<(Vec<u8>, CodecDescriptor)>) -> Seq<
    (Seq<u8>, DescModel),
>
    decreases fields,
{
    if fields.len() == 0 {
        Seq::empty()
    } else {
        seq![(fields[0].0.view(), fields[0].1.view())] + desc_field_views_of(fields.drop_first())
    }
}

impl View for CodecDescriptor {
    type V = DescModel;

    open spec fn view(&self) -> DescModel
        decreases self,
    {
        match self {
            CodecDescriptor::Bool => DescModel::Bool,
            CodecDescriptor::Bytes => DescModel::Bytes,
            CodecDescriptor::Complex => DescModel::Complex,
            CodecDescriptor::Dataclass { class_pkl, strategy, fields } => DescModel::Dataclass {
                class_pkl: class_pkl@,
                strategy: strategy@,
                fields: desc_field_views_of(fields@),
            },
            CodecDescriptor::Dict(dk, dv) => DescModel::Dict(
                Box::new((**dk).view()),
                Box::new((**dv).view()),
            ),
            CodecDescriptor::Dynamic => DescModel::Dynamic,
            CodecDescriptor::Float => DescModel::Float,
            CodecDescriptor::Int => DescModel::Int,
            CodecDescriptor::List(di) => DescModel::List(Box::new((**di).view())),
            CodecDescriptor::Array { kind, config } => DescModel::Array {
                kind: *kind,
                config: config@,
            },
            CodecDescriptor::Optional(di) => DescModel::Optional(Box::new((**di).view())),
            CodecDescriptor::Pickle => DescModel::Pickle,
            CodecDescriptor::External { serde_pkl } => DescModel::External {
                serde_pkl: serde_pkl@,
            },
            CodecDescriptor::SetOf(di) => DescModel::SetOf(Box::new((**di).view())),
            CodecDescriptor::Str => DescModel::Str,
            CodecDescriptor::Tuple(items) => DescModel::Tuple(desc_views_of(items@)),
            CodecDescriptor::TypedDict(fields) => DescModel::TypedDict(
                desc_field_views_of(fields@),
            ),
            CodecDescriptor::Union { options, selector_pkl } => DescModel::Union {
                options: desc_views_of(options@),
                selector_pkl: selector_pkl@,
            },
        }
    }
}

/// A run of descriptors is modelled pointwise.
pub proof fn lemma_desc_views_of(items: Seq<CodecDescriptor>)
    ensures
        desc_views_of(items).len() == items.len(),
        forall|i: int| 0 <= i < items.len() ==> desc_views_of(items)[i] == items[i]@,
    decreases items,
{
    if items.len() > 0 {
        assert(desc_views_of(items) == seq![items[0].view()] + desc_views_of(
            items.drop_first(),
        ));
        lemma_desc_views_of(items.drop_first());
        assert forall|i: int| 0 <= i < items.len() implies desc_views_of(items)[i]
            == items[i]@ by {
            if i > 0 {
                assert(items.drop_first()[i - 1] == items[i]);
            }
        }
    }
}

/// A run of named child descriptors is modelled pointwise.
pub proof fn lemma_desc_field_views_of(fields: Seq<(Vec<u8>, CodecDescriptor)>)
    ensures
        desc_field_views_of(fields).len() == fields.len(),
        forall|i: int| 0 <= i < fields.len() ==> desc_field_views_of(fields)[i] == (
            fields[i].0@,
            fields[i].1@,
        ),
    decreases fields,
{
    if fields.len() > 0 {
        assert(desc_field_views_of(fields) == seq![(fields[0].0.view(), fields[0].1.view())]
            + desc_field_views_of(fields.drop_first()));
        lemma_desc_field_views_of(fields.drop_first());
        assert forall|i: int| 0 <= i < fields.len() implies desc_field_views_of(fields)[i] == (
            fields[i].0@,
            fields[i].1@,
        ) by {
            if i > 0 {
                assert(fields.drop_first()[i - 1] == fields[i]);
            }
        }
    }
}

/// Whether a descriptor embeds host objects anywhere in its tree: a
/// record's class, a union's selector, an external strategy, or an array
/// pre- or postprocessor.  Rebuilding such a descriptor ends in the host
/// runtime's generic deserializer.
pub open spec fn spec_contains_embedded(d: DescModel) -> bool
    decreases d, 1int, 0int,
{
    match d {
        DescModel::Dataclass { .. } => true,
        DescModel::External { .. } => true,
        DescModel::Union { .. } => true,
        DescModel::Array { kind, config } => match config {
            ArrayConfigModel::Dynamic { pre_pkl, post_pkl } => pre_pkl is Some || post_pkl
                is Some,
            ArrayConfigModel::Fixed { pre_pkl, post_pkl, .. } => pre_pkl is Some || post_pkl
                is Some,
        },
        DescModel::Dict(dk, dv) => spec_contains_embedded(*dk) || spec_contains_embedded(*dv),
        DescModel::List(di) => spec_contains_embedded(*di),
        DescModel::SetOf(di) => spec_contains_embedded(*di),
        DescModel::Optional(di) => spec_contains_embedded(*di),
        DescModel::Tuple(items) => any_embedded(items),
        DescModel::TypedDict(fields) => any_field_embedded(fields),
        _ => false,
    }
}

/// Whether any descriptor of a run embeds host objects.
pub open spec fn any_embedded(items: Seq<DescModel>) -> bool
    decreases items, 2int, 0int,
{
    if items.len() == 0 {
        false
    } else {
        spec_contains_embedded(items[0]) || any_embedded(items.drop_first())
    }
}

/// Whether any named child of a run embeds host objects.
pub open spec fn any_field_embedded(fields: Seq<(Seq<u8>, DescModel)>) -> bool
    decreases fields, 2int, 0int,
{
    if fields.len() == 0 {
        false
    } else {
        spec_contains_embedded(fields[0].1) || any_field_embedded(fields.drop_first())
    }
}

impl CodecDescriptor {
    /// Scans the tree for embedded host objects.
    pub fn contains_embedded(&self) -> (r: bool)
        ensures
            r == spec_contains_embedded(self@),
        decreases self, 1int, 0int,
    {
        match self {
            CodecDescriptor::Dataclass { .. } => true,
            CodecDescriptor::External { .. } => true,
            CodecDescriptor::Union { .. } => true,
            CodecDescriptor::Array { kind, config } => match config {
                ArrayConfig::Dynamic { pre_pkl, post_pkl } => pre_pkl.is_some()
                    || post_pkl.is_some(),
                ArrayConfig::Fixed { pre_pkl, post_pkl, .. } => pre_pkl.is_some()
                    || post_pkl.is_some(),
            },
            CodecDescriptor::Dict(dk, dv) => dk.contains_embedded() || dv.contains_embedded(),
            CodecDescriptor::List(di) => di.contains_embedded(),
            CodecDescriptor::SetOf(di) => di.contains_embedded(),
            CodecDescriptor::Optional(di) => di.contains_embedded(),
            CodecDescriptor::Tuple(items) => descs_embedded(items),
            CodecDescriptor::TypedDict(fields) => desc_fields_embedded(fields),
            _ => false,
        }
    }
}

/// Scans a run of descriptors for embedded host objects.
fn descs_embedded(items: &Vec<CodecDescriptor>) -> (r: bool)
    ensures
        r == any_embedded(desc_views_of(items@)),
    decreases items, 2int, 0int,
{
    proof {
        lemma_desc_views_of(items@);
        lemma_any_embedded(desc_views_of(items@));
    }
    let n = items.len();
    let mut i: usize = 0;
    while i < n
        invariant
            0 <= i <= n,
            n == items@.len(),
            desc_views_of(items@).len() == n,
            forall|j: int| 0 <= j < n ==> desc_views_of(items@)[j] == items@[j]@,
            any_embedded(desc_views_of(items@)) == (exists|j: int|
                0 <= j < n && spec_contains_embedded(#[trigger] desc_views_of(items@)[j])),
            forall|j: int|
                0 <= j < i ==> !spec_contains_embedded(#[trigger] desc_views_of(items@)[j]),
        decreases n - i,
    {
        if items[i].contains_embedded() {
            assert(spec_contains_embedded(desc_views_of(items@)[i as int]));
            return true;
        }
        i = i + 1;
    }
    proof {
        if any_embedded(desc_views_of(items@)) {
            let k = choose|j: int|
                0 <= j < n && spec_contains_embedded(#[trigger] desc_views_of(items@)[j]);
            assert(!spec_contains_embedded(desc_views_of(items@)[k]));
        }
    }
    false
}

/// Scans a run of named child descriptors for embedded host objects.
fn desc_fields_embedded(fields: &Vec<(Vec<u8>, CodecDescriptor)>) -> (r: bool)
    ensures
        r == any_field_embedded(desc_field_views_of(fields@)),
    decreases fields, 2int, 0int,
{
    proof {
        lemma_desc_field_views_of(fields@);
        lemma_any_field_embedded(desc_field_views_of(fields@));
    }
    let n = fields.len();
    let mut i: usize = 0;
    while i < n
        invariant
            0 <= i <= n,
            n == fields@.len(),
            desc_field_views_of(fields@).len() == n,
            forall|j: int| 0 <= j < n ==> desc_field_views_of(fields@)[j] == (
                fields@[j].0@,
                fields@[j].1@,
            ),
            any_field_embedded(desc_field_views_of(fields@)) == (exists|j: int|
                0 <= j < n && spec_contains_embedded(
                    (#[trigger] desc_field_views_of(fields@)[j]).1,
                )),
            forall|j: int|
                0 <= j < i ==> !spec_contains_embedded(
                    (#[trigger] desc_field_views_of(fields@)[j]).1,
                ),
        decreases n - i,
    {
        if fields[i].1.contains_embedded() {
            assert(spec_contains_embedded(desc_field_views_of(fields@)[i as int].1));
            return true;
        }
        i = i + 1;
    }
    proof {
        if any_field_embedded(desc_field_views_of(fields@)) {
            let k = choose|j: int|
                0 <= j < n && spec_contains_embedded(
                    (#[trigger] desc_field_views_of(fields@)[j]).1,
                );
            assert(!spec_contains_embedded(desc_field_views_of(fields@)[k].1));
        }
    }
    false
}

/// A run embeds host objects exactly when some member does.
pub proof fn lemma_any_embedded(items: Seq<DescModel>)
    ensures
        any_embedded(items) == (exists|i: int|
            0 <= i < items.len() && spec_contains_embedded(#[trigger] items[i])),
    decreases items.len(),
{
    if items.len() > 0 {
        lemma_any_embedded(items.drop_first());
        if spec_contains_embedded(items[0]) {
        } else if any_embedded(items.drop_first()) {
            let k = choose|i: int|
                0 <= i < items.drop_first().len() && spec_contains_embedded(
                    #[trigger] items.drop_first()[i],
                );
            assert(items.drop_first()[k] == items[k + 1]);
        } else {
            assert forall|i: int| 0 <= i < items.len() implies !spec_contains_embedded(
                #[trigger] items[i],
            ) by {
                if i > 0 {
                    assert(items.drop_first()[i - 1] == items[i]);
                    assert(!spec_contains_embedded(items.drop_first()[i - 1]));
                }
            }
        }
    }
}

/// A run's named children embed host objects exactly when some child
/// does.
pub proof fn lemma_any_field_embedded(fields: Seq<(Seq<u8>, DescModel)>)
    ensures
        any_field_embedded(fields) == (exists|i: int|
            0 <= i < fields.len() && spec_contains_embedded((#[trigger] fields[i]).1)),
    decreases fields.len(),
{
    if fields.len() > 0 {
        lemma_any_field_embedded(fields.drop_first());
        if spec_contains_embedded(fields[0].1) {
        } else if any_field_embedded(fields.drop_first()) {
            let k = choose|i: int|
                0 <= i < fields.drop_first().len() && spec_contains_embedded(
                    (#[trigger] fields.drop_first()[i]).1,
                );
            assert(fields.drop_first()[k] == fields[k + 1]);
        } else {
            assert forall|i: int| 0 <= i < fields.len() implies !spec_contains_embedded(
                (#[trigger] fields[i]).1,
            ) by {
                if i > 0 {
                    assert(fields.drop_first()[i - 1] == fields[i]);
                    assert(!spec_contains_embedded(fields.drop_first()[i - 1].1));
                }
            }
        }
    }
}

/// The security gate before rebuilding a descriptor from an untrusted
/// source: a tree that embeds host objects is refused unless the operator
/// pre-set the bypass toggle or confirmed interactively.  Declining is a
/// fatal, explicit abort, never a silent skip.
pub fn check_for_unpickling(d: &CodecDescriptor, bypass: bool, confirmed: bool) -> (r: Result<
    (),
    SecurityAbort,
>)
    ensures
        match r {
            Ok(()) => bypass || confirmed || !spec_contains_embedded(d@),
            Err(e) => {
                &&& e == SecurityAbort::Declined
                &&& spec_contains_embedded(d@)
                &&& !bypass
                &&& !confirmed
            },
        },
{
    if bypass || confirmed {
        return Ok(());
    }
    if d.contains_embedded() {
        Err(SecurityAbort::Declined)
    } else {
        Ok(())
    }
}

} // verus!

verus! {

// ---------------------------------------------------------------------
// The compact binary self-serialization: wire layout.
// ---------------------------------------------------------------------

/// The wire byte of an element kind: a closed protocol constant.
pub open spec fn spec_kind_byte(k: ElementKind) -> u8 {
    match k {
        ElementKind::Int8 => 0,
        ElementKind::Int16 => 1,
        ElementKind::Int32 => 2,
        ElementKind::Int64 => 3,
        ElementKind::Uint8 => 4,
        ElementKind::Uint16 => 5,
        ElementKind::Uint32 => 6,
        ElementKind::Uint64 => 7,
        ElementKind::Float32 => 8,
        ElementKind::Float64 => 9,
    }
}

/// The element kind a wire byte names, if any.
pub open spec fn spec_kind_of_byte(b: u8) -> Option<ElementKind> {
    if b == 0 {
        Some(ElementKind::Int8)
    } else if b == 1 {
        Some(ElementKind::Int16)
    } else if b == 2 {
        Some(ElementKind::Int32)
    } else if b == 3 {
        Some(ElementKind::Int64)
    } else if b == 4 {
        Some(ElementKind::Uint8)
    } else if b == 5 {
        Some(ElementKind::Uint16)
    } else if b == 6 {
        Some(ElementKind::Uint32)
    } else if b == 7 {
        Some(ElementKind::Uint64)
    } else if b == 8 {
        Some(ElementKind::Float32)
    } else if b == 9 {
        Some(ElementKind::Float64)
    } else {
        None
    }
}

/// Computes the wire byte of an element kind.
pub fn kind_byte(k: ElementKind) -> (r: u8)
    ensures
        r == spec_kind_byte(k),
{
    match k {
        ElementKind::Int8 => 0,
        ElementKind::Int16 => 1,
        ElementKind::Int32 => 2,
        ElementKind::Int64 => 3,
        ElementKind::Uint8 => 4,
        ElementKind::Uint16 => 5,
        ElementKind::Uint32 => 6,
        ElementKind::Uint64 => 7,
        ElementKind::Float32 => 8,
        ElementKind::Float64 => 9,
    }
}

/// Reads the element kind a wire byte names, if any.
pub fn kind_of_byte(b: u8) -> (r: Option<ElementKind>)
    ensures
        r == spec_kind_of_byte(b),
{
    if b == 0 {
        Some(ElementKind::Int8)
    } else if b == 1 {
        Some(ElementKind::Int16)
    } else if b == 2 {
        Some(ElementKind::Int32)
    } else if b == 3 {
        Some(ElementKind::Int64)
    } else if b == 4 {
        Some(ElementKind::Uint8)
    } else if b == 5 {
        Some(ElementKind::Uint16)
    } else if b == 6 {
        Some(ElementKind::Uint32)
    } else if b == 7 {
        Some(ElementKind::Uint64)
    } else if b == 8 {
        Some(ElementKind::Float32)
    } else if b == 9 {
        Some(ElementKind::Float64)
    } else {
        None
    }
}

/// Every element-kind byte round-trips.
pub proof fn lemma_kind_byte_roundtrip(k: ElementKind)
    ensures
        spec_kind_of_byte(spec_kind_byte(k)) == Some(k),
{
}

/// The wire bytes of an optional embedded byte run: a presence flag, then
/// the length-prefixed run when present.
pub open spec fn opt_pkl_enc(o: Option<Seq<u8>>) -> Seq<u8> {
    match o {
        Some(b) => crate::wire::enc_bool(true) + crate::wire::enc_bytes(b),
        None => crate::wire::enc_bool(false),
    }
}

/// The wire bytes of an optional size.
pub open spec fn opt_usize_enc(o: Option<usize>) -> Seq<u8> {
    match o {
        Some(m) => crate::wire::enc_bool(true) + crate::wire::enc_u64(m as u64),
        None => crate::wire::enc_bool(false),
    }
}

/// The wire bytes of a run of picked names.
pub open spec fn names_enc(names: Seq<Seq<u8>>) -> Seq<u8>
    decreases names,
{
    if names.len() == 0 {
        Seq::empty()
    } else {
        crate::wire::enc_bytes(names[0]) + names_enc(names.drop_first())
    }
}

/// The wire bytes of an init strategy.
pub open spec fn strategy_enc(s: InitStrategyModel) -> Seq<u8> {
    match s {
        InitStrategyModel::All => seq![0u8],
        InitStrategyModel::Named(kwargs) => seq![1u8] + crate::wire::enc_u64(
            kwargs.len() as u64,
        ) + names_enc(kwargs),
        InitStrategyModel::NoArgs => seq![2u8],
    }
}

/// The wire bytes of an array configuration.
pub open spec fn config_enc(c: ArrayConfigModel) -> Seq<u8> {
    match c {
        ArrayConfigModel::Dynamic { pre_pkl, post_pkl } => seq![0u8] + opt_pkl_enc(pre_pkl)
            + opt_pkl_enc(post_pkl),
        ArrayConfigModel::Fixed { pre_pkl, post_pkl, shape, pool_min, pool_max } => seq![1u8]
            + opt_pkl_enc(pre_pkl) + opt_pkl_enc(post_pkl) + crate::wire::enc_u64(
            shape.len() as u64,
        ) + crate::codec::enc_shape(shape) + crate::wire::enc_u64(pool_min as u64)
            + opt_usize_enc(pool_max),
    }
}

/// The wire bytes of a descriptor: one leading variant tag byte, then the
/// variant's payload, each nested descriptor as a length-prefixed frame.
pub open spec fn desc_enc(d: DescModel) -> Seq<u8>
    decreases d, 1int, 0int,
{
    match d {
        DescModel::Bool => seq![0u8],
        DescModel::Bytes => seq![1u8],
        DescModel::Complex => seq![2u8],
        DescModel::Dataclass { class_pkl, strategy, fields } => seq![3u8]
            + crate::wire::enc_bytes(strategy_enc(strategy)) + crate::wire::enc_u64(
            fields.len() as u64,
        ) + dfields_enc(fields) + crate::wire::enc_bytes(class_pkl),
        DescModel::Dict(dk, dv) => seq![4u8] + crate::wire::enc_bytes(desc_enc(*dk))
            + crate::wire::enc_bytes(desc_enc(*dv)),
        DescModel::Dynamic => seq![5u8],
        DescModel::Float => seq![6u8],
        DescModel::Int => seq![7u8],
        DescModel::List(di) => seq![8u8] + crate::wire::enc_bytes(desc_enc(*di)),
        DescModel::Array { kind, config } => seq![9u8, spec_kind_byte(kind)]
            + crate::wire::enc_bytes(config_enc(config)),
        DescModel::Optional(di) => seq![10u8] + crate::wire::enc_bytes(desc_enc(*di)),
        DescModel::Pickle => seq![11u8],
        DescModel::External { serde_pkl } => seq![12u8] + crate::wire::enc_bytes(serde_pkl),
        DescModel::SetOf(di) => seq![13u8] + crate::wire::enc_bytes(desc_enc(*di)),
        DescModel::Str => seq![14u8],
        DescModel::Tuple(items) => seq![15u8] + crate::wire::enc_u64(items.len() as u64)
            + descs_enc(items),
        DescModel::TypedDict(fields) => seq![16u8] + crate::wire::enc_u64(fields.len() as u64)
            + dfields_enc(fields),
        DescModel::Union { options, selector_pkl } => seq![17u8] + crate::wire::enc_u64(
            options.len() as u64,
        ) + descs_enc(options) + crate::wire::enc_bytes(selector_pkl),
    }
}

/// The wire bytes of a run of descriptor frames.
pub open spec fn descs_enc(items: Seq<DescModel>) -> Seq<u8>
    decreases items, 2int, 0int,
{
    if items.len() == 0 {
        Seq::empty()
    } else {
        crate::wire::enc_bytes(desc_enc(items[0])) + descs_enc(items.drop_first())
    }
}

/// The wire bytes of a run of named descriptor frames.
pub open spec fn dfields_enc(fields: Seq<(Seq<u8>, DescModel)>) -> Seq<u8>
    decreases fields, 2int, 0int,
{
    if fields.len() == 0 {
        Seq::empty()
    } else {
        crate::wire::enc_bytes(fields[0].0) + crate::wire::enc_bytes(desc_enc(fields[0].1))
            + dfields_enc(fields.drop_first())
    }
}

} // verus!

verus! {

// ---------------------------------------------------------------------
// The compact binary self-serialization: what deserialize reads.
// ---------------------------------------------------------------------

/// What reading an optional embedded byte run at `off` yields.
pub open spec fn opt_pkl_dec(b: Seq<u8>, off: int) -> Result<(Option<Seq<u8>>, int), DecodeError> {
    match crate::wire::dec_bool(b, off) {
        Ok((present, o2)) => if present {
            match crate::wire::dec_bytes(b, o2) {
                Ok((p, o3)) => Ok((Some(p), o3)),
                Err(e) => Err(e),
            }
        } else {
            Ok((None, o2))
        },
        Err(e) => Err(e),
    }
}

/// What reading an optional size at `off` yields.
pub open spec fn opt_usize_dec(b: Seq<u8>, off: int) -> Result<(Option<usize>, int), DecodeError> {
    match crate::wire::dec_bool(b, off) {
        Ok((present, o2)) => if present {
            match crate::wire::dec_usize(b, o2) {
                Ok((m, o3)) => Ok((Some(m), o3)),
                Err(e) => Err(e),
            }
        } else {
            Ok((None, o2))
        },
        Err(e) => Err(e),
    }
}

/// What reading `n` picked names at `off` yields; each must be UTF-8.
pub open spec fn names_dec(n: int, b: Seq<u8>, off: int) -> Result<(Seq<Seq<u8>>, int), DecodeError>
    decreases n,
{
    if n <= 0 {
        Ok((Seq::empty(), off))
    } else {
        match crate::wire::dec_bytes(b, off) {
            Ok((p, o2)) => if crate::utf8::is_utf8(p) {
                match names_dec(n - 1, b, o2) {
                    Ok((ns, o3)) => Ok((seq![p] + ns, o3)),
                    Err(e) => Err(e),
                }
            } else {
                Err(DecodeError::BadUtf8)
            },
            Err(e) => Err(e),
        }
    }
}

/// What reading an init strategy from its frame yields.
pub open spec fn strategy_dec(b: Seq<u8>) -> Result<InitStrategyModel, DecodeError> {
    if b.len() < 1 {
        Err(DecodeError::TooShort)
    } else if b[0] == 0u8 {
        Ok(InitStrategyModel::All)
    } else if b[0] == 1u8 {
        match crate::wire::dec_usize(b, 1) {
            Ok((n, o2)) => match names_dec(n as int, b, o2) {
                Ok((ns, _)) => Ok(InitStrategyModel::Named(ns)),
                Err(e) => Err(e),
            },
            Err(e) => Err(e),
        }
    } else if b[0] == 2u8 {
        Ok(InitStrategyModel::NoArgs)
    } else {
        Err(DecodeError::BadTag(b[0]))
    }
}

/// What reading an array configuration from its frame yields.
pub open spec fn config_dec(b: Seq<u8>) -> Result<ArrayConfigModel, DecodeError> {
    if b.len() < 1 {
        Err(DecodeError::TooShort)
    } else if b[0] == 0u8 {
        match opt_pkl_dec(b, 1) {
            Ok((pre, o2)) => match opt_pkl_dec(b, o2) {
                Ok((post, _)) => Ok(ArrayConfigModel::Dynamic { pre_pkl: pre, post_pkl: post }),
                Err(e) => Err(e),
            },
            Err(e) => Err(e),
        }
    } else if b[0] == 1u8 {
        match opt_pkl_dec(b, 1) {
            Ok((pre, o2)) => match opt_pkl_dec(b, o2) {
                Ok((post, o3)) => match crate::wire::dec_usize(b, o3) {
                    Ok((rank, o4)) => match crate::codec::dec_shape(rank as int, b, o4) {
                        Ok((shape, o5)) => match crate::wire::dec_usize(b, o5) {
                            Ok((pool_min, o6)) => match opt_usize_dec(b, o6) {
                                Ok((pool_max, _)) => Ok(ArrayConfigModel::Fixed {
                                    pre_pkl: pre,
                                    post_pkl: post,
                                    shape,
                                    pool_min,
                                    pool_max,
                                }),
                                Err(e) => Err(e),
                            },
                            Err(e) => Err(e),
                        },
                        Err(e) => Err(e),
                    },
                    Err(e) => Err(e),
                },
                Err(e) => Err(e),
            },
            Err(e) => Err(e),
        }
    } else {
        Err(DecodeError::BadTag(b[0]))
    }
}

/// What reading a nested descriptor frame at `off` yields: the frame's
/// bytes are parsed as a descriptor of their own; trailing bytes inside
/// the frame are ignored.
pub open spec fn desc_frame_dec(b: Seq<u8>, off: int) -> Result<(DescModel, int), DecodeError>
    decreases b.len(), 0int, 0int,
{
    match crate::wire::dec_bytes(b, off) {
        Ok((p, o2)) => if p.len() < b.len() && off >= 0 {
            match desc_dec(p) {
                Ok(d) => Ok((d, o2)),
                Err(e) => Err(e),
            }
        } else {
            Err(DecodeError::TooShort)
        },
        Err(e) => Err(e),
    }
}

/// What reading a descriptor from its own frame yields.
pub open spec fn desc_dec(b: Seq<u8>) -> Result<DescModel, DecodeError>
    decreases b.len(), 2int, 0int,
{
    if b.len() < 1 {
        Err(DecodeError::TooShort)
    } else {
        let tag = b[0];
        if tag == 0 {
            Ok(DescModel::Bool)
        } else if tag == 1 {
            Ok(DescModel::Bytes)
        } else if tag == 2 {
            Ok(DescModel::Complex)
        } else if tag == 3 {
            match crate::wire::dec_bytes(b, 1) {
                Ok((sframe, o2)) => match strategy_dec(sframe) {
                    Ok(strategy) => match crate::wire::dec_usize(b, o2) {
                        Ok((n, o3)) => match dfields_dec(b, o3, n as int) {
                            Ok((fields, o4)) => match crate::wire::dec_bytes(b, o4) {
                                Ok((class_pkl, _)) => Ok(DescModel::Dataclass {
                                    class_pkl,
                                    strategy,
                                    fields,
                                }),
                                Err(e) => Err(e),
                            },
                            Err(e) => Err(e),
                        },
                        Err(e) => Err(e),
                    },
                    Err(e) => Err(e),
                },
                Err(e) => Err(e),
            }
        } else if tag == 4 {
            match desc_frame_dec(b, 1) {
                Ok((dk, o2)) => match desc_frame_dec(b, o2) {
                    Ok((dv, _)) => Ok(DescModel::Dict(Box::new(dk), Box::new(dv))),
                    Err(e) => Err(e),
                },
                Err(e) => Err(e),
            }
        } else if tag == 5 {
            Ok(DescModel::Dynamic)
        } else if tag == 6 {
            Ok(DescModel::Float)
        } else if tag == 7 {
            Ok(DescModel::Int)
        } else if tag == 8 {
            match desc_frame_dec(b, 1) {
                Ok((di, _)) => Ok(DescModel::List(Box::new(di))),
                Err(e) => Err(e),
            }
        } else if tag == 9 {
            if b.len() < 2 {
                Err(DecodeError::TooShort)
            } else {
                match spec_kind_of_byte(b[1]) {
                    None => Err(DecodeError::BadTag(b[1])),
                    Some(kind) => match crate::wire::dec_bytes(b, 2) {
                        Ok((cframe, _)) => match config_dec(cframe) {
                            Ok(config) => Ok(DescModel::Array { kind, config }),
                            Err(e) => Err(e),
                        },
                        Err(e) => Err(e),
                    },
                }
            }
        } else if tag == 10 {
            match desc_frame_dec(b, 1) {
                Ok((di, _)) => Ok(DescModel::Optional(Box::new(di))),
                Err(e) => Err(e),
            }
        } else if tag == 11 {
            Ok(DescModel::Pickle)
        } else if tag == 12 {
            match crate::wire::dec_bytes(b, 1) {
                Ok((serde_pkl, _)) => Ok(DescModel::External { serde_pkl }),
                Err(e) => Err(e),
            }
        } else if tag == 13 {
            match desc_frame_dec(b, 1) {
                Ok((di, _)) => Ok(DescModel::SetOf(Box::new(di))),
                Err(e) => Err(e),
            }
        } else if tag == 14 {
            Ok(DescModel::Str)
        } else if tag == 15 {
            match crate::wire::dec_usize(b, 1) {
                Ok((n, o2)) => match descs_dec(b, o2, n as int) {
                    Ok((items, _)) => Ok(DescModel::Tuple(items)),
                    Err(e) => Err(e),
                },
                Err(e) => Err(e),
            }
        } else if tag == 16 {
            match crate::wire::dec_usize(b, 1) {
                Ok((n, o2)) => match dfields_dec(b, o2, n as int) {
                    Ok((fields, _)) => Ok(DescModel::TypedDict(fields)),
                    Err(e) => Err(e),
                },
                Err(e) => Err(e),
            }
        } else if tag == 17 {
            match crate::wire::dec_usize(b, 1) {
                Ok((n, o2)) => match descs_dec(b, o2, n as int) {
                    Ok((options, o3)) => match crate::wire::dec_bytes(b, o3) {
                        Ok((selector_pkl, _)) => Ok(DescModel::Union { options, selector_pkl }),
                        Err(e) => Err(e),
                    },
                    Err(e) => Err(e),
                },
                Err(e) => Err(e),
            }
        } else {
            Err(DecodeError::BadTag(tag))
        }
    }
}

/// What reading `n` descriptor frames at `off` yields.
pub open spec fn descs_dec(b: Seq<u8>, off: int, n: int) -> Result<(Seq<DescModel>, int), DecodeError>
    decreases b.len(), 1int, n,
{
    if n <= 0 {
        Ok((Seq::empty(), off))
    } else {
        match desc_frame_dec(b, off) {
            Ok((d, o2)) => match descs_dec(b, o2, n - 1) {
                Ok((ds, o3)) => Ok((seq![d] + ds, o3)),
                Err(e) => Err(e),
            },
            Err(e) => Err(e),
        }
    }
}

/// What reading `n` named descriptor frames at `off` yields; each name
/// must be UTF-8.
pub open spec fn dfields_dec(b: Seq<u8>, off: int, n: int) -> Result<
    (Seq<(Seq<u8>, DescModel)>, int),
    DecodeError,
>
    decreases b.len(), 1int, n,
{
    if n <= 0 {
        Ok((Seq::empty(), off))
    } else {
        match crate::wire::dec_bytes(b, off) {
            Ok((name, o2)) => if crate::utf8::is_utf8(name) {
                match desc_frame_dec(b, o2) {
                    Ok((d, o3)) => match dfields_dec(b, o3, n - 1) {
                        Ok((fs, o4)) => Ok((seq![(name, d)] + fs, o4)),
                        Err(e) => Err(e),
                    },
                    Err(e) => Err(e),
                }
            } else {
                Err(DecodeError::BadUtf8)
            },
            Err(e) => Err(e),
        }
    }
}

} // verus!

verus! {

// ---------------------------------------------------------------------
// Well-formedness, and the descriptor round-trip law.
// ---------------------------------------------------------------------

/// Whether every picked name is UTF-8 and fits the address width.
pub open spec fn wf_names(names: Seq<Seq<u8>>) -> bool
    decreases names,
{
    if names.len() == 0 {
        true
    } else {
        crate::utf8::is_utf8(names[0]) && names[0].len() <= usize::MAX && wf_names(
            names.drop_first(),
        )
    }
}

/// Whether an init strategy is well formed.
pub open spec fn wf_strategy(s: InitStrategyModel) -> bool {
    match s {
        InitStrategyModel::Named(kwargs) => kwargs.len() <= usize::MAX && wf_names(kwargs),
        _ => true,
    }
}

/// Whether an optional embedded byte run fits the address width.
pub open spec fn wf_opt_pkl(o: Option<Seq<u8>>) -> bool {
    match o {
        Some(b) => b.len() <= usize::MAX,
        None => true,
    }
}

/// Whether an array configuration is well formed.
pub open spec fn wf_config(c: ArrayConfigModel) -> bool {
    match c {
        ArrayConfigModel::Dynamic { pre_pkl, post_pkl } => wf_opt_pkl(pre_pkl) && wf_opt_pkl(
            post_pkl,
        ),
        ArrayConfigModel::Fixed { pre_pkl, post_pkl, shape, .. } => wf_opt_pkl(pre_pkl)
            && wf_opt_pkl(post_pkl) && shape.len() <= usize::MAX,
    }
}

/// Whether a descriptor is well formed: every name is UTF-8 and every
/// sequence fits the platform's address width.
pub open spec fn wf_desc(d: DescModel) -> bool
    decreases d, 1int, 0int,
{
    match d {
        DescModel::Dataclass { class_pkl, strategy, fields } => class_pkl.len() <= usize::MAX
            && wf_strategy(strategy) && fields.len() <= usize::MAX && wf_dfields(fields),
        DescModel::Dict(dk, dv) => wf_desc(*dk) && wf_desc(*dv),
        DescModel::List(di) => wf_desc(*di),
        DescModel::SetOf(di) => wf_desc(*di),
        DescModel::Optional(di) => wf_desc(*di),
        DescModel::Array { kind, config } => wf_config(config),
        DescModel::External { serde_pkl } => serde_pkl.len() <= usize::MAX,
        DescModel::Tuple(items) => items.len() <= usize::MAX && wf_descs(items),
        DescModel::TypedDict(fields) => fields.len() <= usize::MAX && wf_dfields(fields),
        DescModel::Union { options, selector_pkl } => options.len() <= usize::MAX && wf_descs(
            options,
        ) && selector_pkl.len() <= usize::MAX,
        _ => true,
    }
}

/// Whether every descriptor of a run is well formed.
pub open spec fn wf_descs(items: Seq<DescModel>) -> bool
    decreases items, 2int, 0int,
{
    if items.len() == 0 {
        true
    } else {
        wf_desc(items[0]) && wf_descs(items.drop_first())
    }
}

/// Whether every named child of a run is well formed, name included.
pub open spec fn wf_dfields(fields: Seq<(Seq<u8>, DescModel)>) -> bool
    decreases fields, 2int, 0int,
{
    if fields.len() == 0 {
        true
    } else {
        crate::utf8::is_utf8(fields[0].0) && fields[0].0.len() <= usize::MAX && wf_desc(
            fields[0].1,
        ) && wf_dfields(fields.drop_first())
    }
}

/// A window holding an encoded optional byte run reads back as it.
proof fn lemma_opt_pkl_rt(b: Seq<u8>, off: int, o: Option<Seq<u8>>)
    requires
        wf_opt_pkl(o),
        0 <= off,
        off + opt_pkl_enc(o).len() <= b.len(),
        b.subrange(off, off + opt_pkl_enc(o).len()) == opt_pkl_enc(o),
    ensures
        opt_pkl_dec(b, off) == Ok::<(Option<Seq<u8>>, int), DecodeError>((
            o,
            off + opt_pkl_enc(o).len(),
        )),
{
    vstd::bytes::lemma_auto_spec_u64_to_from_le_bytes();
    match o {
        Some(p) => {
            crate::wire::lemma_window(b, off, crate::wire::enc_bool(true), crate::wire::enc_bytes(
                p,
            ));
            crate::wire::lemma_rt_bool(b, off, true);
            crate::wire::lemma_rt_bytes(b, off + 1, p);
        },
        None => {
            crate::wire::lemma_rt_bool(b, off, false);
        },
    }
}

/// A window holding an encoded optional size reads back as it.
proof fn lemma_opt_usize_rt(b: Seq<u8>, off: int, o: Option<usize>)
    requires
        0 <= off,
        off + opt_usize_enc(o).len() <= b.len(),
        b.subrange(off, off + opt_usize_enc(o).len()) == opt_usize_enc(o),
    ensures
        opt_usize_dec(b, off) == Ok::<(Option<usize>, int), DecodeError>((
            o,
            off + opt_usize_enc(o).len(),
        )),
{
    vstd::bytes::lemma_auto_spec_u64_to_from_le_bytes();
    match o {
        Some(m) => {
            crate::wire::lemma_window(b, off, crate::wire::enc_bool(true), crate::wire::enc_u64(
                m as u64,
            ));
            crate::wire::lemma_rt_bool(b, off, true);
            crate::wire::lemma_rt_usize(b, off + 1, m as int);
        },
        None => {
            crate::wire::lemma_rt_bool(b, off, false);
        },
    }
}

/// A window holding encoded names reads back as them.
proof fn lemma_names_rt(names: Seq<Seq<u8>>, b: Seq<u8>, off: int)
    requires
        wf_names(names),
        0 <= off,
        off + names_enc(names).len() <= b.len(),
        b.subrange(off, off + names_enc(names).len()) == names_enc(names),
    ensures
        names_dec(names.len() as int, b, off) == Ok::<(Seq<Seq<u8>>, int), DecodeError>((
            names,
            off + names_enc(names).len(),
        )),
    decreases names,
{
    vstd::bytes::lemma_auto_spec_u64_to_from_le_bytes();
    if names.len() == 0 {
        assert(Seq::<Seq<u8>>::empty() =~= names);
    } else {
        let head = crate::wire::enc_bytes(names[0]);
        let rest = names_enc(names.drop_first());
        assert(names_enc(names) == head + rest);
        crate::wire::lemma_window(b, off, head, rest);
        crate::wire::lemma_rt_bytes(b, off, names[0]);
        lemma_names_rt(names.drop_first(), b, off + head.len());
        assert(seq![names[0]] + names.drop_first() =~= names);
    }
}

/// An encoded init strategy reads back as itself.
proof fn lemma_strategy_rt(s: InitStrategyModel)
    requires
        wf_strategy(s),
    ensures
        strategy_dec(strategy_enc(s)) == Ok::<InitStrategyModel, DecodeError>(s),
{
    vstd::bytes::lemma_auto_spec_u64_to_from_le_bytes();
    match s {
        InitStrategyModel::All => {},
        InitStrategyModel::NoArgs => {},
        InitStrategyModel::Named(kwargs) => {
            let whole = strategy_enc(s);
            let wn = crate::wire::enc_u64(kwargs.len() as u64);
            let wnames = names_enc(kwargs);
            assert(whole == seq![1u8] + wn + wnames);
            assert(whole =~= seq![1u8] + (wn + wnames));
            assert(whole.subrange(0, whole.len() as int) =~= whole);
            crate::wire::lemma_window(whole, 0, seq![1u8], wn + wnames);
            crate::wire::lemma_window(whole, 1, wn, wnames);
            assert(whole[0] == 1u8);
            crate::wire::lemma_rt_usize(whole, 1, kwargs.len() as int);
            lemma_names_rt(kwargs, whole, 9);
        },
    }
}

/// An encoded array configuration reads back as itself.
#[verifier::rlimit(100)]
proof fn lemma_config_rt(c: ArrayConfigModel)
    requires
        wf_config(c),
    ensures
        config_dec(config_enc(c)) == Ok::<ArrayConfigModel, DecodeError>(c),
{
    vstd::bytes::lemma_auto_spec_u64_to_from_le_bytes();
    let whole = config_enc(c);
    assert(whole.subrange(0, whole.len() as int) =~= whole);
    match c {
        ArrayConfigModel::Dynamic { pre_pkl, post_pkl } => {
            let w1 = opt_pkl_enc(pre_pkl);
            let w2 = opt_pkl_enc(post_pkl);
            assert(whole == seq![0u8] + w1 + w2);
            assert(whole =~= seq![0u8] + (w1 + w2));
            crate::wire::lemma_window(whole, 0, seq![0u8], w1 + w2);
            crate::wire::lemma_window(whole, 1, w1, w2);
            assert(whole[0] == 0u8);
            lemma_opt_pkl_rt(whole, 1, pre_pkl);
            lemma_opt_pkl_rt(whole, 1 + w1.len() as int, post_pkl);
        },
        ArrayConfigModel::Fixed { pre_pkl, post_pkl, shape, pool_min, pool_max } => {
            crate::codec::lemma_enc_shape_len(shape);
            let w1 = opt_pkl_enc(pre_pkl);
            let w2 = opt_pkl_enc(post_pkl);
            let w3 = crate::wire::enc_u64(shape.len() as u64);
            let w4 = crate::codec::enc_shape(shape);
            let w5 = crate::wire::enc_u64(pool_min as u64);
            let w6 = opt_usize_enc(pool_max);
            assert(whole == seq![1u8] + w1 + w2 + w3 + w4 + w5 + w6);
            assert(whole =~= seq![1u8] + (w1 + (w2 + (w3 + (w4 + (w5 + w6))))));
            crate::wire::lemma_window(whole, 0, seq![1u8], w1 + (w2 + (w3 + (w4 + (w5 + w6)))));
            assert(whole[0] == 1u8);
            let o1 = 1int;
            crate::wire::lemma_window(whole, o1, w1, w2 + (w3 + (w4 + (w5 + w6))));
            lemma_opt_pkl_rt(whole, o1, pre_pkl);
            let o2: int = o1 + w1.len() as int;
            crate::wire::lemma_window(whole, o2, w2, w3 + (w4 + (w5 + w6)));
            lemma_opt_pkl_rt(whole, o2, post_pkl);
            let o3: int = o2 + w2.len() as int;
            crate::wire::lemma_window(whole, o3, w3, w4 + (w5 + w6));
            crate::wire::lemma_rt_usize(whole, o3, shape.len() as int);
            let o4: int = o3 + 8;
            crate::wire::lemma_window(whole, o4, w4, w5 + w6);
            crate::codec::lemma_rt_shape(shape, whole, o4);
            let o5: int = o4 + w4.len() as int;
            crate::wire::lemma_window(whole, o5, w5, w6);
            crate::wire::lemma_rt_usize(whole, o5, pool_min as int);
            let o6: int = o5 + 8;
            lemma_opt_usize_rt(whole, o6, pool_max);
        },
    }
}

/// Descriptor round trip: deserializing a well-formed descriptor's own
/// serialization yields exactly that descriptor, so the codec built from
/// the reconstruction is the codec built from the original.
#[verifier::rlimit(100)]
pub proof fn lemma_desc_round_trip(d: DescModel)
    requires
        wf_desc(d),
        desc_enc(d).len() <= usize::MAX,
    ensures
        desc_dec(desc_enc(d)) == Ok::<DescModel, DecodeError>(d),
    decreases d, 1int, 0int,
{
    vstd::bytes::lemma_auto_spec_u64_to_from_le_bytes();
    let whole = desc_enc(d);
    assert(whole.subrange(0, whole.len() as int) =~= whole);
    match d {
        DescModel::Bool => {},
        DescModel::Bytes => {},
        DescModel::Complex => {},
        DescModel::Dynamic => {},
        DescModel::Float => {},
        DescModel::Int => {},
        DescModel::Pickle => {},
        DescModel::Str => {},
        DescModel::Dataclass { class_pkl, strategy, fields } => {
            lemma_desc_rt_dataclass(d);
        },
        DescModel::Dict(dk, dv) => {
            let w1 = crate::wire::enc_bytes(desc_enc(*dk));
            let w2 = crate::wire::enc_bytes(desc_enc(*dv));
            assert(whole == seq![4u8] + w1 + w2);
            assert(whole =~= seq![4u8] + (w1 + w2));
            crate::wire::lemma_window(whole, 0, seq![4u8], w1 + w2);
            assert(whole[0] == 4u8);
            crate::wire::lemma_window(whole, 1, w1, w2);
            lemma_desc_frame_rt(*dk, whole, 1);
            lemma_desc_frame_rt(*dv, whole, 1 + w1.len() as int);
        },
        DescModel::List(di) => {
            let w1 = crate::wire::enc_bytes(desc_enc(*di));
            assert(whole == seq![8u8] + w1);
            crate::wire::lemma_window(whole, 0, seq![8u8], w1);
            assert(whole[0] == 8u8);
            lemma_desc_frame_rt(*di, whole, 1);
        },
        DescModel::Array { kind, config } => {
            lemma_desc_rt_array(d);
        },
        DescModel::Optional(di) => {
            let w1 = crate::wire::enc_bytes(desc_enc(*di));
            assert(whole == seq![10u8] + w1);
            crate::wire::lemma_window(whole, 0, seq![10u8], w1);
            assert(whole[0] == 10u8);
            lemma_desc_frame_rt(*di, whole, 1);
        },
        DescModel::External { serde_pkl } => {
            let w1 = crate::wire::enc_bytes(serde_pkl);
            assert(whole == seq![12u8] + w1);
            crate::wire::lemma_window(whole, 0, seq![12u8], w1);
            assert(whole[0] == 12u8);
            crate::wire::lemma_rt_bytes(whole, 1, serde_pkl);
        },
        DescModel::SetOf(di) => {
            let w1 = crate::wire::enc_bytes(desc_enc(*di));
            assert(whole == seq![13u8] + w1);
            crate::wire::lemma_window(whole, 0, seq![13u8], w1);
            assert(whole[0] == 13u8);
            lemma_desc_frame_rt(*di, whole, 1);
        },
        DescModel::Tuple(items) => {
            let w1 = crate::wire::enc_u64(items.len() as u64);
            let w2 = descs_enc(items);
            assert(whole == seq![15u8] + w1 + w2);
            assert(whole =~= seq![15u8] + (w1 + w2));
            crate::wire::lemma_window(whole, 0, seq![15u8], w1 + w2);
            assert(whole[0] == 15u8);
            crate::wire::lemma_window(whole, 1, w1, w2);
            crate::wire::lemma_rt_usize(whole, 1, items.len() as int);
            lemma_descs_rt(items, whole, 9);
        },
        DescModel::TypedDict(fields) => {
            let w1 = crate::wire::enc_u64(fields.len() as u64);
            let w2 = dfields_enc(fields);
            assert(whole == seq![16u8] + w1 + w2);
            assert(whole =~= seq![16u8] + (w1 + w2));
            crate::wire::lemma_window(whole, 0, seq![16u8], w1 + w2);
            assert(whole[0] == 16u8);
            crate::wire::lemma_window(whole, 1, w1, w2);
            crate::wire::lemma_rt_usize(whole, 1, fields.len() as int);
            lemma_dfields_rt(fields, whole, 9);
        },
        DescModel::Union { options, selector_pkl } => {
            lemma_desc_rt_union(d);
        },
    }
}

/// A window holding a nested descriptor frame reads back as it.
proof fn lemma_desc_frame_rt(child: DescModel, b: Seq<u8>, off: int)
    requires
        wf_desc(child),
        desc_enc(child).len() <= usize::MAX,
        0 <= off,
        off + 8 + desc_enc(child).len() <= b.len(),
        b.subrange(off, off + 8 + desc_enc(child).len()) == crate::wire::enc_bytes(
            desc_enc(child),
        ),
    ensures
        desc_frame_dec(b, off) == Ok::<(DescModel, int), DecodeError>((
            child,
            off + 8 + desc_enc(child).len(),
        )),
    decreases child, 2int, 0int,
{
    vstd::bytes::lemma_auto_spec_u64_to_from_le_bytes();
    crate::wire::lemma_rt_bytes(b, off, desc_enc(child));
    lemma_desc_round_trip(child);
}

/// A window holding a run of descriptor frames reads back as them.
proof fn lemma_descs_rt(items: Seq<DescModel>, b: Seq<u8>, off: int)
    requires
        wf_descs(items),
        descs_enc(items).len() <= usize::MAX,
        0 <= off,
        off + descs_enc(items).len() <= b.len(),
        b.subrange(off, off + descs_enc(items).len()) == descs_enc(items),
    ensures
        descs_dec(b, off, items.len() as int) == Ok::<(Seq<DescModel>, int), DecodeError>((
            items,
            off + descs_enc(items).len(),
        )),
    decreases items, 2int, 0int,
{
    vstd::bytes::lemma_auto_spec_u64_to_from_le_bytes();
    if items.len() == 0 {
        assert(Seq::<DescModel>::empty() =~= items);
    } else {
        let head = crate::wire::enc_bytes(desc_enc(items[0]));
        let rest = descs_enc(items.drop_first());
        assert(descs_enc(items) == head + rest);
        crate::wire::lemma_window(b, off, head, rest);
        lemma_desc_frame_rt(items[0], b, off);
        lemma_descs_rt(items.drop_first(), b, off + head.len());
        assert(seq![items[0]] + items.drop_first() =~= items);
    }
}

/// A window holding a run of named descriptor frames reads back as them.
proof fn lemma_dfields_rt(fields: Seq<(Seq<u8>, DescModel)>, b: Seq<u8>, off: int)
    requires
        wf_dfields(fields),
        dfields_enc(fields).len() <= usize::MAX,
        0 <= off,
        off + dfields_enc(fields).len() <= b.len(),
        b.subrange(off, off + dfields_enc(fields).len()) == dfields_enc(fields),
    ensures
        dfields_dec(b, off, fields.len() as int) == Ok::<
            (Seq<(Seq<u8>, DescModel)>, int),
            DecodeError,
        >((fields, off + dfields_enc(fields).len())),
    decreases fields, 2int, 0int,
{
    vstd::bytes::lemma_auto_spec_u64_to_from_le_bytes();
    if fields.len() == 0 {
        assert(Seq::<(Seq<u8>, DescModel)>::empty() =~= fields);
    } else {
        let w1 = crate::wire::enc_bytes(fields[0].0);
        let w2 = crate::wire::enc_bytes(desc_enc(fields[0].1));
        let rest = dfields_enc(fields.drop_first());
        assert(dfields_enc(fields) == w1 + w2 + rest);
        assert(dfields_enc(fields) =~= w1 + (w2 + rest));
        crate::wire::lemma_window(b, off, w1, w2 + rest);
        crate::wire::lemma_window(b, off + w1.len(), w2, rest);
        crate::wire::lemma_rt_bytes(b, off, fields[0].0);
        lemma_desc_frame_rt(fields[0].1, b, off + w1.len());
        lemma_dfields_rt(fields.drop_first(), b, off + w1.len() + w2.len());
        assert((fields[0].0, fields[0].1) == fields[0]);
        assert(seq![fields[0]] + fields.drop_first() =~= fields);
    }
}

/// Round trip for a record descriptor.
#[verifier::rlimit(100)]
proof fn lemma_desc_rt_dataclass(d: DescModel)
    requires
        wf_desc(d),
        desc_enc(d).len() <= usize::MAX,
        d is Dataclass,
    ensures
        desc_dec(desc_enc(d)) == Ok::<DescModel, DecodeError>(d),
    decreases d, 0int, 0int,
{
    vstd::bytes::lemma_auto_spec_u64_to_from_le_bytes();
    let whole = desc_enc(d);
    assert(whole.subrange(0, whole.len() as int) =~= whole);
    let class_pkl = d->Dataclass_class_pkl;
    let strategy = d->Dataclass_strategy;
    let fields = d->Dataclass_fields;
    let sframe = strategy_enc(strategy);
    let w1 = crate::wire::enc_bytes(sframe);
    let w2 = crate::wire::enc_u64(fields.len() as u64);
    let w3 = dfields_enc(fields);
    let w4 = crate::wire::enc_bytes(class_pkl);
    assert(whole == seq![3u8] + w1 + w2 + w3 + w4);
    assert(whole =~= seq![3u8] + (w1 + (w2 + (w3 + w4))));
    crate::wire::lemma_window(whole, 0, seq![3u8], w1 + (w2 + (w3 + w4)));
    assert(whole[0] == 3u8);
    crate::wire::lemma_window(whole, 1, w1, w2 + (w3 + w4));
    crate::wire::lemma_rt_bytes(whole, 1, sframe);
    lemma_strategy_rt(strategy);
    let o2: int = 1 + w1.len() as int;
    crate::wire::lemma_window(whole, o2, w2, w3 + w4);
    crate::wire::lemma_rt_usize(whole, o2, fields.len() as int);
    let o3: int = o2 + 8;
    crate::wire::lemma_window(whole, o3, w3, w4);
    lemma_dfields_rt(fields, whole, o3);
    let o4: int = o3 + w3.len() as int;
    crate::wire::lemma_rt_bytes(whole, o4, class_pkl);
}

/// Round trip for a union descriptor.
#[verifier::rlimit(100)]
proof fn lemma_desc_rt_union(d: DescModel)
    requires
        wf_desc(d),
        desc_enc(d).len() <= usize::MAX,
        d is Union,
    ensures
        desc_dec(desc_enc(d)) == Ok::<DescModel, DecodeError>(d),
    decreases d, 0int, 0int,
{
    vstd::bytes::lemma_auto_spec_u64_to_from_le_bytes();
    let whole = desc_enc(d);
    assert(whole.subrange(0, whole.len() as int) =~= whole);
    let options = d->Union_options;
    let selector_pkl = d->Union_selector_pkl;
    let w1 = crate::wire::enc_u64(options.len() as u64);
    let w2 = descs_enc(options);
    let w3 = crate::wire::enc_bytes(selector_pkl);
    assert(whole == seq![17u8] + w1 + w2 + w3);
    assert(whole =~= seq![17u8] + (w1 + (w2 + w3)));
    crate::wire::lemma_window(whole, 0, seq![17u8], w1 + (w2 + w3));
    assert(whole[0] == 17u8);
    crate::wire::lemma_window(whole, 1, w1, w2 + w3);
    crate::wire::lemma_rt_usize(whole, 1, options.len() as int);
    crate::wire::lemma_window(whole, 9, w2, w3);
    lemma_descs_rt(options, whole, 9);
    crate::wire::lemma_rt_bytes(whole, 9 + w2.len() as int, selector_pkl);
}

/// Round trip for a numeric-array descriptor.
#[verifier::rlimit(100)]
proof fn lemma_desc_rt_array(d: DescModel)
    requires
        wf_desc(d),
        desc_enc(d).len() <= usize::MAX,
        d is Array,
    ensures
        desc_dec(desc_enc(d)) == Ok::<DescModel, DecodeError>(d),
{
    vstd::bytes::lemma_auto_spec_u64_to_from_le_bytes();
    let whole = desc_enc(d);
    assert(whole.subrange(0, whole.len() as int) =~= whole);
    let kind = d->Array_kind;
    let config = d->Array_config;
    let cframe = config_enc(config);
    let w1 = crate::wire::enc_bytes(cframe);
    assert(whole == seq![9u8, spec_kind_byte(kind)] + w1);
    assert(whole =~= seq![9u8] + (seq![spec_kind_byte(kind)] + w1));
    crate::wire::lemma_window(whole, 0, seq![9u8], seq![spec_kind_byte(kind)] + w1);
    crate::wire::lemma_window(whole, 1, seq![spec_kind_byte(kind)], w1);
    assert(whole[0] == 9u8);
    assert(whole[1] == spec_kind_byte(kind));
    lemma_kind_byte_roundtrip(kind);
    crate::wire::lemma_rt_bytes(whole, 2, cframe);
    lemma_config_rt(config);
}

} // verus!

verus! {

// ---------------------------------------------------------------------
// Serialize: building the compact binary form.
// ---------------------------------------------------------------------

/// Appends the optional embedded byte run's wire form.
fn push_opt_pkl(v: &mut Vec<u8>, o: &Option<Vec<u8>>)
    ensures
        final(v)@ == old(v)@ + opt_pkl_enc(opt_view(*o)),
{
    match o {
        Some(p) => {
            let ghost before = v@;
            crate::wire::push_bool(v, true);
            crate::wire::push_bytes(v, p.as_slice());
            assert(v@ =~= before + opt_pkl_enc(opt_view(*o)));
        },
        None => {
            crate::wire::push_bool(v, false);
        },
    }
}

/// Appends the optional size's wire form.
fn push_opt_usize(v: &mut Vec<u8>, o: &Option<usize>)
    ensures
        final(v)@ == old(v)@ + opt_usize_enc(*o),
{
    match o {
        Some(m) => {
            let ghost before = v@;
            crate::wire::push_bool(v, true);
            crate::wire::push_u64(v, *m as u64);
            assert(v@ =~= before + opt_usize_enc(*o));
        },
        None => {
            crate::wire::push_bool(v, false);
        },
    }
}

/// Appends the picked names' wire form, from `idx` on.
fn push_names(names: &Vec<Vec<u8>>, idx: usize, v: &mut Vec<u8>)
    requires
        idx <= names@.len(),
    ensures
        final(v)@ == old(v)@ + names_enc(byte_views_of(names@).skip(idx as int)),
    decreases names@.len() - idx,
{
    proof {
        crate::init::lemma_byte_views_of(names@);
    }
    let ghost sk = byte_views_of(names@).skip(idx as int);
    if idx == names.len() {
        assert(sk =~= Seq::<Seq<u8>>::empty());
        assert(v@ =~= v@ + names_enc(sk));
        return ;
    }
    proof {
        assert(sk[0] == byte_views_of(names@)[idx as int]);
        assert(sk.drop_first() =~= byte_views_of(names@).skip(idx as int + 1));
    }
    let ghost before = v@;
    crate::wire::push_bytes(v, names[idx].as_slice());
    push_names(names, idx + 1, v);
    proof {
        assert(names_enc(sk) == crate::wire::enc_bytes(sk[0]) + names_enc(sk.drop_first()));
        assert(v@ =~= before + names_enc(sk));
    }
}

/// Appends an init strategy's wire form.
fn push_strategy(s: &InitStrategy, v: &mut Vec<u8>)
    ensures
        final(v)@ == old(v)@ + strategy_enc(s@),
{
    match s {
        InitStrategy::All => {
            crate::wire::push_byte(v, 0);
        },
        InitStrategy::Named(kwargs) => {
            proof {
                crate::init::lemma_byte_views_of(kwargs@);
            }
            let ghost before = v@;
            crate::wire::push_byte(v, 1);
            crate::wire::push_u64(v, kwargs.len() as u64);
            assert(byte_views_of(kwargs@).skip(0) =~= byte_views_of(kwargs@));
            push_names(kwargs, 0, v);
            assert(v@ =~= before + strategy_enc(s@));
        },
        InitStrategy::NoArgs => {
            crate::wire::push_byte(v, 2);
        },
    }
}

/// Appends the dimensions of a shape, from `idx` on.
fn push_shape(shape: &Vec<usize>, idx: usize, v: &mut Vec<u8>)
    requires
        idx <= shape@.len(),
    ensures
        final(v)@ == old(v)@ + crate::codec::enc_shape(shape@.skip(idx as int)),
    decreases shape@.len() - idx,
{
    let ghost sk = shape@.skip(idx as int);
    if idx == shape.len() {
        assert(sk =~= Seq::<usize>::empty());
        assert(v@ =~= v@ + crate::codec::enc_shape(sk));
        return ;
    }
    proof {
        assert(sk[0] == shape@[idx as int]);
        assert(sk.drop_first() =~= shape@.skip(idx as int + 1));
    }
    let ghost before = v@;
    crate::wire::push_u64(v, shape[idx] as u64);
    push_shape(shape, idx + 1, v);
    proof {
        assert(crate::codec::enc_shape(sk) == crate::wire::enc_u64(sk[0] as u64)
            + crate::codec::enc_shape(sk.drop_first()));
        assert(v@ =~= before + crate::codec::enc_shape(sk));
    }
}

/// Appends an array configuration's wire form.
fn push_config(c: &ArrayConfig, v: &mut Vec<u8>)
    ensures
        final(v)@ == old(v)@ + config_enc(c@),
{
    match c {
        ArrayConfig::Dynamic { pre_pkl, post_pkl } => {
            let ghost before = v@;
            crate::wire::push_byte(v, 0);
            push_opt_pkl(v, pre_pkl);
            push_opt_pkl(v, post_pkl);
            assert(v@ =~= before + config_enc(c@));
        },
        ArrayConfig::Fixed { pre_pkl, post_pkl, shape, pool_min, pool_max } => {
            let ghost before = v@;
            crate::wire::push_byte(v, 1);
            push_opt_pkl(v, pre_pkl);
            push_opt_pkl(v, post_pkl);
            crate::wire::push_u64(v, shape.len() as u64);
            assert(shape@.skip(0) =~= shape@);
            push_shape(shape, 0, v);
            crate::wire::push_u64(v, *pool_min as u64);
            push_opt_usize(v, pool_max);
            assert(v@ =~= before + config_enc(c@));
        },
    }
}

/// Appends the frames of a run of descriptors, from `idx` on.
fn push_descs(items: &Vec<CodecDescriptor>, idx: usize, v: &mut Vec<u8>)
    requires
        idx <= items@.len(),
    ensures
        final(v)@ == old(v)@ + descs_enc(desc_views_of(items@).skip(idx as int)),
    decreases items, 1int, items@.len() - idx,
{
    proof {
        lemma_desc_views_of(items@);
    }
    let ghost sk = desc_views_of(items@).skip(idx as int);
    if idx == items.len() {
        assert(sk =~= Seq::<DescModel>::empty());
        assert(v@ =~= v@ + descs_enc(sk));
        return ;
    }
    proof {
        assert(sk[0] == desc_views_of(items@)[idx as int]);
        assert(sk.drop_first() =~= desc_views_of(items@).skip(idx as int + 1));
    }
    let ghost before = v@;
    let frame = items[idx].serialize();
    crate::wire::push_bytes(v, frame.as_slice());
    push_descs(items, idx + 1, v);
    proof {
        assert(descs_enc(sk) == crate::wire::enc_bytes(desc_enc(sk[0])) + descs_enc(
            sk.drop_first(),
        ));
        assert(v@ =~= before + descs_enc(sk));
    }
}

/// Appends the named frames of a run of child descriptors, from `idx` on.
fn push_dfields(fields: &Vec<(Vec<u8>, CodecDescriptor)>, idx: usize, v: &mut Vec<u8>)
    requires
        idx <= fields@.len(),
    ensures
        final(v)@ == old(v)@ + dfields_enc(desc_field_views_of(fields@).skip(idx as int)),
    decreases fields, 1int, fields@.len() - idx,
{
    proof {
        lemma_desc_field_views_of(fields@);
    }
    let ghost sk = desc_field_views_of(fields@).skip(idx as int);
    if idx == fields.len() {
        assert(sk =~= Seq::<(Seq<u8>, DescModel)>::empty());
        assert(v@ =~= v@ + dfields_enc(sk));
        return ;
    }
    proof {
        assert(sk[0] == desc_field_views_of(fields@)[idx as int]);
        assert(sk.drop_first() =~= desc_field_views_of(fields@).skip(idx as int + 1));
    }
    let ghost before = v@;
    crate::wire::push_bytes(v, fields[idx].0.as_slice());
    let frame = fields[idx].1.serialize();
    crate::wire::push_bytes(v, frame.as_slice());
    push_dfields(fields, idx + 1, v);
    proof {
        assert(dfields_enc(sk) == crate::wire::enc_bytes(sk[0].0) + crate::wire::enc_bytes(
            desc_enc(sk[0].1),
        ) + dfields_enc(sk.drop_first()));
        assert(v@ =~= before + dfields_enc(sk));
    }
}

impl CodecDescriptor {
    /// Appends this descriptor's wire form at the end of a growing
    /// buffer.
    fn serialize_into(&self, v: &mut Vec<u8>)
        ensures
            final(v)@ == old(v)@ + desc_enc(self@),
        decreases self, 1int, 0int,
    {
        let ghost before = v@;
        match self {
            CodecDescriptor::Bool => {
                crate::wire::push_byte(v, 0);
            },
            CodecDescriptor::Bytes => {
                crate::wire::push_byte(v, 1);
            },
            CodecDescriptor::Complex => {
                crate::wire::push_byte(v, 2);
            },
            CodecDescriptor::Dataclass { class_pkl, strategy, fields } => {
                crate::wire::push_byte(v, 3);
                let mut sframe: Vec<u8> = Vec::new();
                push_strategy(strategy, &mut sframe);
                crate::wire::push_bytes(v, sframe.as_slice());
                crate::wire::push_u64(v, fields.len() as u64);
                proof {
                    lemma_desc_field_views_of(fields@);
                    assert(desc_field_views_of(fields@).skip(0) =~= desc_field_views_of(
                        fields@,
                    ));
                }
                push_dfields(fields, 0, v);
                crate::wire::push_bytes(v, class_pkl.as_slice());
                assert(v@ =~= before + desc_enc(self@));
            },
            CodecDescriptor::Dict(dk, dv) => {
                crate::wire::push_byte(v, 4);
                let kframe = dk.serialize();
                crate::wire::push_bytes(v, kframe.as_slice());
                let vframe = dv.serialize();
                crate::wire::push_bytes(v, vframe.as_slice());
                assert(v@ =~= before + desc_enc(self@));
            },
            CodecDescriptor::Dynamic => {
                crate::wire::push_byte(v, 5);
            },
            CodecDescriptor::Float => {
                crate::wire::push_byte(v, 6);
            },
            CodecDescriptor::Int => {
                crate::wire::push_byte(v, 7);
            },
            CodecDescriptor::List(di) => {
                crate::wire::push_byte(v, 8);
                let frame = di.serialize();
                crate::wire::push_bytes(v, frame.as_slice());
                assert(v@ =~= before + desc_enc(self@));
            },
            CodecDescriptor::Array { kind, config } => {
                crate::wire::push_byte(v, 9);
                crate::wire::push_byte(v, kind_byte(*kind));
                let mut cframe: Vec<u8> = Vec::new();
                push_config(config, &mut cframe);
                crate::wire::push_bytes(v, cframe.as_slice());
                assert(v@ =~= before + desc_enc(self@));
            },
            CodecDescriptor::Optional(di) => {
                crate::wire::push_byte(v, 10);
                let frame = di.serialize();
                crate::wire::push_bytes(v, frame.as_slice());
                assert(v@ =~= before + desc_enc(self@));
            },
            CodecDescriptor::Pickle => {
                crate::wire::push_byte(v, 11);
            },
            CodecDescriptor::External { serde_pkl } => {
                crate::wire::push_byte(v, 12);
                crate::wire::push_bytes(v, serde_pkl.as_slice());
                assert(v@ =~= before + desc_enc(self@));
            },
            CodecDescriptor::SetOf(di) => {
                crate::wire::push_byte(v, 13);
                let frame = di.serialize();
                crate::wire::push_bytes(v, frame.as_slice());
                assert(v@ =~= before + desc_enc(self@));
            },
            CodecDescriptor::Str => {
                crate::wire::push_byte(v, 14);
            },
            CodecDescriptor::Tuple(items) => {
                crate::wire::push_byte(v, 15);
                crate::wire::push_u64(v, items.len() as u64);
                proof {
                    lemma_desc_views_of(items@);
                    assert(desc_views_of(items@).skip(0) =~= desc_views_of(items@));
                }
                push_descs(items, 0, v);
                assert(v@ =~= before + desc_enc(self@));
            },
            CodecDescriptor::TypedDict(fields) => {
                crate::wire::push_byte(v, 16);
                crate::wire::push_u64(v, fields.len() as u64);
                proof {
                    lemma_desc_field_views_of(fields@);
                    assert(desc_field_views_of(fields@).skip(0) =~= desc_field_views_of(
                        fields@,
                    ));
                }
                push_dfields(fields, 0, v);
                assert(v@ =~= before + desc_enc(self@));
            },
            CodecDescriptor::Union { options, selector_pkl } => {
                crate::wire::push_byte(v, 17);
                crate::wire::push_u64(v, options.len() as u64);
                proof {
                    lemma_desc_views_of(options@);
                    assert(desc_views_of(options@).skip(0) =~= desc_views_of(options@));
                }
                push_descs(options, 0, v);
                crate::wire::push_bytes(v, selector_pkl.as_slice());
                assert(v@ =~= before + desc_enc(self@));
            },
        }
    }

    /// The compact binary form of this descriptor, ready to cross the
    /// process boundary.
    pub fn serialize(&self) -> (out: Vec<u8>)
        ensures
            out@ == desc_enc(self@),
        decreases self, 2int, 0int,
    {
        let mut out: Vec<u8> = Vec::new();
        self.serialize_into(&mut out);
        proof {
            assert(Seq::<u8>::empty() + desc_enc(self@) =~= desc_enc(self@));
        }
        out
    }
}

} // verus!

verus! {

// ---------------------------------------------------------------------
// Deserialize: reading the compact binary form back.
// ---------------------------------------------------------------------

/// Reads an optional embedded byte run at `offset`.
fn retrieve_opt_pkl(buf: &Vec<u8>, offset: usize) -> (r: Result<
    (Option<Vec<u8>>, usize),
    DecodeError,
>)
    ensures
        match r {
            Ok((o, end)) => end <= buf@.len() && opt_pkl_dec(buf@, offset as int) == Ok::<
                (Option<Seq<u8>>, int),
                DecodeError,
            >((opt_view(o), end as int)),
            Err(e) => opt_pkl_dec(buf@, offset as int) == Err::<
                (Option<Seq<u8>>, int),
                DecodeError,
            >(e),
        },
{
    match crate::wire::retrieve_bool(buf, offset) {
        Err(e) => Err(e),
        Ok((present, o2)) => {
            if present {
                match crate::wire::retrieve_bytes(buf, o2) {
                    Err(e) => Err(e),
                    Ok((p, o3)) => Ok((Some(p), o3)),
                }
            } else {
                Ok((None, o2))
            }
        },
    }
}

/// Reads an optional size at `offset`.
fn retrieve_opt_usize(buf: &Vec<u8>, offset: usize) -> (r: Result<
    (Option<usize>, usize),
    DecodeError,
>)
    ensures
        match r {
            Ok((o, end)) => end <= buf@.len() && opt_usize_dec(buf@, offset as int) == Ok::<
                (Option<usize>, int),
                DecodeError,
            >((o, end as int)),
            Err(e) => opt_usize_dec(buf@, offset as int) == Err::<
                (Option<usize>, int),
                DecodeError,
            >(e),
        },
{
    match crate::wire::retrieve_bool(buf, offset) {
        Err(e) => Err(e),
        Ok((present, o2)) => {
            if present {
                match crate::wire::retrieve_usize(buf, o2) {
                    Err(e) => Err(e),
                    Ok((m, o3)) => Ok((Some(m), o3)),
                }
            } else {
                Ok((None, o2))
            }
        },
    }
}

/// Reads `n` picked names at `offset`, validating each as UTF-8.
fn retrieve_names(buf: &Vec<u8>, offset: usize, n: usize) -> (r: Result<
    (Vec<Vec<u8>>, usize),
    DecodeError,
>)
    ensures
        match r {
            Ok((ns, end)) => names_dec(n as int, buf@, offset as int) == Ok::<
                (Seq<Seq<u8>>, int),
                DecodeError,
            >((byte_views_of(ns@), end as int)),
            Err(e) => names_dec(n as int, buf@, offset as int) == Err::<
                (Seq<Seq<u8>>, int),
                DecodeError,
            >(e),
        },
    decreases n,
{
    if n == 0 {
        let ns: Vec<Vec<u8>> = Vec::new();
        proof {
            assert(byte_views_of(ns@) =~= Seq::<Seq<u8>>::empty());
        }
        return Ok((ns, offset));
    }
    match crate::wire::retrieve_bytes(buf, offset) {
        Err(e) => Err(e),
        Ok((p, o2)) => {
            if !crate::utf8::validate_utf8(p.as_slice()) {
                return Err(DecodeError::BadUtf8);
            }
            match retrieve_names(buf, o2, n - 1) {
                Err(e) => Err(e),
                Ok((rest, end)) => {
                    let ghost rest0 = rest@;
                    let ghost p0 = p@;
                    let mut ns = rest;
                    ns.insert(0, p);
                    proof {
                        assert(ns@ =~= seq![ns@[0]] + rest0);
                        assert((seq![ns@[0]] + rest0)[0] == ns@[0]);
                        assert((seq![ns@[0]] + rest0).drop_first() =~= rest0);
                        assert(byte_views_of(ns@) == seq![p0] + byte_views_of(rest0));
                    }
                    Ok((ns, end))
                },
            }
        },
    }
}

/// Reads an init strategy from its frame.
fn parse_strategy(frame: &Vec<u8>) -> (r: Result<InitStrategy, DecodeError>)
    ensures
        match r {
            Ok(s) => strategy_dec(frame@) == Ok::<InitStrategyModel, DecodeError>(s@),
            Err(e) => strategy_dec(frame@) == Err::<InitStrategyModel, DecodeError>(e),
        },
{
    if frame.len() < 1 {
        return Err(DecodeError::TooShort);
    }
    let tag = frame[0];
    if tag == 0 {
        Ok(InitStrategy::All)
    } else if tag == 1 {
        match crate::wire::retrieve_usize(frame, 1) {
            Err(e) => Err(e),
            Ok((n, o2)) => {
                match retrieve_names(frame, o2, n) {
                    Err(e) => Err(e),
                    Ok((ns, _)) => Ok(InitStrategy::Named(ns)),
                }
            },
        }
    } else if tag == 2 {
        Ok(InitStrategy::NoArgs)
    } else {
        Err(DecodeError::BadTag(tag))
    }
}

/// Reads `n` shape dimensions at `offset`.
fn retrieve_shape(buf: &Vec<u8>, offset: usize, n: usize) -> (r: Result<
    (Vec<usize>, usize),
    DecodeError,
>)
    ensures
        match r {
            Ok((ds, end)) => crate::codec::dec_shape(n as int, buf@, offset as int) == Ok::<
                (Seq<usize>, int),
                DecodeError,
            >((ds@, end as int)),
            Err(e) => crate::codec::dec_shape(n as int, buf@, offset as int) == Err::<
                (Seq<usize>, int),
                DecodeError,
            >(e),
        },
    decreases n,
{
    if n == 0 {
        let ds: Vec<usize> = Vec::new();
        proof {
            assert(ds@ =~= Seq::<usize>::empty());
        }
        return Ok((ds, offset));
    }
    match crate::wire::retrieve_usize(buf, offset) {
        Err(e) => Err(e),
        Ok((d, o2)) => {
            match retrieve_shape(buf, o2, n - 1) {
                Err(e) => Err(e),
                Ok((rest, end)) => {
                    let ghost rest0 = rest@;
                    let mut ds = rest;
                    ds.insert(0, d);
                    proof {
                        assert(ds@ =~= seq![d] + rest0);
                    }
                    Ok((ds, end))
                },
            }
        },
    }
}

/// Reads an array configuration from its frame.
fn parse_config(frame: &Vec<u8>) -> (r: Result<ArrayConfig, DecodeError>)
    ensures
        match r {
            Ok(c) => config_dec(frame@) == Ok::<ArrayConfigModel, DecodeError>(c@),
            Err(e) => config_dec(frame@) == Err::<ArrayConfigModel, DecodeError>(e),
        },
{
    if frame.len() < 1 {
        return Err(DecodeError::TooShort);
    }
    let tag = frame[0];
    if tag == 0 {
        match retrieve_opt_pkl(frame, 1) {
            Err(e) => Err(e),
            Ok((pre, o2)) => {
                match retrieve_opt_pkl(frame, o2) {
                    Err(e) => Err(e),
                    Ok((post, _)) => Ok(ArrayConfig::Dynamic { pre_pkl: pre, post_pkl: post }),
                }
            },
        }
    } else if tag == 1 {
        match retrieve_opt_pkl(frame, 1) {
            Err(e) => Err(e),
            Ok((pre, o2)) => {
                match retrieve_opt_pkl(frame, o2) {
                    Err(e) => Err(e),
                    Ok((post, o3)) => {
                        match crate::wire::retrieve_usize(frame, o3) {
                            Err(e) => Err(e),
                            Ok((rank, o4)) => {
                                match retrieve_shape(frame, o4, rank) {
                                    Err(e) => Err(e),
                                    Ok((shape, o5)) => {
                                        match crate::wire::retrieve_usize(frame, o5) {
                                            Err(e) => Err(e),
                                            Ok((pool_min, o6)) => {
                                                match retrieve_opt_usize(frame, o6) {
                                                    Err(e) => Err(e),
                                                    Ok((pool_max, _)) => Ok(ArrayConfig::Fixed {
                                                        pre_pkl: pre,
                                                        post_pkl: post,
                                                        shape,
                                                        pool_min,
                                                        pool_max,
                                                    }),
                                                }
                                            },
                                        }
                                    },
                                }
                            },
                        }
                    },
                }
            },
        }
    } else {
        Err(DecodeError::BadTag(tag))
    }
}

/// Reads a nested descriptor frame at `offset`.
fn deserialize_frame(buf: &Vec<u8>, offset: usize) -> (r: Result<
    (CodecDescriptor, usize),
    DecodeError,
>)
    ensures
        match r {
            Ok((d, end)) => end <= buf@.len() && desc_frame_dec(buf@, offset as int) == Ok::<
                (DescModel, int),
                DecodeError,
            >((d@, end as int)),
            Err(e) => desc_frame_dec(buf@, offset as int) == Err::<
                (DescModel, int),
                DecodeError,
            >(e),
        },
    decreases buf@.len(), 0int, 0int,
{
    match crate::wire::retrieve_bytes(buf, offset) {
        Err(e) => Err(e),
        Ok((p, o2)) => {
            if p.len() >= buf.len() {
                return Err(DecodeError::TooShort);
            }
            match CodecDescriptor::deserialize(&p) {
                Err(e) => Err(e),
                Ok(d) => Ok((d, o2)),
            }
        },
    }
}

/// Reads `n` descriptor frames at `offset`.
fn retrieve_descs(buf: &Vec<u8>, offset: usize, n: usize) -> (r: Result<
    (Vec<CodecDescriptor>, usize),
    DecodeError,
>)
    requires
        offset <= buf@.len(),
    ensures
        match r {
            Ok((ds, end)) => end <= buf@.len() && descs_dec(buf@, offset as int, n as int)
                == Ok::<(Seq<DescModel>, int), DecodeError>((desc_views_of(ds@), end as int)),
            Err(e) => descs_dec(buf@, offset as int, n as int) == Err::<
                (Seq<DescModel>, int),
                DecodeError,
            >(e),
        },
    decreases buf@.len(), 1int, n,
{
    if n == 0 {
        let ds: Vec<CodecDescriptor> = Vec::new();
        proof {
            assert(desc_views_of(ds@) =~= Seq::<DescModel>::empty());
        }
        return Ok((ds, offset));
    }
    match deserialize_frame(buf, offset) {
        Err(e) => Err(e),
        Ok((d, o2)) => {
            match retrieve_descs(buf, o2, n - 1) {
                Err(e) => Err(e),
                Ok((rest, end)) => {
                    let ghost rest0 = rest@;
                    let ghost d0 = d@;
                    let mut ds = rest;
                    ds.insert(0, d);
                    proof {
                        assert(ds@ =~= seq![ds@[0]] + rest0);
                        assert((seq![ds@[0]] + rest0)[0] == ds@[0]);
                        assert((seq![ds@[0]] + rest0).drop_first() =~= rest0);
                        assert(desc_views_of(ds@) == seq![d0] + desc_views_of(rest0));
                    }
                    Ok((ds, end))
                },
            }
        },
    }
}

/// Reads `n` named descriptor frames at `offset`, validating each name
/// as UTF-8.
fn retrieve_dfields(buf: &Vec<u8>, offset: usize, n: usize) -> (r: Result<
    (Vec<(Vec<u8>, CodecDescriptor)>, usize),
    DecodeError,
>)
    requires
        offset <= buf@.len(),
    ensures
        match r {
            Ok((fs, end)) => end <= buf@.len() && dfields_dec(buf@, offset as int, n as int)
                == Ok::<(Seq<(Seq<u8>, DescModel)>, int), DecodeError>((
                desc_field_views_of(fs@),
                end as int,
            )),
            Err(e) => dfields_dec(buf@, offset as int, n as int) == Err::<
                (Seq<(Seq<u8>, DescModel)>, int),
                DecodeError,
            >(e),
        },
    decreases buf@.len(), 1int, n,
{
    if n == 0 {
        let fs: Vec<(Vec<u8>, CodecDescriptor)> = Vec::new();
        proof {
            assert(desc_field_views_of(fs@) =~= Seq::<(Seq<u8>, DescModel)>::empty());
        }
        return Ok((fs, offset));
    }
    match crate::wire::retrieve_bytes(buf, offset) {
        Err(e) => Err(e),
        Ok((name, o2)) => {
            if !crate::utf8::validate_utf8(name.as_slice()) {
                return Err(DecodeError::BadUtf8);
            }
            match deserialize_frame(buf, o2) {
                Err(e) => Err(e),
                Ok((d, o3)) => {
                    match retrieve_dfields(buf, o3, n - 1) {
                        Err(e) => Err(e),
                        Ok((rest, end)) => {
                            let ghost rest0 = rest@;
                            let ghost name0 = name@;
                            let ghost d0 = d@;
                            let mut fs = rest;
                            fs.insert(0, (name, d));
                            proof {
                                assert(fs@ =~= seq![fs@[0]] + rest0);
                                assert((seq![fs@[0]] + rest0)[0] == fs@[0]);
                                assert((seq![fs@[0]] + rest0).drop_first() =~= rest0);
                                assert(desc_field_views_of(fs@) == seq![(name0, d0)]
                                    + desc_field_views_of(rest0));
                            }
                            Ok((fs, end))
                        },
                    }
                },
            }
        },
    }
}

impl CodecDescriptor {
    /// Rebuilds a descriptor from its compact binary form; trailing bytes
    /// after the descriptor are ignored.
    pub fn deserialize(state: &Vec<u8>) -> (r: Result<CodecDescriptor, DecodeError>)
        ensures
            match r {
                Ok(d) => desc_dec(state@) == Ok::<DescModel, DecodeError>(d@),
                Err(e) => desc_dec(state@) == Err::<DescModel, DecodeError>(e),
            },
        decreases state@.len(), 2int, 0int,
    {
        if state.len() < 1 {
            return Err(DecodeError::TooShort);
        }
        let tag = state[0];
        if tag == 0 {
            Ok(CodecDescriptor::Bool)
        } else if tag == 1 {
            Ok(CodecDescriptor::Bytes)
        } else if tag == 2 {
            Ok(CodecDescriptor::Complex)
        } else if tag == 3 {
            match crate::wire::retrieve_bytes(state, 1) {
                Err(e) => Err(e),
                Ok((sframe, o2)) => {
                    match parse_strategy(&sframe) {
                        Err(e) => Err(e),
                        Ok(strategy) => {
                            match crate::wire::retrieve_usize(state, o2) {
                                Err(e) => Err(e),
                                Ok((n, o3)) => {
                                    match retrieve_dfields(state, o3, n) {
                                        Err(e) => Err(e),
                                        Ok((fields, o4)) => {
                                            match crate::wire::retrieve_bytes(state, o4) {
                                                Err(e) => Err(e),
                                                Ok((class_pkl, _)) => Ok(
                                                    CodecDescriptor::Dataclass {
                                                        class_pkl,
                                                        strategy,
                                                        fields,
                                                    },
                                                ),
                                            }
                                        },
                                    }
                                },
                            }
                        },
                    }
                },
            }
        } else if tag == 4 {
            match deserialize_frame(state, 1) {
                Err(e) => Err(e),
                Ok((dk, o2)) => {
                    match deserialize_frame(state, o2) {
                        Err(e) => Err(e),
                        Ok((dv, _)) => Ok(CodecDescriptor::Dict(Box::new(dk), Box::new(dv))),
                    }
                },
            }
        } else if tag == 5 {
            Ok(CodecDescriptor::Dynamic)
        } else if tag == 6 {
            Ok(CodecDescriptor::Float)
        } else if tag == 7 {
            Ok(CodecDescriptor::Int)
        } else if tag == 8 {
            match deserialize_frame(state, 1) {
                Err(e) => Err(e),
                Ok((di, _)) => Ok(CodecDescriptor::List(Box::new(di))),
            }
        } else if tag == 9 {
            if state.len() < 2 {
                return Err(DecodeError::TooShort);
            }
            match kind_of_byte(state[1]) {
                None => Err(DecodeError::BadTag(state[1])),
                Some(kind) => {
                    match crate::wire::retrieve_bytes(state, 2) {
                        Err(e) => Err(e),
                        Ok((cframe, _)) => {
                            match parse_config(&cframe) {
                                Err(e) => Err(e),
                                Ok(config) => Ok(CodecDescriptor::Array { kind, config }),
                            }
                        },
                    }
                },
            }
        } else if tag == 10 {
            match deserialize_frame(state, 1) {
                Err(e) => Err(e),
                Ok((di, _)) => Ok(CodecDescriptor::Optional(Box::new(di))),
            }
        } else if tag == 11 {
            Ok(CodecDescriptor::Pickle)
        } else if tag == 12 {
            match crate::wire::retrieve_bytes(state, 1) {
                Err(e) => Err(e),
                Ok((serde_pkl, _)) => Ok(CodecDescriptor::External { serde_pkl }),
            }
        } else if tag == 13 {
            match deserialize_frame(state, 1) {
                Err(e) => Err(e),
                Ok((di, _)) => Ok(CodecDescriptor::SetOf(Box::new(di))),
            }
        } else if tag == 14 {
            Ok(CodecDescriptor::Str)
        } else if tag == 15 {
            match crate::wire::retrieve_usize(state, 1) {
                Err(e) => Err(e),
                Ok((n, o2)) => {
                    match retrieve_descs(state, o2, n) {
                        Err(e) => Err(e),
                        Ok((items, _)) => Ok(CodecDescriptor::Tuple(items)),
                    }
                },
            }
        } else if tag == 16 {
            match crate::wire::retrieve_usize(state, 1) {
                Err(e) => Err(e),
                Ok((n, o2)) => {
                    match retrieve_dfields(state, o2, n) {
                        Err(e) => Err(e),
                        Ok((fields, _)) => Ok(CodecDescriptor::TypedDict(fields)),
                    }
                },
            }
        } else if tag == 17 {
            match crate::wire::retrieve_usize(state, 1) {
                Err(e) => Err(e),
                Ok((n, o2)) => {
                    match retrieve_descs(state, o2, n) {
                        Err(e) => Err(e),
                        Ok((options, o3)) => {
                            match crate::wire::retrieve_bytes(state, o3) {
                                Err(e) => Err(e),
                                Ok((selector_pkl, _)) => Ok(
                                    CodecDescriptor::Union { options, selector_pkl },
                                ),
                            }
                        },
                    }
                },
            }
        } else {
            Err(DecodeError::BadTag(tag))
        }
    }
}

} // verus!

verus! {

// ---------------------------------------------------------------------
// Descriptor to codec: building the live tree.
// ---------------------------------------------------------------------

/// The declared names of a run of named child descriptors.
pub open spec fn dfield_names(fields: Seq<(Seq<u8>, DescModel)>) -> Seq<Seq<u8>>
    decreases fields,
{
    if fields.len() == 0 {
        Seq::empty()
    } else {
        seq![fields[0].0] + dfield_names(fields.drop_first())
    }
}

/// The names of a run are taken pointwise.
pub proof fn lemma_dfield_names(fields: Seq<(Seq<u8>, DescModel)>)
    ensures
        dfield_names(fields).len() == fields.len(),
        forall|i: int| 0 <= i < fields.len() ==> dfield_names(fields)[i] == fields[i].0,
    decreases fields,
{
    if fields.len() > 0 {
        lemma_dfield_names(fields.drop_first());
        assert forall|i: int| 0 <= i < fields.len() implies dfield_names(fields)[i]
            == fields[i].0 by {
            if i > 0 {
                assert(fields.drop_first()[i - 1] == fields[i]);
            }
        }
    }
}

/// The codec a descriptor builds, or nothing when the configuration is
/// invalid or host-only: an unknown picked field name, a pool minimum
/// above its maximum, a frame beyond the address width, or a delegate to
/// a host strategy object.
pub open spec fn desc_codec(d: DescModel) -> Option<crate::codec::CodecModel>
    decreases d, 1int, 0int,
{
    match d {
        DescModel::Bool => Some(crate::codec::CodecModel::Bool),
        DescModel::Bytes => Some(crate::codec::CodecModel::Bytes),
        DescModel::Complex => Some(crate::codec::CodecModel::Complex),
        DescModel::Dynamic => Some(crate::codec::CodecModel::Dynamic),
        DescModel::Float => Some(crate::codec::CodecModel::Float),
        DescModel::Int => Some(crate::codec::CodecModel::Int),
        DescModel::Pickle => Some(crate::codec::CodecModel::Pickle),
        DescModel::Str => Some(crate::codec::CodecModel::Str),
        DescModel::Dataclass { class_pkl, strategy, fields } => {
            if !strategy_fits(strategy, dfield_names(fields)) {
                None
            } else {
                match desc_codec_fields(fields) {
                    Some(cf) => Some(crate::codec::CodecModel::Record { strategy, fields: cf }),
                    None => None,
                }
            }
        },
        DescModel::Dict(dk, dv) => match desc_codec(*dk) {
            Some(ck) => match desc_codec(*dv) {
                Some(cv) => Some(
                    crate::codec::CodecModel::Dict(Box::new(ck), Box::new(cv)),
                ),
                None => None,
            },
            None => None,
        },
        DescModel::List(di) => match desc_codec(*di) {
            Some(ci) => Some(crate::codec::CodecModel::List(Box::new(ci))),
            None => None,
        },
        DescModel::SetOf(di) => match desc_codec(*di) {
            Some(ci) => Some(crate::codec::CodecModel::SetOf(Box::new(ci))),
            None => None,
        },
        DescModel::Optional(di) => match desc_codec(*di) {
            Some(ci) => Some(crate::codec::CodecModel::Optional(Box::new(ci))),
            None => None,
        },
        DescModel::Array { kind, config } => match config {
            ArrayConfigModel::Dynamic { .. } => Some(crate::codec::CodecModel::ArrayDyn(kind)),
            ArrayConfigModel::Fixed { shape, pool_min, pool_max, .. } => {
                if crate::value::spec_elem_size(kind) * crate::value::shape_product(shape)
                    > usize::MAX {
                    None
                } else if match pool_max {
                    Some(m) => pool_min > m,
                    None => false,
                } {
                    None
                } else {
                    Some(
                        crate::codec::CodecModel::ArrayFixed {
                            kind,
                            shape,
                            pool_min,
                            pool_max,
                        },
                    )
                }
            },
        },
        DescModel::External { .. } => None,
        DescModel::Tuple(items) => match desc_codec_list(items) {
            Some(cs) => Some(crate::codec::CodecModel::Tuple(cs)),
            None => None,
        },
        DescModel::TypedDict(fields) => match desc_codec_fields(fields) {
            Some(cf) => Some(crate::codec::CodecModel::TypedDict(cf)),
            None => None,
        },
        DescModel::Union { options, .. } => match desc_codec_list(options) {
            Some(cs) => Some(crate::codec::CodecModel::Union(cs)),
            None => None,
        },
    }
}

/// The codecs a run of descriptors builds, or nothing when any fails.
pub open spec fn desc_codec_list(items: Seq<DescModel>) -> Option<Seq<crate::codec::CodecModel>>
    decreases items, 2int, 0int,
{
    if items.len() == 0 {
        Some(Seq::empty())
    } else {
        match desc_codec(items[0]) {
            Some(c) => match desc_codec_list(items.drop_first()) {
                Some(cs) => Some(seq![c] + cs),
                None => None,
            },
            None => None,
        }
    }
}

/// The named child codecs a run builds, or nothing when any fails.
pub open spec fn desc_codec_fields(fields: Seq<(Seq<u8>, DescModel)>) -> Option<
    Seq<(Seq<u8>, crate::codec::CodecModel)>,
>
    decreases fields, 2int, 0int,
{
    if fields.len() == 0 {
        Some(Seq::empty())
    } else {
        match desc_codec(fields[0].1) {
            Some(c) => match desc_codec_fields(fields.drop_first()) {
                Some(cf) => Some(seq![(fields[0].0, c)] + cf),
                None => None,
            },
            None => None,
        }
    }
}

impl InitStrategy {
    /// Copies an init strategy.
    pub fn duplicate(&self) -> (s: InitStrategy)
        ensures
            s@ == self@,
    {
        match self {
            InitStrategy::All => InitStrategy::All,
            InitStrategy::NoArgs => InitStrategy::NoArgs,
            InitStrategy::Named(kwargs) => {
                proof {
                    crate::init::lemma_byte_views_of(kwargs@);
                }
                let n = kwargs.len();
                let mut out: Vec<Vec<u8>> = Vec::new();
                let mut i: usize = 0;
                while i < n
                    invariant
                        0 <= i <= n,
                        n == kwargs@.len(),
                        out@.len() == i,
                        forall|j: int| 0 <= j < i ==> out@[j]@ == kwargs@[j]@,
                    decreases n - i,
                {
                    out.push(crate::value::copy_bytes(&kwargs[i]));
                    i = i + 1;
                }
                proof {
                    crate::init::lemma_byte_views_of(out@);
                    assert(byte_views_of(out@) =~= byte_views_of(kwargs@));
                }
                InitStrategy::Named(out)
            },
        }
    }
}

/// Builds the codecs of a run of descriptors, from `idx` on.
fn build_list(items: &Vec<CodecDescriptor>, idx: usize) -> (r: Result<
    Vec<crate::codec::Codec>,
    ConstructionError,
>)
    requires
        idx <= items@.len(),
    ensures
        match r {
            Ok(cs) => desc_codec_list(desc_views_of(items@).skip(idx as int)) == Some(
                crate::codec::codec_views_of(cs@),
            ) && crate::codec::codecs_inv(cs@),
            Err(e) => desc_codec_list(desc_views_of(items@).skip(idx as int)) is None,
        },
    decreases items, 1int, items@.len() - idx,
{
    proof {
        lemma_desc_views_of(items@);
    }
    let ghost sk = desc_views_of(items@).skip(idx as int);
    if idx == items.len() {
        let cs: Vec<crate::codec::Codec> = Vec::new();
        proof {
            assert(sk =~= Seq::<DescModel>::empty());
            assert(crate::codec::codec_views_of(cs@) =~= Seq::<
                crate::codec::CodecModel,
            >::empty());
        }
        return Ok(cs);
    }
    proof {
        assert(sk[0] == desc_views_of(items@)[idx as int]);
        assert(sk.drop_first() =~= desc_views_of(items@).skip(idx as int + 1));
    }
    match items[idx].build() {
        Err(e) => Err(e),
        Ok(c) => {
            match build_list(items, idx + 1) {
                Err(e) => Err(e),
                Ok(rest) => {
                    let ghost rest0 = rest@;
                    let ghost c0 = c@;
                    let mut cs = rest;
                    cs.insert(0, c);
                    proof {
                        assert(cs@ =~= seq![cs@[0]] + rest0);
                        assert((seq![cs@[0]] + rest0)[0] == cs@[0]);
                        assert((seq![cs@[0]] + rest0).drop_first() =~= rest0);
                        assert(crate::codec::codec_views_of(cs@) == seq![c0]
                            + crate::codec::codec_views_of(rest0));
                        assert(crate::codec::codecs_inv(cs@));
                    }
                    Ok(cs)
                },
            }
        },
    }
}

/// Builds the named child codecs of a run, from `idx` on.
fn build_fields(fields: &Vec<(Vec<u8>, CodecDescriptor)>, idx: usize) -> (r: Result<
    Vec<(Vec<u8>, crate::codec::Codec)>,
    ConstructionError,
>)
    requires
        idx <= fields@.len(),
    ensures
        match r {
            Ok(cf) => desc_codec_fields(desc_field_views_of(fields@).skip(idx as int)) == Some(
                crate::codec::codec_field_views_of(cf@),
            ) && crate::codec::codec_fields_inv(cf@),
            Err(e) => desc_codec_fields(desc_field_views_of(fields@).skip(idx as int)) is None,
        },
    decreases fields, 1int, fields@.len() - idx,
{
    proof {
        lemma_desc_field_views_of(fields@);
    }
    let ghost sk = desc_field_views_of(fields@).skip(idx as int);
    if idx == fields.len() {
        let cf: Vec<(Vec<u8>, crate::codec::Codec)> = Vec::new();
        proof {
            assert(sk =~= Seq::<(Seq<u8>, DescModel)>::empty());
            assert(crate::codec::codec_field_views_of(cf@) =~= Seq::<
                (Seq<u8>, crate::codec::CodecModel),
            >::empty());
        }
        return Ok(cf);
    }
    proof {
        assert(sk[0] == desc_field_views_of(fields@)[idx as int]);
        assert(sk.drop_first() =~= desc_field_views_of(fields@).skip(idx as int + 1));
    }
    let name = crate::value::copy_bytes(&fields[idx].0);
    match fields[idx].1.build() {
        Err(e) => Err(e),
        Ok(c) => {
            match build_fields(fields, idx + 1) {
                Err(e) => Err(e),
                Ok(rest) => {
                    let ghost rest0 = rest@;
                    let ghost c0 = c@;
                    let ghost name0 = name@;
                    let mut cf = rest;
                    cf.insert(0, (name, c));
                    proof {
                        assert(cf@ =~= seq![cf@[0]] + rest0);
                        assert((seq![cf@[0]] + rest0)[0] == cf@[0]);
                        assert((seq![cf@[0]] + rest0).drop_first() =~= rest0);
                        assert(crate::codec::codec_field_views_of(cf@) == seq![(name0, c0)]
                            + crate::codec::codec_field_views_of(rest0));
                        assert(crate::codec::codec_fields_inv(cf@));
                    }
                    Ok(cf)
                },
            }
        },
    }
}

impl CodecDescriptor {
    /// Builds the live codec this descriptor describes, bottom-up.  The
    /// conversion validates its configuration once, before any data
    /// flows: a picked field name that matches no declared field, a pool
    /// minimum above its maximum, or a frame beyond the address width is
    /// a construction error, and a delegate to a host strategy object can
    /// only be built by the host layer.
    pub fn build(&self) -> (r: Result<crate::codec::Codec, ConstructionError>)
        ensures
            match r {
                Ok(c) => desc_codec(self@) == Some(c@) && c.inv(),
                Err(e) => desc_codec(self@) is None,
            },
        decreases self, 2int, 0int,
    {
        match self {
            CodecDescriptor::Bool => Ok(crate::codec::Codec::Bool),
            CodecDescriptor::Bytes => Ok(crate::codec::Codec::Bytes),
            CodecDescriptor::Complex => Ok(crate::codec::Codec::Complex),
            CodecDescriptor::Dynamic => Ok(crate::codec::Codec::Dynamic),
            CodecDescriptor::Float => Ok(crate::codec::Codec::Float),
            CodecDescriptor::Int => Ok(crate::codec::Codec::Int),
            CodecDescriptor::Pickle => Ok(crate::codec::Codec::Pickle),
            CodecDescriptor::Str => Ok(crate::codec::Codec::Str),
            CodecDescriptor::Dataclass { class_pkl, strategy, fields } => {
                proof {
                    lemma_desc_field_views_of(fields@);
                    lemma_dfield_names(desc_field_views_of(fields@));
                }
                let n = fields.len();
                let mut names: Vec<Vec<u8>> = Vec::new();
                let mut i: usize = 0;
                while i < n
                    invariant
                        0 <= i <= n,
                        n == fields@.len(),
                        names@.len() == i,
                        forall|j: int| 0 <= j < i ==> names@[j]@ == fields@[j].0@,
                    decreases n - i,
                {
                    names.push(crate::value::copy_bytes(&fields[i].0));
                    i = i + 1;
                }
                proof {
                    crate::init::lemma_byte_views_of(names@);
                    lemma_desc_field_views_of(fields@);
                    lemma_dfield_names(desc_field_views_of(fields@));
                    assert(byte_views_of(names@) =~= dfield_names(desc_field_views_of(fields@)));
                }
                match strategy.partition(&names) {
                    Err(e) => {
                        assert(!strategy_fits(
                            strategy@,
                            dfield_names(desc_field_views_of(fields@)),
                        ));
                        Err(ConstructionError::UnknownField)
                    },
                    Ok(_) => {
                        assert(desc_field_views_of(fields@).skip(0) =~= desc_field_views_of(
                            fields@,
                        ));
                        match build_fields(fields, 0) {
                            Err(e) => Err(e),
                            Ok(cf) => Ok(
                                crate::codec::Codec::Record {
                                    strategy: strategy.duplicate(),
                                    fields: cf,
                                },
                            ),
                        }
                    },
                }
            },
            CodecDescriptor::Dict(dk, dv) => {
                match dk.build() {
                    Err(e) => Err(e),
                    Ok(ck) => {
                        match dv.build() {
                            Err(e) => Err(e),
                            Ok(cv) => Ok(
                                crate::codec::Codec::Dict(Box::new(ck), Box::new(cv)),
                            ),
                        }
                    },
                }
            },
            CodecDescriptor::List(di) => {
                match di.build() {
                    Err(e) => Err(e),
                    Ok(ci) => Ok(crate::codec::Codec::List(Box::new(ci))),
                }
            },
            CodecDescriptor::SetOf(di) => {
                match di.build() {
                    Err(e) => Err(e),
                    Ok(ci) => Ok(crate::codec::Codec::SetOf(Box::new(ci))),
                }
            },
            CodecDescriptor::Optional(di) => {
                match di.build() {
                    Err(e) => Err(e),
                    Ok(ci) => Ok(crate::codec::Codec::Optional(Box::new(ci))),
                }
            },
            CodecDescriptor::Array { kind, config } => {
                match config {
                    ArrayConfig::Dynamic { .. } => Ok(crate::codec::Codec::ArrayDyn(*kind)),
                    ArrayConfig::Fixed { pre_pkl, post_pkl, shape, pool_min, pool_max } => {
                        match crate::value::array_byte_len(*kind, shape) {
                            None => Err(ConstructionError::FrameOverflow),
                            Some(frame) => {
                                match crate::pool::AllocationPool::new(
                                    frame,
                                    *pool_min,
                                    *pool_max,
                                ) {
                                    Err(e) => Err(ConstructionError::PoolBounds),
                                    Ok(pool) => Ok(
                                        crate::codec::Codec::ArrayFixed {
                                            kind: *kind,
                                            shape: crate::value::copy_shape(shape),
                                            pool,
                                        },
                                    ),
                                }
                            },
                        }
                    },
                }
            },
            CodecDescriptor::External { serde_pkl } => Err(ConstructionError::HostOnly),
            CodecDescriptor::Tuple(items) => {
                proof {
                    lemma_desc_views_of(items@);
                    assert(desc_views_of(items@).skip(0) =~= desc_views_of(items@));
                }
                match build_list(items, 0) {
                    Err(e) => Err(e),
                    Ok(cs) => Ok(crate::codec::Codec::Tuple(cs)),
                }
            },
            CodecDescriptor::TypedDict(fields) => {
                proof {
                    lemma_desc_field_views_of(fields@);
                    assert(desc_field_views_of(fields@).skip(0) =~= desc_field_views_of(
                        fields@,
                    ));
                }
                match build_fields(fields, 0) {
                    Err(e) => Err(e),
                    Ok(cf) => Ok(crate::codec::Codec::TypedDict(cf)),
                }
            },
            CodecDescriptor::Union { options, selector_pkl } => {
                proof {
                    lemma_desc_views_of(options@);
                    assert(desc_views_of(options@).skip(0) =~= desc_views_of(options@));
                }
                match build_list(options, 0) {
                    Err(e) => Err(e),
                    Ok(cs) => Ok(crate::codec::Codec::Union(cs)),
                }
            },
        }
    }
}

} // verus!
