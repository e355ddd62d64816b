//! The record construction policy: which decoded fields are handed to the
//! constructor and which are set afterwards by attribute assignment.
//!
//! The chosen field subset is validated when the codec is built: a name
//! that matches no declared field is a construction error, before any data
//! flows.

use vstd::prelude::*;

use crate::errors::ConstructionError;

verus! {

/// How a decoded record's fields are fed into its constructor.
pub enum InitStrategy {
    /// Pass every field as a constructor keyword.
    All,
    /// Pass only the named fields to the constructor, then set the rest
    /// via attribute assignment.
    Named(Vec<Vec<u8>>),
    /// Construct with no arguments, then set every field via attribute
    /// assignment.
    NoArgs,
}

/// The mathematical model of an init strategy.
#[verifier::ext_equal]
pub enum InitStrategyModel {
    All,
    Named(Seq<Seq<u8>>),
    NoArgs,
}

/// The models of a run of byte strings.
pub open spec fn byte_views_of(items: Seq<Vec<u8>>) -> Seq<Seq<u8>>
    decreases items,
{
    if items.len() == 0 {
        Seq::empty()
    } else {
        seq![items[0].view()] + byte_views_of(items.drop_first())
    }
}

/// A run of byte strings is modelled pointwise.
pub proof fn lemma_byte_views_of(items: Seq<Vec<u8>>)
    ensures
        byte_views_of(items).len() == items.len(),
        forall|i: int| 0 <= i < items.len() ==> byte_views_of(items)[i] == items[i]@,
    decreases items,
{
    if items.len() > 0 {
        assert(byte_views_of(items) == seq![items[0].view()] + byte_views_of(items.drop_first()));
        lemma_byte_views_of(items.drop_first());
        assert forall|i: int| 0 <= i < items.len() implies byte_views_of(items)[i] == items[i]@ by {
            if i > 0 {
                assert(items.drop_first()[i - 1] == items[i]);
            }
        }
    }
}

impl View for InitStrategy {
    type V = InitStrategyModel;

    open spec fn view(&self) -> InitStrategyModel {
        match self {
            InitStrategy::All => InitStrategyModel::All,
            InitStrategy::Named(kwargs) => InitStrategyModel::Named(byte_views_of(kwargs@)),
            InitStrategy::NoArgs => InitStrategyModel::NoArgs,
        }
    }
}

/// Whether `name` occurs among `names`.
pub open spec fn name_among(names: Seq<Seq<u8>>, name: Seq<u8>) -> bool {
    exists|i: int| 0 <= i < names.len() && names[i] == name
}

/// Whether a field index is owed to the constructor under a strategy.
pub open spec fn goes_to_ctor(s: InitStrategyModel, name: Seq<u8>) -> bool {
    match s {
        InitStrategyModel::All => true,
        InitStrategyModel::Named(kwargs) => name_among(kwargs, name),
        InitStrategyModel::NoArgs => false,
    }
}

/// Whether every picked name occurs among the declared field names.
pub open spec fn kwargs_fit(kwargs: Seq<Seq<u8>>, fields: Seq<Seq<u8>>) -> bool {
    forall|i: int| 0 <= i < kwargs.len() ==> name_among(fields, #[trigger] kwargs[i])
}

/// Whether a strategy is valid for a run of declared field names: every
/// name it picks must be declared.
pub open spec fn strategy_fits(s: InitStrategyModel, fields: Seq<Seq<u8>>) -> bool {
    match s {
        InitStrategyModel::All => true,
        InitStrategyModel::Named(kwargs) => kwargs_fit(kwargs, fields),
        InitStrategyModel::NoArgs => true,
    }
}

/// Compares two byte strings.
pub fn bytes_eq(a: &Vec<u8>, b: &Vec<u8>) -> (r: bool)
    ensures
        r == (a@ == b@),
{
    if a.len() != b.len() {
        assert(a@ != b@);
        return false;
    }
    let n = a.len();
    let mut i: usize = 0;
    while i < n
        invariant
            0 <= i <= n,
            n == a@.len() == b@.len(),
            forall|j: int| 0 <= j < i ==> a@[j] == b@[j],
        decreases n - i,
    {
        if a[i] != b[i] {
            return false;
        }
        i = i + 1;
    }
    assert(a@ =~= b@);
    true
}

/// Whether `name` occurs among `names`.
pub fn find_name(names: &Vec<Vec<u8>>, name: &Vec<u8>) -> (r: bool)
    ensures
        r == name_among(byte_views_of(names@), name@),
{
    proof {
        lemma_byte_views_of(names@);
    }
    let n = names.len();
    let mut i: usize = 0;
    while i < n
        invariant
            0 <= i <= n,
            n == names@.len(),
            byte_views_of(names@).len() == n,
            forall|j: int| 0 <= j < n ==> byte_views_of(names@)[j] == names@[j]@,
            forall|j: int| 0 <= j < i ==> names@[j]@ != name@,
        decreases n - i,
    {
        if bytes_eq(&names[i], name) {
            assert(byte_views_of(names@)[i as int] == name@);
            return true;
        }
        i = i + 1;
    }
    false
}

impl InitStrategy {
    /// Whether this strategy hands the named field to the constructor.
    pub fn picks(&self, name: &Vec<u8>) -> (r: bool)
        ensures
            r == goes_to_ctor(self@, name@),
    {
        match self {
            InitStrategy::All => true,
            InitStrategy::Named(kwargs) => find_name(kwargs, name),
            InitStrategy::NoArgs => false,
        }
    }

    /// Splits the declared field indices into the constructor's share and
    /// the attribute-assignment share, in declared order.  A picked name
    /// that matches no declared field is a construction error.
    pub fn partition(&self, field_names: &Vec<Vec<u8>>) -> (r: Result<
        (Vec<usize>, Vec<usize>),
        ConstructionError,
    >)
        ensures
            match r {
                Ok((ctor, attr)) => {
                    &&& strategy_fits(self@, byte_views_of(field_names@))
                    &&& ctor@.len() + attr@.len() == field_names@.len()
                    &&& forall|k: int|
                        0 <= k < ctor@.len() ==> (#[trigger] ctor@[k]) < field_names@.len()
                            && goes_to_ctor(self@, field_names@[ctor@[k] as int]@)
                    &&& forall|k: int|
                        0 <= k < attr@.len() ==> (#[trigger] attr@[k]) < field_names@.len()
                            && !goes_to_ctor(self@, field_names@[attr@[k] as int]@)
                    &&& forall|k: int| 0 <= k < ctor@.len() ==> #[trigger] ctor@[k] >= k
                    &&& forall|k1: int, k2: int|
                        0 <= k1 < k2 < ctor@.len() ==> #[trigger] ctor@[k1] < #[trigger] ctor@[k2]
                    &&& forall|k1: int, k2: int|
                        0 <= k1 < k2 < attr@.len() ==> #[trigger] attr@[k1] < #[trigger] attr@[k2]
                },
                Err(e) => {
                    &&& e == ConstructionError::UnknownField
                    &&& !strategy_fits(self@, byte_views_of(field_names@))
                },
            },
    {
        proof {
            lemma_byte_views_of(field_names@);
        }
        let ghost names = byte_views_of(field_names@);
        // Validate first: every picked name must be declared.
        if let InitStrategy::Named(kwargs) = self {
            proof {
                lemma_byte_views_of(kwargs@);
            }
            let m = kwargs.len();
            let mut i: usize = 0;
            while i < m
                invariant
                    0 <= i <= m,
                    m == kwargs@.len(),
                    names == byte_views_of(field_names@),
                    self@ == InitStrategyModel::Named(byte_views_of(kwargs@)),
                    byte_views_of(kwargs@).len() == m,
                    forall|j: int| 0 <= j < m ==> byte_views_of(kwargs@)[j] == kwargs@[j]@,
                    forall|j: int| 0 <= j < i ==> name_among(names, kwargs@[j]@),
                decreases m - i,
            {
                if !find_name(field_names, &kwargs[i]) {
                    proof {
                        let km = byte_views_of(kwargs@);
                        assert(km[i as int] == kwargs@[i as int]@);
                        assert(!name_among(names, km[i as int]));
                        assert(self@ == InitStrategyModel::Named(km));
                        assert((i as int) < km.len());
                        assert(!kwargs_fit(km, names)) by {
                            if kwargs_fit(km, names) {
                                assert(name_among(names, km[i as int]));
                            }
                        }
                    }
                    return Err(ConstructionError::UnknownField);
                }
                i = i + 1;
            }
            proof {
                let km = byte_views_of(kwargs@);
                assert(self@ == InitStrategyModel::Named(km));
                assert forall|j: int| 0 <= j < km.len() implies name_among(
                    names,
                    #[trigger] km[j],
                ) by {
                    assert(km[j] == kwargs@[j]@);
                }
                assert(kwargs_fit(km, names));
            }
        } else {
            assert(strategy_fits(self@, names));
        }
        assert(strategy_fits(self@, names));
        let n = field_names.len();
        let mut ctor: Vec<usize> = Vec::new();
        let mut attr: Vec<usize> = Vec::new();
        let mut j: usize = 0;
        while j < n
            invariant
                0 <= j <= n,
                n == field_names@.len(),
                names == byte_views_of(field_names@),
                names.len() == n,
                forall|i: int| 0 <= i < n ==> names[i] == field_names@[i]@,
                strategy_fits(self@, names),
                ctor@.len() + attr@.len() == j,
                forall|k: int|
                    0 <= k < ctor@.len() ==> (#[trigger] ctor@[k]) < j && goes_to_ctor(
                        self@,
                        field_names@[ctor@[k] as int]@,
                    ),
                forall|k: int|
                    0 <= k < attr@.len() ==> (#[trigger] attr@[k]) < j && !goes_to_ctor(
                        self@,
                        field_names@[attr@[k] as int]@,
                    ),
                forall|k: int| 0 <= k < ctor@.len() ==> #[trigger] ctor@[k] >= k,
                forall|k1: int, k2: int|
                    0 <= k1 < k2 < ctor@.len() ==> #[trigger] ctor@[k1] < #[trigger] ctor@[k2],
                forall|k1: int, k2: int|
                    0 <= k1 < k2 < attr@.len() ==> #[trigger] attr@[k1] < #[trigger] attr@[k2],
            decreases n - j,
        {
            let to_ctor: bool = self.picks(&field_names[j]);
            if to_ctor {
                ctor.push(j);
            } else {
                attr.push(j);
            }
            j = j + 1;
        }
        Ok((ctor, attr))
    }
}

} // verus!
