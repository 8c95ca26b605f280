use crate::ty::{BaseData, Generic, GenericsData, PermData};
use rustc_hash::FxHashMap;
use vstd::prelude::*;

verus! {

/// Interned data of any kind, as the hash index of an interner keys it.
#[derive(Clone, Debug, PartialEq, Eq, Hash)]
pub enum Interned {
    Perm(PermData),
    Base(BaseData),
    Generics(GenericsData),
}

/// What identifies interned data: two values have the same model exactly
/// when `==` holds between them.
pub enum DataModel {
    Perm(PermData),
    Base(BaseData),
    Generics(Seq<Generic>),
}

impl Interned {
    pub open spec fn model(&self) -> DataModel {
        match self {
            Interned::Perm(d) => DataModel::Perm(*d),
            Interned::Base(d) => DataModel::Base(*d),
            Interned::Generics(d) => DataModel::Generics(d@),
        }
    }
}

/// The hasher of `FxHashMap`, carried through opaquely.
#[verifier::external_type_specification]
#[verifier::external_body]
pub struct ExFxHasher(rustc_hash::FxHasher);

/// The hasher builder of `FxHashMap`, carried through opaquely.
#[verifier::external_type_specification]
#[verifier::external_body]
#[verifier::reject_recursive_types(H)]
pub struct ExBuildHasherDefault<H>(std::hash::BuildHasherDefault<H>);

/// A hash index from interned data to its position in an interner.
pub type FxIndex = FxHashMap<Interned, u32>;

/// The entries of a hash index, keyed by the model of the data.
pub uninterp spec fn fx_index_entries(m: FxHashMap<Interned, u32>) -> Map<DataModel, u32>;

/// Relies on `FxHashMap::default`: a new map holds no entry.
#[verifier::external_body]
pub(crate) fn fx_index_new() -> (r: FxHashMap<Interned, u32>)
    ensures
        fx_index_entries(r).dom() == Set::<DataModel>::empty(),
{
    FxHashMap::default()
}

/// Relies on `HashMap::get` (the map type of `FxHashMap`): the value stored
/// under a key equal to `d`, if any. The derived `Eq` and `Hash` of
/// `Interned` agree with equality of models.
#[verifier::external_body]
pub(crate) fn fx_index_get(m: &FxHashMap<Interned, u32>, d: &Interned) -> (r: Option<u32>)
    ensures
        r == (if fx_index_entries(*m).contains_key(d.model()) {
            Some(fx_index_entries(*m)[d.model()])
        } else {
            None
        }),
{
    m.get(d).copied()
}

/// Relies on `HashMap::insert` (the map type of `FxHashMap`): afterwards
/// `d` maps to `k` and every other key keeps its value.
#[verifier::external_body]
pub(crate) fn fx_index_insert(m: &mut FxHashMap<Interned, u32>, d: Interned, k: u32)
    ensures
        fx_index_entries(*final(m)) == fx_index_entries(*old(m)).insert(d.model(), k),
{
    m.insert(d, k);
}

} // verus!
