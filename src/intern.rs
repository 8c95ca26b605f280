use crate::fx_index::{fx_index_entries, fx_index_get, fx_index_insert, fx_index_new, DataModel, FxIndex, Interned};
use crate::ty::{Base, BaseData, BaseKind, Generic, Generics, GenericsData, InferVar, Perm, PermData};
use vstd::prelude::*;

verus! {

/// Data that an `Interner` can store.
pub trait InternData: Sized {
    /// What identifies the data: equal models are equal data.
    spec fn model(&self) -> DataModel;

    fn to_interned(&self) -> (r: Interned)
        ensures
            r.model() == self.model(),
    ;

    fn duplicate(&self) -> (r: Self)
        ensures
            r.model() == self.model(),
    ;
}

impl InternData for PermData {
    open spec fn model(&self) -> DataModel {
        DataModel::Perm(*self)
    }

    fn to_interned(&self) -> (r: Interned) {
        Interned::Perm(*self)
    }

    fn duplicate(&self) -> (r: Self) {
        *self
    }
}

impl InternData for BaseData {
    open spec fn model(&self) -> DataModel {
        DataModel::Base(*self)
    }

    fn to_interned(&self) -> (r: Interned) {
        Interned::Base(*self)
    }

    fn duplicate(&self) -> (r: Self) {
        *self
    }
}

/// Relies on `Rc::clone`: the clone refers to the same vector.
#[verifier::external_body]
fn share_elements(elements: &std::rc::Rc<Vec<Generic>>) -> (r: std::rc::Rc<Vec<Generic>>)
    ensures
        r@ == elements@,
{
    std::rc::Rc::clone(elements)
}

impl InternData for GenericsData {
    open spec fn model(&self) -> DataModel {
        DataModel::Generics(self@)
    }

    fn to_interned(&self) -> (r: Interned) {
        Interned::Generics(self.duplicate())
    }

    fn duplicate(&self) -> (r: Self) {
        GenericsData { elements: share_elements(&self.elements) }
    }
}

/// No value occurs twice in `s`.
pub open spec fn distinct_models(s: Seq<DataModel>) -> bool {
    forall|i: int, j: int| 0 <= i < s.len() && 0 <= j < s.len() && i != j ==> s[i] != s[j]
}

/// The entries of an interner after interning `d` into one holding `s`.
pub open spec fn interned(s: Seq<DataModel>, d: DataModel) -> Seq<DataModel> {
    if s.contains(d) {
        s
    } else {
        s.push(d)
    }
}

/// Interning `d` into entries `before` gives entries `after` and key `k`.
pub open spec fn intern_post(before: Seq<DataModel>, d: DataModel, after: Seq<DataModel>, k: int) -> bool {
    &&& after == interned(before, d)
    &&& 0 <= k < after.len()
    &&& after[k] == d
}

/// A structural cache: equal data get one key, and a key gives back its data.
pub struct Interner<D> {
    vec: Vec<D>,
    map: FxIndex,
}

impl<D: InternData> Interner<D> {
    /// The interned data, in order of keys.
    pub closed spec fn entries(&self) -> Seq<DataModel> {
        self.vec@.map_values(|d: D| d.model())
    }

    pub closed spec fn wf(&self) -> bool {
        &&& self.vec@.len() <= u32::MAX
        &&& distinct_models(self.entries())
        &&& forall|m: DataModel| #[trigger]
            fx_index_entries(self.map).contains_key(m) ==> {
                &&& fx_index_entries(self.map)[m] < self.vec@.len()
                &&& self.entries()[fx_index_entries(self.map)[m] as int] == m
            }
        &&& forall|i: int|
            0 <= i < self.vec@.len() ==> fx_index_entries(self.map).contains_key(
                #[trigger] self.entries()[i],
            )
    }

    pub fn new() -> (r: Self)
        ensures
            r.wf(),
            r.entries() == Seq::<DataModel>::empty(),
    {
        let r = Interner { vec: Vec::new(), map: fx_index_new() };
        proof {
            assert(r.entries() =~= Seq::<DataModel>::empty());
        }
        r
    }

    /// The key of `data`: the one it already has, or a fresh one.
    pub fn intern(&mut self, data: D) -> (k: u32)
        requires
            old(self).wf(),
            old(self).entries().len() < u32::MAX,
        ensures
            final(self).wf(),
            intern_post(old(self).entries(), data.model(), final(self).entries(), k as int),
    {
        let tagged = data.to_interned();
        match fx_index_get(&self.map, &tagged) {
            Some(k) => {
                proof {
                    assert(self.entries()[k as int] == data.model());
                    assert(self.entries().contains(data.model()));
                }
                k
            },
            None => {
                let k = self.vec.len() as u32;
                proof {
                    if self.entries().contains(data.model()) {
                        let i = choose|i: int| 0 <= i < self.entries().len() && self.entries()[i] == data.model();
                        assert(fx_index_entries(self.map).contains_key(self.entries()[i]));
                    }
                }
                let ghost old_entries = self.entries();
                self.vec.push(data);
                fx_index_insert(&mut self.map, tagged, k);
                proof {
                    assert(self.entries() =~= old_entries.push(data.model()));
                    assert forall|i: int| 0 <= i < self.vec@.len() implies fx_index_entries(self.map).contains_key(
                        #[trigger] self.entries()[i],
                    ) by {
                        if i < old_entries.len() {
                            assert(self.entries()[i] == old_entries[i]);
                        }
                    }
                }
                k
            },
        }
    }

    /// The data stored under key `k`.
    pub fn untern(&self, k: u32) -> (r: D)
        requires
            self.wf(),
            k < self.entries().len(),
        ensures
            r.model() == self.entries()[k as int],
    {
        self.vec[k as usize].duplicate()
    }
}

/// Keys that are needed often enough to be computed once.
#[derive(Copy, Clone, Debug, PartialEq, Eq, Structural)]
pub struct Common {
    /// The empty list of generic arguments.
    pub empty_generics: Generics,
    /// The permission `Own`.
    pub own: Perm,
}

/// The registry of interned permissions, base types and generic lists.
pub struct TyInterners {
    perms: Interner<PermData>,
    bases: Interner<BaseData>,
    generics: Interner<GenericsData>,
    common: Common,
}

impl TyInterners {
    pub closed spec fn perms(&self) -> Seq<DataModel> {
        self.perms.entries()
    }

    pub closed spec fn bases(&self) -> Seq<DataModel> {
        self.bases.entries()
    }

    pub closed spec fn generics_lists(&self) -> Seq<DataModel> {
        self.generics.entries()
    }

    pub closed spec fn common_keys(&self) -> Common {
        self.common
    }

    pub closed spec fn wf(&self) -> bool {
        &&& self.perms.wf()
        &&& self.bases.wf()
        &&& self.generics.wf()
        &&& self.common.own.0 < self.perms().len()
        &&& self.perms()[self.common.own.0 as int] == DataModel::Perm(PermData::Own)
        &&& self.common.empty_generics.0 < self.generics_lists().len()
        &&& self.generics_lists()[self.common.empty_generics.0 as int] == DataModel::Generics(
            Seq::<Generic>::empty(),
        )
    }

    /// `other` holds every key of `self`, with the same data.
    pub open spec fn extends(&self, other: &TyInterners) -> bool {
        &&& self.perms().len() <= other.perms().len()
        &&& self.perms() == other.perms().subrange(0, self.perms().len() as int)
        &&& self.bases().len() <= other.bases().len()
        &&& self.bases() == other.bases().subrange(0, self.bases().len() as int)
        &&& self.generics_lists().len() <= other.generics_lists().len()
        &&& self.generics_lists() == other.generics_lists().subrange(
            0,
            self.generics_lists().len() as int,
        )
        &&& self.common_keys() == other.common_keys()
    }

    /// Each kind's entries are free of duplicates, and the memoized keys
    /// hold `Own` and the empty generic list.
    pub proof fn lemma_wf_facts(&self)
        requires
            self.wf(),
        ensures
            distinct_models(self.perms()),
            distinct_models(self.bases()),
            distinct_models(self.generics_lists()),
            self.common_keys().own.0 < self.perms().len(),
            self.perms()[self.common_keys().own.0 as int] == DataModel::Perm(PermData::Own),
            self.common_keys().empty_generics.0 < self.generics_lists().len(),
            self.generics_lists()[self.common_keys().empty_generics.0 as int] == DataModel::Generics(
                Seq::<Generic>::empty(),
            ),
    {
    }

    /// A registry holding the permission `Own` and the empty generic list.
    pub fn new() -> (r: TyInterners)
        ensures
            r.wf(),
            r.perms() == seq![DataModel::Perm(PermData::Own)],
            r.bases() == Seq::<DataModel>::empty(),
            r.generics_lists() == seq![DataModel::Generics(Seq::<Generic>::empty())],
            r.common_keys() == (Common { empty_generics: Generics(0), own: Perm(0) }),
    {
        let mut perms = Interner::new();
        let bases = Interner::new();
        let mut generics = Interner::new();
        let own = perms.intern(PermData::Own);
        let empty = GenericsData { elements: std::rc::Rc::new(Vec::new()) };
        let empty_generics = generics.intern(empty);
        let common = Common { empty_generics: Generics(empty_generics), own: Perm(own) };
        let r = TyInterners { perms, bases, generics, common };
        proof {
            assert(r.perms() =~= seq![DataModel::Perm(PermData::Own)]);
            assert(r.generics_lists() =~= seq![DataModel::Generics(Seq::<Generic>::empty())]);
        }
        r
    }

    /// The number of interned permissions.
    pub fn perm_count(&self) -> (r: usize)
        ensures
            r == self.perms().len(),
    {
        self.perms.vec.len()
    }

    /// The number of interned base types.
    pub fn base_count(&self) -> (r: usize)
        ensures
            r == self.bases().len(),
    {
        self.bases.vec.len()
    }

    pub fn common(&self) -> (r: Common)
        ensures
            r == self.common_keys(),
    {
        self.common
    }

    pub fn intern_perm(&mut self, data: PermData) -> (r: Perm)
        requires
            old(self).wf(),
            old(self).perms().len() < u32::MAX,
        ensures
            final(self).wf(),
            intern_post(old(self).perms(), DataModel::Perm(data), final(self).perms(), r.0 as int),
            final(self).bases() == old(self).bases(),
            final(self).generics_lists() == old(self).generics_lists(),
            old(self).extends(final(self)),
    {
        let k = self.perms.intern(data);
        proof {
            assert(self.perms() =~= self.perms().subrange(0, self.perms().len() as int));
            assert(self.bases() =~= self.bases().subrange(0, self.bases().len() as int));
            assert(self.generics_lists() =~= self.generics_lists().subrange(0, self.generics_lists().len() as int));
            assert(old(self).perms() =~= self.perms().subrange(0, old(self).perms().len() as int));
        }
        Perm(k)
    }

    pub fn untern_perm(&self, key: Perm) -> (r: PermData)
        requires
            self.wf(),
            key.0 < self.perms().len(),
        ensures
            DataModel::Perm(r) == self.perms()[key.0 as int],
    {
        self.perms.untern(key.0)
    }

    pub fn intern_base(&mut self, data: BaseData) -> (r: Base)
        requires
            old(self).wf(),
            old(self).bases().len() < u32::MAX,
        ensures
            final(self).wf(),
            intern_post(old(self).bases(), DataModel::Base(data), final(self).bases(), r.0 as int),
            final(self).perms() == old(self).perms(),
            final(self).generics_lists() == old(self).generics_lists(),
            old(self).extends(final(self)),
    {
        let k = self.bases.intern(data);
        proof {
            assert(self.perms() =~= self.perms().subrange(0, self.perms().len() as int));
            assert(self.bases() =~= self.bases().subrange(0, self.bases().len() as int));
            assert(self.generics_lists() =~= self.generics_lists().subrange(0, self.generics_lists().len() as int));
            assert(old(self).bases() =~= self.bases().subrange(0, old(self).bases().len() as int));
        }
        Base(k)
    }

    pub fn untern_base(&self, key: Base) -> (r: BaseData)
        requires
            self.wf(),
            key.0 < self.bases().len(),
        ensures
            DataModel::Base(r) == self.bases()[key.0 as int],
    {
        self.bases.untern(key.0)
    }

    pub fn intern_generics_data(&mut self, data: GenericsData) -> (r: Generics)
        requires
            old(self).wf(),
            old(self).generics_lists().len() < u32::MAX,
        ensures
            final(self).wf(),
            intern_post(
                old(self).generics_lists(),
                DataModel::Generics(data@),
                final(self).generics_lists(),
                r.0 as int,
            ),
            final(self).perms() == old(self).perms(),
            final(self).bases() == old(self).bases(),
            old(self).extends(final(self)),
    {
        let k = self.generics.intern(data);
        proof {
            assert(self.perms() =~= self.perms().subrange(0, self.perms().len() as int));
            assert(self.bases() =~= self.bases().subrange(0, self.bases().len() as int));
            assert(self.generics_lists() =~= self.generics_lists().subrange(0, self.generics_lists().len() as int));
            assert(old(self).generics_lists() =~= self.generics_lists().subrange(
                0,
                old(self).generics_lists().len() as int,
            ));
        }
        Generics(k)
    }

    pub fn untern_generics(&self, key: Generics) -> (r: GenericsData)
        requires
            self.wf(),
            key.0 < self.generics_lists().len(),
        ensures
            DataModel::Generics(r@) == self.generics_lists()[key.0 as int],
    {
        self.generics.untern(key.0)
    }

    /// The key of the generic list holding `elements`; the empty list gives
    /// the memoized key `common().empty_generics`.
    pub fn intern_generics(&mut self, elements: Vec<Generic>) -> (r: Generics)
        requires
            old(self).wf(),
            old(self).generics_lists().len() < u32::MAX,
        ensures
            final(self).wf(),
            intern_post(
                old(self).generics_lists(),
                DataModel::Generics(elements@),
                final(self).generics_lists(),
                r.0 as int,
            ),
            final(self).perms() == old(self).perms(),
            final(self).bases() == old(self).bases(),
            old(self).extends(final(self)),
            elements@.len() == 0 ==> r == old(self).common_keys().empty_generics,
            elements@.len() == 0 ==> final(self).generics_lists() == old(self).generics_lists(),
    {
        let ghost es = elements@;
        let r = self.intern_generics_data(GenericsData { elements: std::rc::Rc::new(elements) });
        proof {
            if es.len() == 0 {
                assert(es =~= Seq::<Generic>::empty());
                let e = self.common.empty_generics.0 as int;
                assert(old(self).generics_lists().contains(DataModel::Generics(es)));
                lemma_interned_distinct(old(self).generics_lists(), DataModel::Generics(es));
                assert(self.generics_lists()[e] == self.generics_lists()[r.0 as int]);
            }
        }
        r
    }

    /// The base type that stands for the inference variable `var`, with no
    /// generic arguments.
    pub fn intern_base_var(&mut self, var: InferVar) -> (r: Base)
        requires
            old(self).wf(),
            old(self).bases().len() < u32::MAX,
        ensures
            final(self).wf(),
            intern_post(
                old(self).bases(),
                DataModel::Base(
                    BaseData {
                        kind: BaseKind::Infer { var },
                        generics: old(self).common_keys().empty_generics,
                    },
                ),
                final(self).bases(),
                r.0 as int,
            ),
            final(self).perms() == old(self).perms(),
            final(self).generics_lists() == old(self).generics_lists(),
            old(self).extends(final(self)),
    {
        let data = BaseData { kind: BaseKind::Infer { var }, generics: self.common.empty_generics };
        self.intern_base(data)
    }
}

/// A kind of data that the registry interns, with its key type.
pub trait Intern: InternData {
    type Key: Copy;

    /// The entries of this kind in `reg`, in order of keys.
    spec fn kind_entries(reg: TyInterners) -> Seq<DataModel>;

    /// The position that `key` stands for.
    spec fn key_index(key: Self::Key) -> int;

    fn intern_in(self, reg: &mut TyInterners) -> (k: Self::Key)
        requires
            old(reg).wf(),
            Self::kind_entries(*old(reg)).len() < u32::MAX,
        ensures
            final(reg).wf(),
            intern_post(
                Self::kind_entries(*old(reg)),
                self.model(),
                Self::kind_entries(*final(reg)),
                Self::key_index(k),
            ),
            old(reg).extends(final(reg)),
    ;

    fn untern_in(key: Self::Key, reg: &TyInterners) -> (r: Self)
        requires
            reg.wf(),
            0 <= Self::key_index(key) < Self::kind_entries(*reg).len(),
        ensures
            r.model() == Self::kind_entries(*reg)[Self::key_index(key)],
    ;
}

impl Intern for PermData {
    type Key = Perm;

    open spec fn kind_entries(reg: TyInterners) -> Seq<DataModel> {
        reg.perms()
    }

    open spec fn key_index(key: Perm) -> int {
        key.0 as int
    }

    fn intern_in(self, reg: &mut TyInterners) -> (k: Perm) {
        reg.intern_perm(self)
    }

    fn untern_in(key: Perm, reg: &TyInterners) -> (r: PermData) {
        reg.untern_perm(key)
    }
}

impl Intern for BaseData {
    type Key = Base;

    open spec fn kind_entries(reg: TyInterners) -> Seq<DataModel> {
        reg.bases()
    }

    open spec fn key_index(key: Base) -> int {
        key.0 as int
    }

    fn intern_in(self, reg: &mut TyInterners) -> (k: Base) {
        reg.intern_base(self)
    }

    fn untern_in(key: Base, reg: &TyInterners) -> (r: BaseData) {
        reg.untern_base(key)
    }
}

impl Intern for GenericsData {
    type Key = Generics;

    open spec fn kind_entries(reg: TyInterners) -> Seq<DataModel> {
        reg.generics_lists()
    }

    open spec fn key_index(key: Generics) -> int {
        key.0 as int
    }

    fn intern_in(self, reg: &mut TyInterners) -> (k: Generics) {
        reg.intern_generics_data(self)
    }

    fn untern_in(key: Generics, reg: &TyInterners) -> (r: GenericsData) {
        reg.untern_generics(key)
    }
}

impl TyInterners {
    /// The key of `data`, of whichever kind it is.
    pub fn intern<D: Intern>(&mut self, data: D) -> (k: D::Key)
        requires
            old(self).wf(),
            D::kind_entries(*old(self)).len() < u32::MAX,
        ensures
            final(self).wf(),
            intern_post(D::kind_entries(*old(self)), data.model(), D::kind_entries(*final(self)), D::key_index(k)),
            old(self).extends(final(self)),
    {
        data.intern_in(self)
    }

    /// The data stored under `key`, of whichever kind it is.
    pub fn untern<D: Intern>(&self, key: D::Key) -> (r: D)
        requires
            self.wf(),
            0 <= D::key_index(key) < D::kind_entries(*self).len(),
        ensures
            r.model() == D::kind_entries(*self)[D::key_index(key)],
    {
        D::untern_in(key, self)
    }
}

/// Interning keeps the entries free of duplicates.
pub proof fn lemma_interned_distinct(s: Seq<DataModel>, d: DataModel)
    requires
        distinct_models(s),
    ensures
        distinct_models(interned(s, d)),
        s.len() <= interned(s, d).len(),
        forall|i: int| 0 <= i < s.len() ==> interned(s, d)[i] == s[i],
{
}

/// Interning is canonical: two values interned in turn get the same key
/// exactly when they are equal.
pub proof fn lemma_intern_deterministic(
    s0: Seq<DataModel>,
    d1: DataModel,
    s1: Seq<DataModel>,
    k1: int,
    d2: DataModel,
    s2: Seq<DataModel>,
    k2: int,
)
    requires
        distinct_models(s0),
        intern_post(s0, d1, s1, k1),
        intern_post(s1, d2, s2, k2),
    ensures
        (d1 == d2) == (k1 == k2),
{
    lemma_interned_distinct(s0, d1);
    lemma_interned_distinct(s1, d2);
    assert(s2[k1] == d1);
}

/// The key that interning gives leads back to the interned data.
pub proof fn lemma_untern_intern(s0: Seq<DataModel>, d: DataModel, s1: Seq<DataModel>, k: int)
    requires
        intern_post(s0, d, s1, k),
    ensures
        0 <= k < s1.len(),
        s1[k] == d,
{
}

/// A key keeps its data whatever is interned later.
pub proof fn lemma_key_stable(s0: Seq<DataModel>, d: DataModel, s1: Seq<DataModel>, k: int, key: int)
    requires
        intern_post(s0, d, s1, k),
        0 <= key < s0.len(),
    ensures
        key < s1.len(),
        s1[key] == s0[key],
{
}

} // verus!
