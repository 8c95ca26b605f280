use crate::fx_index::DataModel;
use crate::intern::{intern_post, TyInterners};
use crate::ty::{Base, BaseData, BaseKind, InferVar, Perm, PermData};
use vstd::prelude::*;

verus! {

/// Key of a value that an equivalence class of inference variables is bound to.
#[derive(Copy, Clone, Debug, PartialEq, Eq, Hash, Structural)]
pub struct Value(pub u32);

/// A resolved value, tagged with its domain.
#[derive(Copy, Clone, Debug, PartialEq, Eq, Structural)]
pub enum ValueData {
    Perm(Perm),
    Base(Base),
}

impl From<Perm> for ValueData {
    fn from(perm: Perm) -> ValueData {
        ValueData::Perm(perm)
    }
}

impl vstd::std_specs::convert::FromSpecImpl<Perm> for ValueData {
    open spec fn obeys_from_spec() -> bool {
        true
    }

    open spec fn from_spec(v: Perm) -> ValueData {
        ValueData::Perm(v)
    }
}

impl From<Base> for ValueData {
    fn from(base: Base) -> ValueData {
        ValueData::Base(base)
    }
}

impl vstd::std_specs::convert::FromSpecImpl<Base> for ValueData {
    open spec fn obeys_from_spec() -> bool {
        true
    }

    open spec fn from_spec(v: Base) -> ValueData {
        ValueData::Base(v)
    }
}

/// Why a value could not be narrowed to the domain that was asked for.
#[derive(Copy, Clone, Debug, PartialEq, Eq, Structural)]
pub enum NarrowError {
    /// A permission was expected; the value is this base type.
    NotPerm(Base),
    /// A base type was expected; the value is this permission.
    NotBase(Perm),
}

impl Perm {
    /// The permission that `value` holds, or an error if it holds a base type.
    pub fn try_from(value: ValueData) -> (r: Result<Perm, NarrowError>)
        ensures
            r == (match value {
                ValueData::Perm(p) => Ok::<Perm, NarrowError>(p),
                ValueData::Base(b) => Err(NarrowError::NotPerm(b)),
            }),
    {
        match value {
            ValueData::Perm(p) => Ok(p),
            ValueData::Base(b) => Err(NarrowError::NotPerm(b)),
        }
    }
}

impl Base {
    /// The base type that `value` holds, or an error if it holds a permission.
    pub fn try_from(value: ValueData) -> (r: Result<Base, NarrowError>)
        ensures
            r == (match value {
                ValueData::Base(b) => Ok::<Base, NarrowError>(b),
                ValueData::Perm(p) => Err(NarrowError::NotBase(p)),
            }),
    {
        match value {
            ValueData::Base(b) => Ok(b),
            ValueData::Perm(p) => Err(NarrowError::NotBase(p)),
        }
    }
}

/// The rank of an unbound root: an upper bound on the height of its tree.
#[derive(Copy, Clone, Debug, PartialEq, Eq, Structural)]
pub struct Rank {
    pub value: u32,
}

impl Rank {
    pub fn next(self) -> (r: Rank)
        requires
            self.value < u32::MAX,
        ensures
            r.value == self.value + 1,
    {
        Rank { value: self.value + 1 }
    }
}

/// The union-find state of one inference variable.
#[derive(Copy, Clone, Debug, PartialEq, Eq, Structural)]
pub enum InferData {
    /// A root that is not yet bound to a value.
    Unbound(Rank),
    /// A root that is bound to a value.
    Value(Value),
    /// A variable that points towards the root of its class (maybe not directly).
    Redirect(InferVar),
}

/// What `find` reports of a root.
#[derive(Copy, Clone, Debug, PartialEq, Eq, Structural)]
pub enum RootData {
    Rank(Rank),
    Value(Value),
}

impl RootData {
    pub open spec fn value_spec(self) -> Option<Value> {
        match self {
            RootData::Rank(_) => None,
            RootData::Value(v) => Some(v),
        }
    }

    pub open spec fn rank_spec(self) -> Option<Rank> {
        match self {
            RootData::Rank(r) => Some(r),
            RootData::Value(_) => None,
        }
    }

    pub fn value(self) -> (r: Option<Value>)
        ensures
            r == self.value_spec(),
    {
        match self {
            RootData::Rank(_) => None,
            RootData::Value(v) => Some(v),
        }
    }

    pub fn rank(self) -> (r: Option<Rank>)
        ensures
            r == self.rank_spec(),
    {
        match self {
            RootData::Rank(r) => Some(r),
            RootData::Value(_) => None,
        }
    }
}

/// The result of unifying two variables.
#[derive(Copy, Clone, Debug, PartialEq, Eq, Structural)]
pub enum UnifyOutcome {
    /// The two variables are now in one class.
    Unified,
    /// Both classes are already bound, to these values; nothing was changed,
    /// and the caller decides what that means.
    BothBound(Value, Value),
}

/// What a variable stands for, for printing.
#[derive(Copy, Clone, Debug, PartialEq, Eq, Structural)]
pub enum InferDisplay {
    /// Not yet bound: the root of its class.
    Unbound(InferVar),
    /// Bound to this value.
    Bound(ValueData),
}

pub open spec fn root_data_of(d: InferData) -> RootData {
    match d {
        InferData::Unbound(r) => RootData::Rank(r),
        InferData::Value(x) => RootData::Value(x),
        InferData::Redirect(_) => RootData::Rank(Rank { value: 0 }),
    }
}

/// The keys in `d` are keys of `reg`.
pub open spec fn value_in(reg: TyInterners, d: ValueData) -> bool {
    match d {
        ValueData::Perm(p) => p.0 < reg.perms().len(),
        ValueData::Base(b) => b.0 < reg.bases().len(),
    }
}

/// Union-find over inference variables, with the values they are bound to.
pub struct UnificationTable {
    interners: TyInterners,
    infers: Vec<InferData>,
    trace: Vec<Option<InferVar>>,
    values: Vec<ValueData>,
    /// The root of each variable's class.
    roots: Ghost<Seq<int>>,
    /// Grows strictly along every redirect; bounds the length of a path.
    levels: Ghost<Seq<nat>>,
}

impl UnificationTable {
    /// The number of inference variables.
    pub closed spec fn num_vars(&self) -> nat {
        self.infers@.len()
    }

    /// The root of the class of variable `v`.
    pub closed spec fn root(&self, v: int) -> int {
        self.roots@[v]
    }

    /// The state of the root of the class of variable `v`.
    pub closed spec fn root_data(&self, v: int) -> RootData {
        root_data_of(self.infers@[self.roots@[v]])
    }

    /// The value that the class of `v` is bound to, if any.
    pub open spec fn probed(&self, v: int) -> Option<Value> {
        self.root_data(v).value_spec()
    }

    pub closed spec fn values(&self) -> Seq<ValueData> {
        self.values@
    }

    pub closed spec fn trace(&self) -> Seq<Option<InferVar>> {
        self.trace@
    }

    pub closed spec fn registry(&self) -> TyInterners {
        self.interners
    }

    pub closed spec fn depth(&self, v: int) -> nat {
        (self.levels@[self.roots@[v]] - self.levels@[v]) as nat
    }

    closed spec fn node_wf(&self, v: int) -> bool {
        let n = self.infers@.len();
        let r = self.roots@[v];
        &&& 0 <= r < n
        &&& !(self.infers@[r] is Redirect)
        &&& self.levels@[v] <= self.levels@[r]
        &&& match self.infers@[v] {
            InferData::Redirect(p) => {
                &&& p.0 < n
                &&& self.roots@[p.0 as int] == r
                &&& self.levels@[p.0 as int] > self.levels@[v]
            },
            InferData::Value(x) => r == v && x.0 < self.values@.len(),
            InferData::Unbound(_) => r == v,
        }
    }

    pub closed spec fn wf(&self) -> bool {
        &&& self.interners.wf()
        &&& self.infers@.len() <= u32::MAX
        &&& self.values@.len() <= u32::MAX
        &&& self.trace@.len() == self.infers@.len()
        &&& self.roots@.len() == self.infers@.len()
        &&& self.levels@.len() == self.infers@.len()
        &&& forall|v: int| 0 <= v < self.infers@.len() ==> #[trigger] self.node_wf(v)
        &&& forall|x: int| 0 <= x < self.values@.len() ==> value_in(self.interners, #[trigger] self.values@[x])
    }

    /// Only paths were shortened: every class, root and value is as it was.
    pub closed spec fn compressed_from(&self, other: &Self) -> bool {
        &&& self.infers@.len() == other.infers@.len()
        &&& self.roots@ == other.roots@
        &&& self.levels@ == other.levels@
        &&& self.values@ == other.values@
        &&& self.trace@ == other.trace@
        &&& self.interners == other.interners
        &&& forall|v: int|
            0 <= v < self.infers@.len() ==> ((#[trigger] self.infers@[v] is Redirect)
                == (other.infers@[v] is Redirect)) && (!(other.infers@[v] is Redirect)
                ==> self.infers@[v] == other.infers@[v])
    }

    /// Every variable has the same root and root state in both tables.
    pub open spec fn same_classes(&self, other: &Self) -> bool {
        &&& self.num_vars() == other.num_vars()
        &&& forall|v: int|
            #![trigger self.root(v)]
            #![trigger self.root_data(v)]
            0 <= v < self.num_vars() ==> self.root(v) == other.root(v) && self.root_data(v)
                == other.root_data(v)
        &&& self.values() == other.values()
        &&& self.trace() == other.trace()
        &&& self.registry() == other.registry()
    }

    /// `find(var)` on `before` left `after` and returned `r`.
    pub open spec fn find_post(before: &Self, after: &Self, var: InferVar, r: (InferVar, RootData)) -> bool {
        &&& after.wf()
        &&& after.same_classes(before)
        &&& r.0.0 == before.root(var.0 as int)
        &&& r.1 == before.root_data(var.0 as int)
    }

    /// Unifying `a` and `b` on `before` left `after`.
    pub open spec fn union_post(before: &Self, after: &Self, a: int, b: int) -> bool {
        let ra = before.root(a);
        let rb = before.root(b);
        &&& after.wf()
        &&& after.num_vars() == before.num_vars()
        &&& after.values() == before.values()
        &&& after.registry() == before.registry()
        &&& !(ra != rb && before.probed(a) is Some && before.probed(b) is Some)
        &&& (after.root(a) == ra || after.root(a) == rb)
        &&& forall|u: int|
            0 <= u < before.num_vars() ==> #[trigger] after.root(u) == (if before.root(u) == ra
                || before.root(u) == rb {
                after.root(a)
            } else {
                before.root(u)
            })
        &&& forall|u: int|
            0 <= u < before.num_vars() ==> #[trigger] after.root_data(u) == (if before.root(u) == ra
                || before.root(u) == rb {
                after.root_data(a)
            } else {
                before.root_data(u)
            })
        &&& after.probed(a) == (if before.probed(a) is Some {
            before.probed(a)
        } else {
            before.probed(b)
        })
    }

    /// Binding the class of `var` on `before` to `data` left `after` and returned `x`.
    pub open spec fn bind_post(before: &Self, after: &Self, var: int, x: Value, data: ValueData) -> bool {
        &&& after.wf()
        &&& after.num_vars() == before.num_vars()
        &&& x.0 == before.values().len()
        &&& after.values() == before.values().push(data)
        &&& after.trace() == before.trace()
        &&& after.registry() == before.registry()
        &&& forall|u: int| 0 <= u < before.num_vars() ==> #[trigger] after.root(u) == before.root(u)
        &&& forall|u: int|
            0 <= u < before.num_vars() ==> #[trigger] after.root_data(u) == (if before.root(u)
                == before.root(var) {
                RootData::Value(x)
            } else {
                before.root_data(u)
            })
    }

    /// A table with no variable, interning through `interners`.
    pub fn new(interners: TyInterners) -> (r: Self)
        requires
            interners.wf(),
        ensures
            r.wf(),
            r.num_vars() == 0,
            r.values() == Seq::<ValueData>::empty(),
            r.trace() == Seq::<Option<InferVar>>::empty(),
            r.registry() == interners,
    {
        UnificationTable {
            interners,
            infers: Vec::new(),
            trace: Vec::new(),
            values: Vec::new(),
            roots: Ghost(Seq::empty()),
            levels: Ghost(Seq::empty()),
        }
    }

    /// The number of inference variables.
    pub fn num_infer_vars(&self) -> (r: usize)
        ensures
            r == self.num_vars(),
    {
        self.infers.len()
    }

    /// The variable that `var`'s class was last merged towards, as the
    /// caller of `union` named it; kept for diagnostics only.
    pub fn traced(&self, var: InferVar) -> (r: Option<InferVar>)
        requires
            self.wf(),
            var.0 < self.num_vars(),
        ensures
            r == self.trace()[var.0 as int],
    {
        self.trace[var.0 as usize]
    }

    pub fn interners(&self) -> (r: &TyInterners)
        ensures
            *r == self.registry(),
    {
        &self.interners
    }

    pub fn into_interners(self) -> (r: TyInterners)
        ensures
            r == self.registry(),
    {
        self.interners
    }

    /// A fresh variable, in a class of its own, not yet bound.
    pub fn new_infer_var(&mut self) -> (r: InferVar)
        requires
            old(self).wf(),
            old(self).num_vars() < u32::MAX,
        ensures
            final(self).wf(),
            r.0 == old(self).num_vars(),
            final(self).num_vars() == old(self).num_vars() + 1,
            final(self).root(r.0 as int) == r.0,
            final(self).root_data(r.0 as int) == RootData::Rank(Rank { value: 0 }),
            forall|v: int|
                #![trigger final(self).root(v)]
                #![trigger final(self).root_data(v)]
                0 <= v < old(self).num_vars() ==> final(self).root(v) == old(self).root(v)
                    && final(self).root_data(v) == old(self).root_data(v),
            final(self).values() == old(self).values(),
            final(self).trace() == old(self).trace().push(None),
            final(self).registry() == old(self).registry(),
    {
        let n = self.infers.len();
        self.infers.push(InferData::Unbound(Rank { value: 0 }));
        self.trace.push(None);
        self.roots = Ghost(self.roots@.push(n as int));
        self.levels = Ghost(self.levels@.push(0));
        proof {
            assert forall|v: int| 0 <= v < self.infers@.len() implies #[trigger] self.node_wf(v) by {
                if v < n {
                    assert(old(self).node_wf(v));
                }
            }
            assert forall|v: int| 0 <= v < old(self).num_vars() implies final(self).root(v) == old(self).root(v)
                && final(self).root_data(v) == old(self).root_data(v) by {
                assert(old(self).node_wf(v));
            }
        }
        InferVar(n as u32)
    }

    /// The root of the class of `var` and its state. Every variable passed
    /// on the way is made to point at the root directly.
    pub fn find(&mut self, var: InferVar) -> (r: (InferVar, RootData))
        requires
            old(self).wf(),
            var.0 < old(self).num_vars(),
        ensures
            Self::find_post(old(self), final(self), var, r),
            final(self).compressed_from(old(self)),
        decreases old(self).depth(var.0 as int),
    {
        let i = var.0 as usize;
        proof {
            assert(self.node_wf(i as int));
            lemma_compressed_same_classes(self, self);
        }
        match self.infers[i] {
            InferData::Unbound(rank) => (var, RootData::Rank(rank)),
            InferData::Value(x) => (var, RootData::Value(x)),
            InferData::Redirect(p) => {
                proof {
                    assert(self.node_wf(p.0 as int));
                }
                let (root, data) = self.find(p);
                if root.0 != p.0 {
                    let ghost before = *self;
                    proof {
                        assert(self.node_wf(root.0 as int));
                        assert(self.node_wf(p.0 as int));
                    }
                    self.infers.set(i, InferData::Redirect(root));
                    proof {
                        assert forall|v: int| 0 <= v < self.infers@.len() implies #[trigger] self.node_wf(v) by {
                            assert(before.node_wf(v));
                        }
                    }
                }
                proof {
                    lemma_compressed_same_classes(self, old(self));
                }
                (root, data)
            },
        }
    }

    /// `find` that leaves every path as it is, for use where the table cannot
    /// be changed.
    pub fn find_without_path_compression(&self, var: InferVar) -> (r: (InferVar, RootData))
        requires
            self.wf(),
            var.0 < self.num_vars(),
        ensures
            r.0.0 == self.root(var.0 as int),
            r.1 == self.root_data(var.0 as int),
        decreases self.depth(var.0 as int),
    {
        let i = var.0 as usize;
        proof {
            assert(self.node_wf(i as int));
        }
        match self.infers[i] {
            InferData::Unbound(rank) => (var, RootData::Rank(rank)),
            InferData::Value(x) => (var, RootData::Value(x)),
            InferData::Redirect(p) => {
                proof {
                    assert(self.node_wf(p.0 as int));
                }
                self.find_without_path_compression(p)
            },
        }
    }
}


impl UnificationTable {
    /// The value that the class of `var` is bound to, if any.
    pub fn probe(&mut self, var: InferVar) -> (r: Option<Value>)
        requires
            old(self).wf(),
            var.0 < old(self).num_vars(),
        ensures
            final(self).wf(),
            final(self).same_classes(old(self)),
            r == old(self).probed(var.0 as int),
    {
        let (_, data) = self.find(var);
        data.value()
    }

    /// Makes the root `loser` point at the root `winner`; `winner_rank`, if
    /// given, becomes the rank of `winner`.
    fn redirect_root(&mut self, loser: InferVar, winner: InferVar, winner_rank: Option<Rank>)
        requires
            old(self).wf(),
            loser.0 < old(self).num_vars(),
            winner.0 < old(self).num_vars(),
            loser != winner,
            old(self).root(loser.0 as int) == loser.0,
            old(self).root(winner.0 as int) == winner.0,
            old(self).root_data(loser.0 as int) is Rank,
            winner_rank is Some ==> old(self).root_data(winner.0 as int) is Rank,
        ensures
            final(self).wf(),
            final(self).num_vars() == old(self).num_vars(),
            final(self).values() == old(self).values(),
            final(self).trace() == old(self).trace(),
            final(self).registry() == old(self).registry(),
            forall|u: int|
                0 <= u < old(self).num_vars() ==> #[trigger] final(self).root(u) == (if old(self).root(u)
                    == loser.0 {
                    winner.0 as int
                } else {
                    old(self).root(u)
                }),
            forall|u: int|
                0 <= u < old(self).num_vars() && old(self).root(u) != loser.0 && old(self).root(u)
                    != winner.0 ==> #[trigger] final(self).root_data(u) == old(self).root_data(u),
            final(self).root_data(winner.0 as int) == (match winner_rank {
                Some(rk) => RootData::Rank(rk),
                None => old(self).root_data(winner.0 as int),
            }),
    {
        let ghost before = *self;
        let l = loser.0 as usize;
        let w = winner.0 as usize;
        proof {
            assert(self.node_wf(l as int));
            assert(self.node_wf(w as int));
        }
        self.infers.set(l, InferData::Redirect(winner));
        match winner_rank {
            Some(rk) => {
                self.infers.set(w, InferData::Unbound(rk));
            },
            None => {},
        }
        let ghost lw = before.levels@[w as int];
        let ghost ll = before.levels@[l as int];
        let ghost new_level: nat = if lw > ll { lw } else { ll + 1 };
        self.levels = Ghost(before.levels@.update(w as int, new_level));
        self.roots = Ghost(
            Seq::new(before.roots@.len(), |u: int| if before.roots@[u] == l as int { w as int } else { before.roots@[u] }),
        );
        proof {
            assert forall|v: int| 0 <= v < self.infers@.len() implies #[trigger] self.node_wf(v) by {
                assert(before.node_wf(v));
                match before.infers@[v] {
                    InferData::Redirect(p) => {
                        assert(before.node_wf(p.0 as int));
                    },
                    _ => {},
                }
            }
            assert forall|u: int| 0 <= u < before.num_vars() && before.root(u) != l && before.root(u) != w implies
                #[trigger] self.root_data(u) == before.root_data(u) by {
                assert(before.node_wf(u));
            }
        }
    }

    /// Puts `a` and `b` into one class. Where both classes are already bound
    /// to values, nothing changes and both values are returned.
    pub fn union(&mut self, a: InferVar, b: InferVar) -> (r: UnifyOutcome)
        requires
            old(self).wf(),
            a.0 < old(self).num_vars(),
            b.0 < old(self).num_vars(),
        ensures
            final(self).wf(),
            (r is BothBound) == (old(self).root(a.0 as int) != old(self).root(b.0 as int)
                && old(self).probed(a.0 as int) is Some && old(self).probed(b.0 as int) is Some),
            r matches UnifyOutcome::BothBound(va, vb) ==> {
                &&& old(self).probed(a.0 as int) == Some(va)
                &&& old(self).probed(b.0 as int) == Some(vb)
                &&& final(self).same_classes(old(self))
            },
            r is Unified ==> Self::union_post(old(self), final(self), a.0 as int, b.0 as int),
            r is Unified && old(self).root(a.0 as int) != old(self).root(b.0 as int) ==> final(self).trace()
                == old(self).trace().update(
                old(self).root(a.0 as int),
                Some(InferVar(old(self).root(b.0 as int) as u32)),
            ),
            r is Unified && old(self).root(a.0 as int) == old(self).root(b.0 as int) ==> final(self).trace()
                == old(self).trace(),
    {
        let ghost t0 = *self;
        let (ra, da) = self.find(a);
        let (rb, db) = self.find(b);
        let ghost t1 = *self;
        proof {
            assert(t1.same_classes(&t0));
            assert(t0.node_wf(a.0 as int));
            assert(t0.node_wf(b.0 as int));
            assert(t0.node_wf(ra.0 as int));
            assert(t0.node_wf(rb.0 as int));
            assert(t1.root(ra.0 as int) == t0.root(ra.0 as int));
            assert(t1.root(rb.0 as int) == t0.root(rb.0 as int));
            assert(t1.root_data(ra.0 as int) == t0.root_data(ra.0 as int));
            assert(t1.root_data(rb.0 as int) == t0.root_data(rb.0 as int));
        }
        if ra.0 == rb.0 {
            proof {
                assert forall|u: int| 0 <= u < t0.num_vars() implies #[trigger] self.root(u) == (if t0.root(u)
                    == t0.root(a.0 as int) || t0.root(u) == t0.root(b.0 as int) {
                    self.root(a.0 as int)
                } else {
                    t0.root(u)
                }) by {
                    assert(t0.node_wf(u));
                }
                assert forall|u: int| 0 <= u < t0.num_vars() implies #[trigger] self.root_data(u) == (if t0.root(u)
                    == t0.root(a.0 as int) || t0.root(u) == t0.root(b.0 as int) {
                    self.root_data(a.0 as int)
                } else {
                    t0.root_data(u)
                }) by {
                    assert(t0.node_wf(u));
                    assert(self.root(u) == t0.root(u));
                    assert(self.root_data(u) == t0.root_data(u));
                }
            }
            return UnifyOutcome::Unified;
        }
        match (da, db) {
            (RootData::Value(va), RootData::Value(vb)) => {
                return UnifyOutcome::BothBound(va, vb);
            },
            (RootData::Rank(_), RootData::Value(_)) => {
                self.redirect_root(ra, rb, None);
            },
            (RootData::Value(_), RootData::Rank(_)) => {
                self.redirect_root(rb, ra, None);
            },
            (RootData::Rank(x), RootData::Rank(y)) => {
                if x.value < y.value {
                    self.redirect_root(ra, rb, None);
                } else if y.value < x.value {
                    self.redirect_root(rb, ra, None);
                } else {
                    // Ranks are at most the logarithm of a class's size, so
                    // the top rank is never reached; it is kept if it were.
                    let rk = if x.value < u32::MAX { x.next() } else { x };
                    if ra.0 > rb.0 {
                        self.redirect_root(rb, ra, Some(rk));
                    } else {
                        self.redirect_root(ra, rb, Some(rk));
                    }
                }
            },
        }
        let ghost t2 = *self;
        proof {
            assert(t2.root(a.0 as int) == t2.root(ra.0 as int));
            assert(t2.root(b.0 as int) == t2.root(rb.0 as int));
        }
        self.trace.set(ra.0 as usize, Some(rb));
        proof {
            assert forall|v: int| 0 <= v < self.infers@.len() implies #[trigger] self.node_wf(v) by {
                assert(t2.node_wf(v));
            }
            assert forall|u: int| 0 <= u < t0.num_vars() implies #[trigger] self.root(u) == (if t0.root(u)
                == t0.root(a.0 as int) || t0.root(u) == t0.root(b.0 as int) {
                self.root(a.0 as int)
            } else {
                t0.root(u)
            }) by {
                assert(t0.node_wf(u));
                assert(t1.root(u) == t0.root(u));
                assert(t2.root(u) == self.root(u));
                assert(t2.root(a.0 as int) == self.root(a.0 as int));
                assert(t2.root(a.0 as int) == t2.root(ra.0 as int));
            }
            assert(self.root_data(a.0 as int) == t2.root_data(ra.0 as int) || self.root_data(a.0 as int) == t2.root_data(rb.0 as int));
            assert forall|u: int| 0 <= u < t0.num_vars() implies #[trigger] self.root_data(u) == (if t0.root(u)
                == t0.root(a.0 as int) || t0.root(u) == t0.root(b.0 as int) {
                self.root_data(a.0 as int)
            } else {
                t0.root_data(u)
            }) by {
                assert(t0.node_wf(u));
                assert(t1.root(u) == t0.root(u));
                assert(t2.root(u) == self.root(u));
                if t0.root(u) != t0.root(a.0 as int) && t0.root(u) != t0.root(b.0 as int) {
                    assert(t2.root_data(u) == t1.root_data(u));
                }
            }
        }
        UnifyOutcome::Unified
    }

    /// Binds the class of `var`, which is not yet bound, to `data`.
    pub fn bind(&mut self, var: InferVar, data: ValueData) -> (r: Value)
        requires
            old(self).wf(),
            var.0 < old(self).num_vars(),
            old(self).probed(var.0 as int) is None,
            old(self).values().len() < u32::MAX,
            value_in(old(self).registry(), data),
        ensures
            Self::bind_post(old(self), final(self), var.0 as int, r, data),
    {
        let ghost t0 = *self;
        let (root, _) = self.find(var);
        let ghost t1 = *self;
        let x = Value(self.values.len() as u32);
        proof {
            assert(t0.node_wf(var.0 as int));
        }
        self.values.push(data);
        self.infers.set(root.0 as usize, InferData::Value(x));
        proof {
            assert(t0.node_wf(var.0 as int));
            assert forall|v: int| 0 <= v < self.infers@.len() implies #[trigger] self.node_wf(v) by {
                assert(t1.node_wf(v));
            }
            assert forall|i: int| 0 <= i < self.values@.len() implies value_in(self.interners, #[trigger] self.values@[i]) by {
                if i < t1.values@.len() {
                    assert(value_in(t1.interners, t1.values@[i]));
                }
            }
            assert forall|u: int| 0 <= u < t0.num_vars() implies #[trigger] self.root_data(u) == (if t0.root(u)
                == t0.root(var.0 as int) {
                RootData::Value(x)
            } else {
                t0.root_data(u)
            }) by {
                assert(t1.node_wf(u));
                assert(t1.root_data(u) == t0.root_data(u));
            }
            assert forall|u: int| 0 <= u < t0.num_vars() implies #[trigger] self.root(u) == t0.root(u) by {
                assert(t1.root(u) == t0.root(u));
            }
        }
        x
    }
}


impl UnificationTable {
    /// The data that the registry holds under `p`.
    pub open spec fn perm_data(&self, p: Perm) -> PermData {
        match self.registry().perms()[p.0 as int] {
            DataModel::Perm(d) => d,
            _ => arbitrary(),
        }
    }

    /// The data that the registry holds under `b`.
    pub open spec fn base_data(&self, b: Base) -> BaseData {
        match self.registry().bases()[b.0 as int] {
            DataModel::Base(d) => d,
            _ => arbitrary(),
        }
    }

    /// `p` is a key of the registry; if it stands for a variable, that variable
    /// is one of this table and its class, if bound, is bound to a permission.
    pub open spec fn perm_resolvable(&self, p: Perm) -> bool {
        &&& p.0 < self.registry().perms().len()
        &&& (self.perm_data(p).infer_var_spec() matches Some(var) ==> {
            &&& var.0 < self.num_vars()
            &&& (self.probed(var.0 as int) matches Some(x) ==> self.values()[x.0 as int] is Perm)
        })
    }

    /// `b` is a key of the registry; if it stands for a variable, that variable
    /// is one of this table and its class, if bound, is bound to a base type.
    pub open spec fn base_resolvable(&self, b: Base) -> bool {
        &&& b.0 < self.registry().bases().len()
        &&& (self.base_data(b).infer_var_spec() matches Some(var) ==> {
            &&& var.0 < self.num_vars()
            &&& (self.probed(var.0 as int) matches Some(x) ==> self.values()[x.0 as int] is Base)
        })
    }

    /// The permission that `p` resolves to one level down: the value of its
    /// variable's class, where `p` is a bound variable.
    pub open spec fn perm_resolution(&self, p: Perm) -> Option<Perm> {
        match self.perm_data(p).infer_var_spec() {
            Some(var) => match self.probed(var.0 as int) {
                Some(x) => match self.values()[x.0 as int] {
                    ValueData::Perm(q) => Some(q),
                    _ => None,
                },
                None => None,
            },
            None => None,
        }
    }

    /// The base type that `b` resolves to one level down: the value of its
    /// variable's class, where `b` is a bound variable.
    pub open spec fn base_resolution(&self, b: Base) -> Option<Base> {
        match self.base_data(b).infer_var_spec() {
            Some(var) => match self.probed(var.0 as int) {
                Some(x) => match self.values()[x.0 as int] {
                    ValueData::Base(q) => Some(q),
                    _ => None,
                },
                None => None,
            },
            None => None,
        }
    }

    /// The permission that `value` holds, which must be one.
    pub fn value_as_perm(&self, value: Value) -> (r: Perm)
        requires
            value.0 < self.values().len(),
            self.values()[value.0 as int] is Perm,
        ensures
            ValueData::Perm(r) == self.values()[value.0 as int],
    {
        match self.values[value.0 as usize] {
            ValueData::Perm(p) => p,
            ValueData::Base(_) => unreached(),
        }
    }

    /// The base type that `value` holds, which must be one.
    pub fn value_as_base(&self, value: Value) -> (r: Base)
        requires
            value.0 < self.values().len(),
            self.values()[value.0 as int] is Base,
        ensures
            ValueData::Base(r) == self.values()[value.0 as int],
    {
        match self.values[value.0 as usize] {
            ValueData::Base(b) => b,
            ValueData::Perm(_) => unreached(),
        }
    }

    /// A fresh variable wrapped as a permission.
    pub fn new_inferable_perm(&mut self) -> (r: Perm)
        requires
            old(self).wf(),
            old(self).num_vars() < u32::MAX,
            old(self).registry().perms().len() < u32::MAX,
        ensures
            final(self).wf(),
            final(self).num_vars() == old(self).num_vars() + 1,
            intern_post(
                old(self).registry().perms(),
                DataModel::Perm(PermData::Infer { var: InferVar(old(self).num_vars() as u32) }),
                final(self).registry().perms(),
                r.0 as int,
            ),
            final(self).registry().bases() == old(self).registry().bases(),
            final(self).registry().generics_lists() == old(self).registry().generics_lists(),
            old(self).registry().extends(&final(self).registry()),
            final(self).root(old(self).num_vars() as int) == old(self).num_vars(),
            final(self).root_data(old(self).num_vars() as int) == RootData::Rank(Rank { value: 0 }),
            forall|v: int|
                #![trigger final(self).root(v)]
                #![trigger final(self).root_data(v)]
                0 <= v < old(self).num_vars() ==> final(self).root(v) == old(self).root(v)
                    && final(self).root_data(v) == old(self).root_data(v),
            final(self).values() == old(self).values(),
            final(self).trace() == old(self).trace().push(None),
    {
        let var = self.new_infer_var();
        let ghost t1 = *self;
        let r = self.interners.intern_perm(PermData::Infer { var });
        proof {
            assert forall|v: int| 0 <= v < self.infers@.len() implies #[trigger] self.node_wf(v) by {
                assert(t1.node_wf(v));
            }
            assert forall|x: int| 0 <= x < self.values@.len() implies value_in(self.interners, #[trigger] self.values@[x]) by {
                assert(value_in(t1.interners, t1.values@[x]));
            }
            assert forall|v: int| 0 <= v < old(self).num_vars() implies self.root(v) == old(self).root(v)
                && self.root_data(v) == old(self).root_data(v) by {
                assert(t1.root(v) == old(self).root(v));
                assert(t1.root_data(v) == old(self).root_data(v));
            }
        }
        r
    }

    /// A fresh variable wrapped as a base type with no generic arguments.
    pub fn new_inferable_base(&mut self) -> (r: Base)
        requires
            old(self).wf(),
            old(self).num_vars() < u32::MAX,
            old(self).registry().bases().len() < u32::MAX,
        ensures
            final(self).wf(),
            final(self).num_vars() == old(self).num_vars() + 1,
            intern_post(
                old(self).registry().bases(),
                DataModel::Base(
                    BaseData {
                        kind: BaseKind::Infer { var: InferVar(old(self).num_vars() as u32) },
                        generics: old(self).registry().common_keys().empty_generics,
                    },
                ),
                final(self).registry().bases(),
                r.0 as int,
            ),
            final(self).registry().perms() == old(self).registry().perms(),
            final(self).registry().generics_lists() == old(self).registry().generics_lists(),
            old(self).registry().extends(&final(self).registry()),
            final(self).root(old(self).num_vars() as int) == old(self).num_vars(),
            final(self).root_data(old(self).num_vars() as int) == RootData::Rank(Rank { value: 0 }),
            forall|v: int|
                #![trigger final(self).root(v)]
                #![trigger final(self).root_data(v)]
                0 <= v < old(self).num_vars() ==> final(self).root(v) == old(self).root(v)
                    && final(self).root_data(v) == old(self).root_data(v),
            final(self).values() == old(self).values(),
            final(self).trace() == old(self).trace().push(None),
    {
        let var = self.new_infer_var();
        let ghost t1 = *self;
        let r = self.interners.intern_base_var(var);
        proof {
            assert forall|v: int| 0 <= v < self.infers@.len() implies #[trigger] self.node_wf(v) by {
                assert(t1.node_wf(v));
            }
            assert forall|x: int| 0 <= x < self.values@.len() implies value_in(self.interners, #[trigger] self.values@[x]) by {
                assert(value_in(t1.interners, t1.values@[x]));
            }
            assert forall|v: int| 0 <= v < old(self).num_vars() implies self.root(v) == old(self).root(v)
                && self.root_data(v) == old(self).root_data(v) by {
                assert(t1.root(v) == old(self).root(v));
                assert(t1.root_data(v) == old(self).root_data(v));
            }
        }
        r
    }

    /// The value of `perm` one level down, if it is a bound variable.
    pub fn shallow_resolve_perm(&mut self, perm: Perm) -> (r: Option<Perm>)
        requires
            old(self).wf(),
            old(self).perm_resolvable(perm),
        ensures
            final(self).wf(),
            final(self).same_classes(old(self)),
            r == old(self).perm_resolution(perm),
    {
        let data = self.interners.untern_perm(perm);
        match data.as_infer_var() {
            Some(var) => {
                proof {
                    lemma_probed_value_valid(self, var.0 as int);
                }
                match self.probe(var) {
                    Some(x) => Some(self.value_as_perm(x)),
                    None => None,
                }
            },
            None => None,
        }
    }

    /// The value of `base` one level down, if it is a bound variable.
    pub fn shallow_resolve_base(&mut self, base: Base) -> (r: Option<Base>)
        requires
            old(self).wf(),
            old(self).base_resolvable(base),
        ensures
            final(self).wf(),
            final(self).same_classes(old(self)),
            r == old(self).base_resolution(base),
    {
        let data = self.interners.untern_base(base);
        match data.as_infer_var() {
            Some(var) => {
                proof {
                    lemma_probed_value_valid(self, var.0 as int);
                }
                match self.probe(var) {
                    Some(x) => Some(self.value_as_base(x)),
                    None => None,
                }
            },
            None => None,
        }
    }

    /// The data of `perm`, one level resolved; the root of its variable's
    /// class where that is not bound yet.
    pub fn shallow_resolve_perm_data(&mut self, perm: Perm) -> (r: Result<PermData, InferVar>)
        requires
            old(self).wf(),
            old(self).perm_resolvable(perm),
        ensures
            final(self).wf(),
            final(self).same_classes(old(self)),
            match old(self).perm_resolution(perm) {
                Some(q) => r matches Ok(d) && DataModel::Perm(d) == old(self).registry().perms()[q.0 as int],
                None => match old(self).perm_data(perm).infer_var_spec() {
                    Some(var) => r == Err::<PermData, InferVar>(InferVar(old(self).root(var.0 as int) as u32)),
                    None => r == Ok::<PermData, InferVar>(old(self).perm_data(perm)),
                },
            },
    {
        let data = self.interners.untern_perm(perm);
        match data.as_infer_var() {
            Some(var) => {
                proof {
                    lemma_probed_value_valid(self, var.0 as int);
                }
                let (root, root_data) = self.find(var);
                match root_data.value() {
                    Some(x) => {
                        let q = self.value_as_perm(x);
                        proof {
                            assert(value_in(self.interners, self.values@[x.0 as int]));
                        }
                        Ok(self.interners.untern_perm(q))
                    },
                    None => Err(root),
                }
            },
            None => Ok(data),
        }
    }

    /// The data of `base`, one level resolved; the root of its variable's
    /// class where that is not bound yet.
    pub fn shallow_resolve_base_data(&mut self, base: Base) -> (r: Result<BaseData, InferVar>)
        requires
            old(self).wf(),
            old(self).base_resolvable(base),
        ensures
            final(self).wf(),
            final(self).same_classes(old(self)),
            match old(self).base_resolution(base) {
                Some(q) => r matches Ok(d) && DataModel::Base(d) == old(self).registry().bases()[q.0 as int],
                None => match old(self).base_data(base).infer_var_spec() {
                    Some(var) => r == Err::<BaseData, InferVar>(InferVar(old(self).root(var.0 as int) as u32)),
                    None => r == Ok::<BaseData, InferVar>(old(self).base_data(base)),
                },
            },
    {
        let data = self.interners.untern_base(base);
        match data.as_infer_var() {
            Some(var) => {
                proof {
                    lemma_probed_value_valid(self, var.0 as int);
                }
                let (root, root_data) = self.find(var);
                match root_data.value() {
                    Some(x) => {
                        let q = self.value_as_base(x);
                        proof {
                            assert(value_in(self.interners, self.values@[x.0 as int]));
                        }
                        Ok(self.interners.untern_base(q))
                    },
                    None => Err(root),
                }
            },
            None => Ok(data),
        }
    }

    /// What `var` stands for when printed: the root of its class while that
    /// is unbound, else the value it is bound to. Leaves the table as it is.
    pub fn describe_infer_var(&self, var: InferVar) -> (r: InferDisplay)
        requires
            self.wf(),
            var.0 < self.num_vars(),
        ensures
            r == (match self.probed(var.0 as int) {
                Some(x) => InferDisplay::Bound(self.values()[x.0 as int]),
                None => InferDisplay::Unbound(InferVar(self.root(var.0 as int) as u32)),
            }),
    {
        proof {
            lemma_probed_value_valid(self, var.0 as int);
        }
        let (root, root_data) = self.find_without_path_compression(var);
        match root_data {
            RootData::Rank(_) => InferDisplay::Unbound(root),
            RootData::Value(x) => InferDisplay::Bound(self.values[x.0 as usize]),
        }
    }
}

/// The value that a class is bound to is one of the table's values.
pub proof fn lemma_probed_value_valid(t: &UnificationTable, v: int)
    requires
        t.wf(),
        0 <= v < t.num_vars(),
    ensures
        t.probed(v) matches Some(x) ==> x.0 < t.values().len(),
        0 <= t.root(v) < t.num_vars(),
        t.root(t.root(v)) == t.root(v),
{
    assert(t.node_wf(v));
    assert(t.node_wf(t.root(v)));
}

/// A table whose paths were only shortened has the classes it had.
proof fn lemma_compressed_same_classes(t: &UnificationTable, before: &UnificationTable)
    requires
        before.wf(),
        t.compressed_from(before),
    ensures
        t.same_classes(before),
{
    assert forall|v: int| 0 <= v < t.num_vars() implies t.root(v) == before.root(v) && t.root_data(v)
        == before.root_data(v) by {
        assert(before.node_wf(v));
    }
}

/// Variables with one root share the state of that root.
pub proof fn lemma_class_shares_root_data(t: &UnificationTable, u: int, w: int)
    requires
        t.root(u) == t.root(w),
    ensures
        t.root_data(u) == t.root_data(w),
        t.probed(u) == t.probed(w),
{
}

/// Union is transitive: after unifying `a` with `b` and then `b` with `c`,
/// `a` and `c` have one root.
pub proof fn lemma_union_closure(
    t0: &UnificationTable,
    t1: &UnificationTable,
    t2: &UnificationTable,
    a: int,
    b: int,
    c: int,
)
    requires
        t0.wf(),
        0 <= a < t0.num_vars(),
        0 <= b < t0.num_vars(),
        0 <= c < t0.num_vars(),
        UnificationTable::union_post(t0, t1, a, b),
        UnificationTable::union_post(t1, t2, b, c),
    ensures
        t2.root(a) == t2.root(c),
{
    assert(t1.root(a) == t1.root(a));
    assert(t1.root(b) == t1.root(a));
    assert(t2.root(a) == t2.root(b));
    assert(t2.root(c) == t2.root(b));
}

/// After binding the class of `var` to `data`, probing `var` gives the new
/// value, which holds `data`.
pub proof fn lemma_bind_probes(
    t0: &UnificationTable,
    t1: &UnificationTable,
    var: int,
    x: Value,
    data: ValueData,
)
    requires
        0 <= var < t0.num_vars(),
        UnificationTable::bind_post(t0, t1, var, x, data),
    ensures
        t1.probed(var) == Some(x),
        t1.values()[x.0 as int] == data,
{
    assert(t1.root_data(var) == RootData::Value(x));
}

/// A bound class stays bound to its value through a later union.
pub proof fn lemma_binding_survives_union(
    t1: &UnificationTable,
    t2: &UnificationTable,
    var: int,
    x: Value,
    a: int,
    b: int,
)
    requires
        t1.wf(),
        0 <= var < t1.num_vars(),
        0 <= a < t1.num_vars(),
        0 <= b < t1.num_vars(),
        t1.probed(var) == Some(x),
        UnificationTable::union_post(t1, t2, a, b),
    ensures
        t2.probed(var) == Some(x),
        t2.values() == t1.values(),
{
    let ra = t1.root(a);
    let rb = t1.root(b);
    assert(t2.root(var) == t2.root(var));
    assert(t2.root(a) == t2.root(a));
    if t1.root(var) == ra {
        lemma_class_shares_root_data(t1, var, a);
        lemma_class_shares_root_data(t2, var, a);
    } else if t1.root(var) == rb {
        lemma_class_shares_root_data(t1, var, b);
        lemma_class_shares_root_data(t2, var, a);
        if ra == rb {
            lemma_class_shares_root_data(t1, a, b);
        }
    } else {
        assert(t2.root_data(var) == t1.root_data(var));
    }
}

/// A bound class stays bound to its value, which keeps its data, when
/// another class is bound.
pub proof fn lemma_binding_survives_bind(
    t1: &UnificationTable,
    t2: &UnificationTable,
    var: int,
    x: Value,
    w: int,
    y: Value,
    data: ValueData,
)
    requires
        t1.wf(),
        0 <= var < t1.num_vars(),
        0 <= w < t1.num_vars(),
        t1.probed(var) == Some(x),
        t1.probed(w) is None,
        UnificationTable::bind_post(t1, t2, w, y, data),
    ensures
        t2.probed(var) == Some(x),
        t2.values()[x.0 as int] == t1.values()[x.0 as int],
{
    lemma_probed_value_valid(t1, var);
    if t1.root(var) == t1.root(w) {
        lemma_class_shares_root_data(t1, var, w);
    }
    assert(t2.root_data(var) == t1.root_data(var));
}

/// Finding the root twice gives the same root, and no variable's root
/// changes on the way.
pub proof fn lemma_find_stable(
    t0: &UnificationTable,
    t1: &UnificationTable,
    t2: &UnificationTable,
    var: InferVar,
    r1: (InferVar, RootData),
    r2: (InferVar, RootData),
)
    requires
        t0.wf(),
        var.0 < t0.num_vars(),
        UnificationTable::find_post(t0, t1, var, r1),
        UnificationTable::find_post(t1, t2, var, r2),
    ensures
        r1 == r2,
        t2.num_vars() == t0.num_vars(),
        forall|u: int| 0 <= u < t0.num_vars() ==> #[trigger] t2.root(u) == t0.root(u),
{
    assert(t1.root(var.0 as int) == t0.root(var.0 as int));
    assert(t1.root_data(var.0 as int) == t0.root_data(var.0 as int));
    assert forall|u: int| 0 <= u < t0.num_vars() implies #[trigger] t2.root(u) == t0.root(u) by {
        assert(t1.root(u) == t0.root(u));
    }
}

} // verus!
