use vstd::prelude::*;

verus! {

/// An inference variable: an index into a unification table.
#[derive(Copy, Clone, Debug, PartialEq, Eq, Hash, Structural)]
pub struct InferVar(pub u32);

/// A definition of the surrounding program, by index.
#[derive(Copy, Clone, Debug, PartialEq, Eq, Hash, Structural)]
pub struct DefId(pub u32);

/// Key of an interned permission.
#[derive(Copy, Clone, Debug, PartialEq, Eq, Hash, Structural)]
pub struct Perm(pub u32);

/// Key of an interned base type.
#[derive(Copy, Clone, Debug, PartialEq, Eq, Hash, Structural)]
pub struct Base(pub u32);

/// Key of an interned list of generic arguments.
#[derive(Copy, Clone, Debug, PartialEq, Eq, Hash, Structural)]
pub struct Generics(pub u32);

/// The data of a permission.
#[derive(Copy, Clone, Debug, PartialEq, Eq, Hash, Structural)]
pub enum PermData {
    Own,
    Share,
    Borrow,
    Infer { var: InferVar },
}

/// The shape of a base type.
#[derive(Copy, Clone, Debug, PartialEq, Eq, Hash, Structural)]
pub enum BaseKind {
    Named { name: DefId },
    Infer { var: InferVar },
}

/// The data of a base type: its shape and its generic arguments.
#[derive(Copy, Clone, Debug, PartialEq, Eq, Hash, Structural)]
pub struct BaseData {
    pub kind: BaseKind,
    pub generics: Generics,
}

/// A type: a permission applied to a base type.
#[derive(Copy, Clone, Debug, PartialEq, Eq, Hash, Structural)]
pub struct Ty {
    pub perm: Perm,
    pub base: Base,
}

/// One generic argument.
#[derive(Copy, Clone, Debug, PartialEq, Eq, Hash, Structural)]
pub enum Generic {
    Ty(Ty),
}

/// The data of a list of generic arguments, shared between its users.
#[derive(Clone, Debug, PartialEq, Eq, Hash)]
pub struct GenericsData {
    pub elements: std::rc::Rc<Vec<Generic>>,
}

impl View for GenericsData {
    type V = Seq<Generic>;

    open spec fn view(&self) -> Seq<Generic> {
        self.elements@
    }
}

impl PermData {
    /// The inference variable that this permission stands for, if any.
    pub open spec fn infer_var_spec(self) -> Option<InferVar> {
        match self {
            PermData::Infer { var } => Some(var),
            _ => None,
        }
    }

    pub fn as_infer_var(&self) -> (r: Option<InferVar>)
        ensures
            r == self.infer_var_spec(),
    {
        match self {
            PermData::Infer { var } => Some(*var),
            _ => None,
        }
    }
}

impl BaseData {
    /// The inference variable that this base type stands for, if any.
    pub open spec fn infer_var_spec(self) -> Option<InferVar> {
        match self.kind {
            BaseKind::Infer { var } => Some(var),
            _ => None,
        }
    }

    pub fn as_infer_var(&self) -> (r: Option<InferVar>)
        ensures
            r == self.infer_var_spec(),
    {
        match self.kind {
            BaseKind::Infer { var } => Some(var),
            _ => None,
        }
    }
}

} // verus!
