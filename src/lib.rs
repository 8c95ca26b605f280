//! Type representation and inference-variable unification.
//!
//! Structurally equal type data is interned into small copyable keys
//! (`intern`), and inference variables are tracked by a union-find table
//! with rank-balanced merging and path compression (`unify`).

mod fx_index;
pub mod intern;
pub mod query;
pub mod ty;
pub mod unify;

pub use fx_index::{DataModel, Interned};
pub use intern::{Common, Intern, InternData, Interner, TyInterners};
pub use query::TyQueries;
pub use ty::{Base, BaseData, BaseKind, DefId, Generic, Generics, GenericsData, InferVar, Perm, PermData, Ty};
pub use unify::{InferData, InferDisplay, NarrowError, Rank, RootData, UnificationTable, UnifyOutcome, Value, ValueData};
