use std::rc::Rc;
use ty_infer::{
    Base, BaseData, BaseKind, DefId, Generic, Generics, GenericsData, InferDisplay, InferVar,
    NarrowError, Perm, PermData, Rank, RootData, Ty, TyInterners, UnificationTable, UnifyOutcome,
    Value, ValueData,
};

fn named(interners: &mut TyInterners, name: u32) -> Base {
    let empty = interners.common().empty_generics;
    interners.intern_base(BaseData { kind: BaseKind::Named { name: DefId(name) }, generics: empty })
}

#[test]
fn intern_own_twice_gives_the_memoized_key() {
    let mut interners = TyInterners::new();
    let a = interners.intern_perm(PermData::Own);
    let b = interners.intern_perm(PermData::Own);
    assert_eq!(a, b);
    assert_eq!(a, interners.common().own);
}

#[test]
fn empty_generics_is_the_memoized_key_without_a_new_entry() {
    let mut interners = TyInterners::new();
    let empty = interners.intern_generics(vec![]);
    assert_eq!(empty, interners.common().empty_generics);
    let own = interners.common().own;
    let base = named(&mut interners, 3);
    let one = interners.intern_generics(vec![Generic::Ty(Ty { perm: own, base })]);
    // The first list after the memoized empty one takes the next key.
    assert_eq!(one, Generics(empty.0 + 1));
}

#[test]
fn interning_equal_data_gives_equal_keys() {
    let mut interners = TyInterners::new();
    let a = interners.intern_perm(PermData::Share);
    let b = interners.intern_perm(PermData::Share);
    let c = interners.intern_perm(PermData::Borrow);
    assert_eq!(a, b);
    assert_ne!(a, c);
    let x = named(&mut interners, 1);
    let y = named(&mut interners, 1);
    let z = named(&mut interners, 2);
    assert_eq!(x, y);
    assert_ne!(x, z);
}

#[test]
fn untern_gives_back_the_interned_data() {
    let mut interners = TyInterners::new();
    let p = interners.intern_perm(PermData::Borrow);
    assert_eq!(interners.untern_perm(p), PermData::Borrow);
    let b = named(&mut interners, 7);
    let empty = interners.common().empty_generics;
    assert_eq!(
        interners.untern_base(b),
        BaseData { kind: BaseKind::Named { name: DefId(7) }, generics: empty }
    );
    let own = interners.common().own;
    let list = vec![Generic::Ty(Ty { perm: own, base: b })];
    let g = interners.intern_generics(list.clone());
    assert_eq!(*interners.untern_generics(g).elements, list);
    let g2 = interners.intern_generics_data(GenericsData { elements: Rc::new(list) });
    assert_eq!(g, g2);
}

#[test]
fn keys_stay_valid_after_later_interning() {
    let mut interners = TyInterners::new();
    let b = named(&mut interners, 5);
    let before = interners.untern_base(b);
    for i in 10..40 {
        named(&mut interners, i);
        interners.intern_perm(PermData::Infer { var: InferVar(i) });
    }
    assert_eq!(interners.untern_base(b), before);
    assert_eq!(named(&mut interners, 5), b);
}

#[test]
fn intern_base_var_uses_the_empty_generics() {
    let mut interners = TyInterners::new();
    let b = interners.intern_base_var(InferVar(4));
    let data = interners.untern_base(b);
    assert_eq!(data.kind, BaseKind::Infer { var: InferVar(4) });
    assert_eq!(data.generics, interners.common().empty_generics);
    assert_eq!(data.as_infer_var(), Some(InferVar(4)));
}

#[test]
fn three_base_vars_unified_and_bound_probe_to_the_value() {
    let mut interners = TyInterners::new();
    let v = named(&mut interners, 9);
    let mut table = UnificationTable::new(interners);
    let a = table.new_infer_var();
    let b = table.new_infer_var();
    let c = table.new_infer_var();
    assert_eq!(table.union(a, b), UnifyOutcome::Unified);
    assert_eq!(table.union(b, c), UnifyOutcome::Unified);
    let (root, _) = table.find(c);
    let value = table.bind(root, ValueData::Base(v));
    assert_eq!(table.probe(a), Some(value));
    assert_eq!(table.probe(b), Some(value));
    assert_eq!(table.probe(c), Some(value));
    assert_eq!(table.value_as_base(value), v);
}

#[test]
fn inferable_bases_resolve_once_bound() {
    let mut interners = TyInterners::new();
    let v = named(&mut interners, 9);
    let mut table = UnificationTable::new(interners);
    let a = table.new_inferable_base();
    let b = table.new_inferable_base();
    assert_ne!(a, b);
    assert_eq!(table.shallow_resolve_base(a), None);
    let var_a = table.interners().untern_base(a).as_infer_var().unwrap();
    let var_b = table.interners().untern_base(b).as_infer_var().unwrap();
    assert_eq!(table.union(var_a, var_b), UnifyOutcome::Unified);
    let (root, _) = table.find(var_a);
    assert_eq!(table.shallow_resolve_base_data(a), Err(root));
    table.bind(var_b, ValueData::Base(v));
    assert_eq!(table.shallow_resolve_base(a), Some(v));
    assert_eq!(table.shallow_resolve_base(v), None);
    let expected = table.interners().untern_base(v);
    assert_eq!(table.shallow_resolve_base_data(a), Ok(expected));
    assert_eq!(table.shallow_resolve_base_data(v), Ok(expected));
}

#[test]
fn inferable_perms_resolve_once_bound() {
    let mut table = UnificationTable::new(TyInterners::new());
    let own = table.interners().common().own;
    let p = table.new_inferable_perm();
    assert_eq!(table.interners().untern_perm(p), PermData::Infer { var: InferVar(0) });
    assert_eq!(table.shallow_resolve_perm_data(p), Err(InferVar(0)));
    assert_eq!(table.shallow_resolve_perm(p), None);
    table.bind(InferVar(0), ValueData::Perm(own));
    assert_eq!(table.shallow_resolve_perm(p), Some(own));
    assert_eq!(table.shallow_resolve_perm_data(p), Ok(PermData::Own));
    assert_eq!(table.shallow_resolve_perm_data(own), Ok(PermData::Own));
}

#[test]
fn base_value_narrowed_to_perm_fails() {
    let mut interners = TyInterners::new();
    let v = named(&mut interners, 2);
    let own = interners.common().own;
    assert_eq!(Perm::try_from(ValueData::Base(v)), Err(NarrowError::NotPerm(v)));
    assert_eq!(Perm::try_from(ValueData::Perm(own)), Ok(own));
    assert_eq!(Base::try_from(ValueData::Perm(own)), Err(NarrowError::NotBase(own)));
    assert_eq!(Base::try_from(ValueData::Base(v)), Ok(v));
}

#[test]
fn union_of_two_bound_classes_reports_both_values() {
    let mut interners = TyInterners::new();
    let v1 = named(&mut interners, 1);
    let v2 = named(&mut interners, 2);
    let mut table = UnificationTable::new(interners);
    let a = table.new_infer_var();
    let b = table.new_infer_var();
    let x = table.bind(a, ValueData::Base(v1));
    let y = table.bind(b, ValueData::Base(v2));
    assert_eq!(table.union(a, b), UnifyOutcome::BothBound(x, y));
    assert_eq!(table.find(a).0, a);
    assert_eq!(table.find(b).0, b);
    assert_eq!(table.probe(a), Some(x));
    assert_eq!(table.probe(b), Some(y));
}

#[test]
fn union_with_a_bound_class_takes_its_value() {
    let mut interners = TyInterners::new();
    let v = named(&mut interners, 1);
    let mut table = UnificationTable::new(interners);
    let a = table.new_infer_var();
    let b = table.new_infer_var();
    let x = table.bind(b, ValueData::Base(v));
    assert_eq!(table.union(a, b), UnifyOutcome::Unified);
    assert_eq!(table.find(a), (b, RootData::Value(x)));
    assert_eq!(table.probe(a), Some(x));
}

#[test]
fn equal_ranks_merge_into_the_larger_root_with_a_higher_rank() {
    let mut table = UnificationTable::new(TyInterners::new());
    let a = table.new_infer_var();
    let b = table.new_infer_var();
    let c = table.new_infer_var();
    table.union(a, b);
    assert_eq!(table.find(a), (b, RootData::Rank(Rank { value: 1 })));
    // Rank 0 against rank 1: the higher rank stays root.
    table.union(c, a);
    assert_eq!(table.find(c), (b, RootData::Rank(Rank { value: 1 })));
}

#[test]
fn repeated_find_gives_the_same_root() {
    let mut table = UnificationTable::new(TyInterners::new());
    let vars: Vec<InferVar> = (0..8).map(|_| table.new_infer_var()).collect();
    for i in 1..8 {
        table.union(vars[i - 1], vars[i]);
    }
    let first: Vec<(InferVar, RootData)> = vars.iter().map(|v| table.find_without_path_compression(*v)).collect();
    for v in &vars {
        let r1 = table.find(*v);
        let r2 = table.find(*v);
        assert_eq!(r1, r2);
    }
    let after: Vec<(InferVar, RootData)> = vars.iter().map(|v| table.find(*v)).collect();
    assert_eq!(first, after);
    let root = after[0].0;
    assert!(after.iter().all(|r| r.0 == root));
}

#[test]
fn binding_survives_later_unions_and_bindings() {
    let mut interners = TyInterners::new();
    let v = named(&mut interners, 1);
    let w = named(&mut interners, 2);
    let mut table = UnificationTable::new(interners);
    let a = table.new_infer_var();
    let b = table.new_infer_var();
    let c = table.new_infer_var();
    let d = table.new_infer_var();
    let x = table.bind(a, ValueData::Base(v));
    table.union(c, d);
    table.union(b, a);
    let y = table.bind(c, ValueData::Base(w));
    assert_ne!(x, y);
    assert_eq!(table.probe(a), Some(x));
    assert_eq!(table.probe(b), Some(x));
    assert_eq!(table.probe(d), Some(y));
    assert_eq!(table.value_as_base(x), v);
}

#[test]
fn describe_shows_root_or_value() {
    let mut table = UnificationTable::new(TyInterners::new());
    let own = table.interners().common().own;
    let a = table.new_infer_var();
    let b = table.new_infer_var();
    table.union(a, b);
    assert_eq!(table.describe_infer_var(a), InferDisplay::Unbound(b));
    table.bind(a, ValueData::Perm(own));
    assert_eq!(table.describe_infer_var(a), InferDisplay::Bound(ValueData::Perm(own)));
    assert_eq!(table.value_as_perm(Value(0)), own);
}

#[test]
fn rank_and_root_data_accessors() {
    assert_eq!(Rank { value: 3 }.next(), Rank { value: 4 });
    assert_eq!(RootData::Rank(Rank { value: 2 }).rank(), Some(Rank { value: 2 }));
    assert_eq!(RootData::Rank(Rank { value: 2 }).value(), None);
    assert_eq!(RootData::Value(Value(5)).value(), Some(Value(5)));
    assert_eq!(RootData::Value(Value(5)).rank(), None);
}

#[test]
fn registry_survives_the_table() {
    let mut interners = TyInterners::new();
    let v = named(&mut interners, 6);
    let mut table = UnificationTable::new(interners);
    let p = table.new_inferable_perm();
    let interners = table.into_interners();
    assert_eq!(interners.untern_perm(p), PermData::Infer { var: InferVar(0) });
    assert_eq!(interners.untern_base(v).kind, BaseKind::Named { name: DefId(6) });
    assert_eq!(PermData::Own.as_infer_var(), None);
}

#[test]
fn value_data_from_keys() {
    let own = TyInterners::new().common().own;
    assert_eq!(ValueData::from(own), ValueData::Perm(own));
    assert_eq!(ValueData::from(Base(3)), ValueData::Base(Base(3)));
}

#[test]
fn counts_follow_interning() {
    let mut interners = TyInterners::new();
    assert_eq!(interners.perm_count(), 1);
    assert_eq!(interners.base_count(), 0);
    named(&mut interners, 1);
    named(&mut interners, 1);
    assert_eq!(interners.base_count(), 1);
    let mut table = UnificationTable::new(interners);
    table.new_infer_var();
    assert_eq!(table.num_infer_vars(), 1);
}

#[test]
fn trace_keeps_the_order_of_unions() {
    let mut table = UnificationTable::new(TyInterners::new());
    let a = table.new_infer_var();
    let b = table.new_infer_var();
    let c = table.new_infer_var();
    assert_eq!(table.traced(a), None);
    table.union(b, a);
    // On equal ranks `b` becomes the root; the trace still records `b` towards `a`.
    assert_eq!(table.find(a).0, b);
    assert_eq!(table.traced(b), Some(a));
    table.union(c, a);
    assert_eq!(table.traced(c), Some(b));
    assert_eq!(table.traced(a), None);
}

#[test]
fn generic_intern_and_untern_cover_every_kind() {
    let mut interners = TyInterners::new();
    let p: Perm = interners.intern(PermData::Share);
    assert_eq!(p, interners.intern_perm(PermData::Share));
    assert_eq!(interners.untern::<PermData>(p), PermData::Share);
    let empty = interners.common().empty_generics;
    let data = BaseData { kind: BaseKind::Named { name: DefId(8) }, generics: empty };
    let b: Base = interners.intern(data);
    assert_eq!(interners.untern::<BaseData>(b), data);
    let g: Generics = interners.intern(GenericsData { elements: Rc::new(vec![]) });
    assert_eq!(g, empty);
    assert!(interners.untern::<GenericsData>(g).elements.is_empty());
}

#[test]
fn interner_on_its_own() {
    let mut interner: ty_infer::Interner<PermData> = ty_infer::Interner::new();
    let a = interner.intern(PermData::Borrow);
    let b = interner.intern(PermData::Own);
    let c = interner.intern(PermData::Borrow);
    assert_eq!((a, b, c), (0, 1, 0));
    assert_eq!(interner.untern(b), PermData::Own);
}
