use ast_edit::per_ns::{MacroDef, ModuleDef, Namespace, PerNs};

fn def(id: u64) -> ModuleDef {
    ModuleDef { id }
}

fn mac(id: u64) -> MacroDef {
    MacroDef { id }
}

#[test]
fn none_is_empty_in_every_namespace() {
    let n = PerNs::none();
    assert!(n.is_none());
    assert!(!n.is_all());
    assert_eq!(n.take_types(), None);
    assert_eq!(n.take_values(), None);
    assert_eq!(n.get_macros(), None);
}

#[test]
fn default_equals_none() {
    assert_eq!(PerNs::default(), PerNs::none());
}

#[test]
fn values_populates_only_the_value_namespace() {
    let n = PerNs::values(def(1));
    assert_eq!(n.take_values(), Some(def(1)));
    assert_eq!(n.take_types(), None);
    assert_eq!(n.get_macros(), None);
    assert!(!n.is_none());
}

#[test]
fn types_populates_only_the_type_namespace() {
    let n = PerNs::types(def(2));
    assert_eq!(n.take_types(), Some(def(2)));
    assert_eq!(n.take_values(), None);
}

#[test]
fn both_populates_types_and_values() {
    let n = PerNs::both(def(1), def(2));
    assert_eq!(n.take_types(), Some(def(1)));
    assert_eq!(n.take_values(), Some(def(2)));
    assert_eq!(n.get_macros(), None);
    assert!(!n.is_all());
}

#[test]
fn macros_populates_only_the_macro_namespace() {
    let n = PerNs::macros(mac(7));
    assert_eq!(n.get_macros(), Some(mac(7)));
    assert!(n.take_types().is_none());
    assert!(n.take_values().is_none());
}

#[test]
fn is_all_needs_all_three() {
    let mut n = PerNs::both(def(1), def(2));
    assert!(!n.is_all());
    n.macros = Some(mac(3));
    assert!(n.is_all());
}

#[test]
fn only_macros_drops_types_and_values() {
    let mut n = PerNs::both(def(1), def(2));
    n.macros = Some(mac(3));
    let m = n.only_macros();
    assert_eq!(m.get_macros(), Some(mac(3)));
    assert!(m.take_types().is_none());
    assert!(m.take_values().is_none());
}

#[test]
fn or_prefers_the_left_operand_per_namespace() {
    let left = PerNs::types(def(1));
    let right = PerNs::both(def(10), def(20));
    let merged = left.or(right);
    assert_eq!(merged.take_types(), Some(def(1)));
    assert_eq!(merged.take_values(), Some(def(20)));
}

#[test]
fn or_with_none_is_identity() {
    let n = PerNs::both(def(1), def(2));
    assert_eq!(n.or(PerNs::none()), n);
    assert_eq!(PerNs::none().or(n), n);
}

#[test]
fn namespace_tags_are_distinct() {
    assert_ne!(Namespace::Types, Namespace::Values);
}
