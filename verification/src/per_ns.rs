//! A per-namespace aggregation record: one resolved definition per
//! namespace (types, values, macros), any subset of which may be present.

use vstd::prelude::*;

verus! {

/// Identifier of a definition that can live in the type or value namespace.
#[derive(Clone, Copy, Debug, PartialEq, Eq, Hash, Structural)]
pub struct ModuleDef {
    pub id: u64,
}

/// Identifier of a macro definition.
#[derive(Clone, Copy, Debug, PartialEq, Eq, Hash, Structural)]
pub struct MacroDef {
    pub id: u64,
}

/// The two namespaces that ordinary name resolution cares about.
#[derive(Clone, Copy, Debug, PartialEq, Eq, PartialOrd, Ord, Hash)]
pub enum Namespace {
    Types,
    Values,
}

/// One resolution result per namespace. Macros have a different type from
/// the other two namespaces, so most combinators leave them untouched and
/// only `get_macros` / `only_macros` look at them.
#[derive(Clone, Copy, Debug, PartialEq, Eq, Hash)]
pub struct PerNs {
    pub types: Option<ModuleDef>,
    pub values: Option<ModuleDef>,
    pub macros: Option<MacroDef>,
}

impl core::default::Default for PerNs {
    fn default() -> (r: PerNs)
        ensures
            r.types is None,
            r.values is None,
            r.macros is None,
    {
        PerNs::none()
    }
}

impl PerNs {
    /// The empty record: nothing resolved in any namespace.
    pub fn none() -> (r: PerNs)
        ensures
            r.types is None,
            r.values is None,
            r.macros is None,
    {
        PerNs { types: None, values: None, macros: None }
    }

    /// A record holding only a value-namespace definition.
    pub fn values(t: ModuleDef) -> (r: PerNs)
        ensures
            r.types is None,
            r.values == Some(t),
            r.macros is None,
    {
        PerNs { types: None, values: Some(t), macros: None }
    }

    /// A record holding only a type-namespace definition.
    pub fn types(t: ModuleDef) -> (r: PerNs)
        ensures
            r.types == Some(t),
            r.values is None,
            r.macros is None,
    {
        PerNs { types: Some(t), values: None, macros: None }
    }

    /// A record holding a definition in both the type and value namespaces.
    pub fn both(types: ModuleDef, values: ModuleDef) -> (r: PerNs)
        ensures
            r.types == Some(types),
            r.values == Some(values),
            r.macros is None,
    {
        PerNs { types: Some(types), values: Some(values), macros: None }
    }

    /// A record holding only a macro definition.
    pub fn macros(macro_def: MacroDef) -> (r: PerNs)
        ensures
            r.types is None,
            r.values is None,
            r.macros == Some(macro_def),
    {
        PerNs { types: None, values: None, macros: Some(macro_def) }
    }

    /// True exactly when no namespace holds a definition.
    pub fn is_none(&self) -> (r: bool)
        ensures
            r == (self.types is None && self.values is None && self.macros is None),
    {
        self.types.is_none() && self.values.is_none() && self.macros.is_none()
    }

    /// True exactly when every namespace holds a definition.
    pub fn is_all(&self) -> (r: bool)
        ensures
            r == (self.types is Some && self.values is Some && self.macros is Some),
    {
        self.types.is_some() && self.values.is_some() && self.macros.is_some()
    }

    /// The type-namespace entry, if any.
    pub fn take_types(self) -> (r: Option<ModuleDef>)
        ensures
            r == self.types,
    {
        self.types
    }

    /// The value-namespace entry, if any.
    pub fn take_values(self) -> (r: Option<ModuleDef>)
        ensures
            r == self.values,
    {
        self.values
    }

    /// The macro-namespace entry, if any.
    pub fn get_macros(&self) -> (r: Option<MacroDef>)
        ensures
            r == self.macros,
    {
        self.macros
    }

    /// The record restricted to its macro entry.
    pub fn only_macros(&self) -> (r: PerNs)
        ensures
            r.types is None,
            r.values is None,
            r.macros == self.macros,
    {
        PerNs { types: None, values: None, macros: self.macros }
    }

    /// Namespace-wise first-of: each entry of the result is `self`'s entry
    /// when present, and `other`'s entry otherwise.
    pub fn or(self, other: PerNs) -> (r: PerNs)
        ensures
            r.types == (if self.types is Some { self.types } else { other.types }),
            r.values == (if self.values is Some { self.values } else { other.values }),
            r.macros == (if self.macros is Some { self.macros } else { other.macros }),
    {
        PerNs {
            types: match self.types {
                Some(t) => Some(t),
                None => other.types,
            },
            values: match self.values {
                Some(v) => Some(v),
                None => other.values,
            },
            macros: match self.macros {
                Some(m) => Some(m),
                None => other.macros,
            },
        }
    }
}

} // verus!
