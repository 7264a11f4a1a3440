//! What the loader needs of a node type.

use vstd::prelude::*;

use crate::value::{Tree, Yaml};

verus! {

/// The capabilities of a YAML node type: built from a `Yaml`, asked for its kind, and taken
/// out in one step, leaving `BadValue` behind.
pub trait LoadableYamlNode: Sized {
    /// The tree that the node stands for.
    spec fn node(&self) -> Tree;

    fn from_yaml(y: Yaml) -> (r: Self)
        ensures
            r.node() == y@,
    ;

    fn is_array(&self) -> (r: bool)
        ensures
            r == (self.node() is Array),
    ;

    fn is_hash(&self) -> (r: bool)
        ensures
            r == (self.node() is Hash),
    ;

    fn is_badvalue(&self) -> (r: bool)
        ensures
            r == (self.node() is BadValue),
    ;

    /// Takes the node out, leaving `BadValue` in its place.
    fn take(&mut self) -> (r: Self)
        ensures
            r.node() == old(self).node(),
            final(self).node() == Tree::BadValue,
    ;
}

impl LoadableYamlNode for Yaml {
    open spec fn node(&self) -> Tree {
        self@
    }

    fn from_yaml(y: Yaml) -> (r: Yaml) {
        y
    }

    fn is_array(&self) -> (r: bool) {
        matches!(self, Yaml::Array(_))
    }

    fn is_hash(&self) -> (r: bool) {
        matches!(self, Yaml::Hash(_))
    }

    fn is_badvalue(&self) -> (r: bool) {
        matches!(self, Yaml::BadValue)
    }

    fn take(&mut self) -> (r: Yaml) {
        let mut taken_out = Yaml::BadValue;
        core::mem::swap(&mut taken_out, self);
        taken_out
    }
}

impl Clone for Yaml {
    fn clone(&self) -> Yaml {
        self.duplicate()
    }
}

} // verus!
