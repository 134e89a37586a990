//! Reactive scopes: memoization regions over the linear schedule.

use crate::hir::{IdentV, Place};
use vstd::prelude::*;

verus! {

/// Identifies a reactive scope.
#[derive(Debug, Clone, Copy, PartialEq, Eq, Structural, Hash)]
pub struct ScopeId(pub usize);

impl DeepView for ScopeId {
    type V = nat;

    open spec fn deep_view(&self) -> nat {
        self.0 as nat
    }
}

/// An input of a scope: a value used inside it and defined before it.
#[derive(Debug)]
pub struct Dependency {
    pub place: Place,
}

impl DeepView for Dependency {
    type V = IdentV;

    open spec fn deep_view(&self) -> IdentV {
        self.place.deep_view()
    }
}

/// An output of a scope: a value defined inside it.
#[derive(Debug)]
pub struct Declaration {
    pub place: Place,
}

impl DeepView for Declaration {
    type V = IdentV;

    open spec fn deep_view(&self) -> IdentV {
        self.place.deep_view()
    }
}

/// A half-open range of schedule positions with its inputs and outputs.
#[derive(Debug)]
pub struct ReactiveScope {
    pub id: ScopeId,
    pub range: (usize, usize),
    pub dependencies: Vec<Dependency>,
    pub declarations: Vec<Declaration>,
}

pub ghost struct ScopeV {
    pub id: nat,
    pub start: nat,
    pub end: nat,
    pub dependencies: Seq<IdentV>,
    pub declarations: Seq<IdentV>,
}

impl DeepView for ReactiveScope {
    type V = ScopeV;

    open spec fn deep_view(&self) -> ScopeV {
        ScopeV {
            id: self.id.deep_view(),
            start: self.range.0 as nat,
            end: self.range.1 as nat,
            dependencies: self.dependencies.deep_view(),
            declarations: self.declarations.deep_view(),
        }
    }
}

} // verus!
