//! The four classifiers, in the order in which they are offered a type.
use vstd::prelude::*;
use crate::schema::{FullType, TypeKind};

verus! {

/// A classifier: it claims the types of one kind and renders them.
#[derive(Clone, Copy, Debug, PartialEq, Eq, Structural)]
pub enum Handler {
    Scalar,
    Enumeration,
    Input,
    Object,
}

/// The classifiers in priority order.
pub open spec fn handler_order() -> Seq<Handler> {
    seq![Handler::Scalar, Handler::Enumeration, Handler::Input, Handler::Object]
}

/// The kind that a classifier claims.
pub open spec fn claimed_kind(h: Handler) -> TypeKind {
    match h {
        Handler::Scalar => TypeKind::Scalar,
        Handler::Enumeration => TypeKind::Enum,
        Handler::Input => TypeKind::InputObject,
        Handler::Object => TypeKind::Object,
    }
}

/// Whether classifier `h` claims type `t`.
pub open spec fn claims(h: Handler, t: FullType) -> bool {
    t.kind == Some(claimed_kind(h))
}

/// The first classifier of `hs` that claims `t`.
pub open spec fn first_claimant(hs: Seq<Handler>, t: FullType) -> Option<Handler>
    decreases hs.len(),
{
    if hs.len() == 0 {
        None
    } else if claims(hs[0], t) {
        Some(hs[0])
    } else {
        first_claimant(hs.drop_first(), t)
    }
}

/// The classifier that renders `t`, if any.
pub open spec fn classify(t: FullType) -> Option<Handler> {
    first_claimant(handler_order(), t)
}

impl Handler {
    /// Whether this classifier claims `t`.
    pub fn predicate(&self, t: &FullType) -> (r: bool)
        ensures
            r == claims(*self, *t),
    {
        match (self, t.kind) {
            (Handler::Scalar, Some(TypeKind::Scalar)) => true,
            (Handler::Enumeration, Some(TypeKind::Enum)) => true,
            (Handler::Input, Some(TypeKind::InputObject)) => true,
            (Handler::Object, Some(TypeKind::Object)) => true,
            _ => false,
        }
    }
}

} // verus!
