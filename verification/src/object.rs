//! The runtime value model a future evaluator works with: integers,
//! booleans, and the null value, each knowing its kind and its display form.

use vstd::prelude::*;

use crate::digits::{int_text, int_to_string};

verus! {

/// The kind of a runtime value.
#[allow(non_camel_case_types)]
#[derive(Clone, Copy, Debug, PartialEq, Eq, Structural)]
pub enum ObjectKind {
    INTEGER,
    BOOLEAN,
    NULL,
}

/// A runtime value: it reports its kind and renders itself for inspection.
pub trait ObjectType {
    spec fn spec_kind(&self) -> ObjectKind;

    spec fn spec_inspect(&self) -> Seq<char>;

    fn kind(&self) -> (k: ObjectKind)
        ensures
            k == self.spec_kind(),
    ;

    fn inspect(&self) -> (r: String)
        ensures
            r@ == self.spec_inspect(),
    ;
}

/// A boolean runtime value.
pub struct Boolean(pub bool);

/// An integer runtime value.
pub struct Integer(pub i64);

/// The null runtime value.
pub struct Null;

impl ObjectType for Boolean {
    open spec fn spec_kind(&self) -> ObjectKind {
        ObjectKind::BOOLEAN
    }

    open spec fn spec_inspect(&self) -> Seq<char> {
        if self.0 {
            "true"@
        } else {
            "false"@
        }
    }

    fn kind(&self) -> ObjectKind {
        ObjectKind::BOOLEAN
    }

    fn inspect(&self) -> String {
        if self.0 {
            "true".to_owned()
        } else {
            "false".to_owned()
        }
    }
}

impl ObjectType for Integer {
    open spec fn spec_kind(&self) -> ObjectKind {
        ObjectKind::INTEGER
    }

    open spec fn spec_inspect(&self) -> Seq<char> {
        int_text(self.0 as int)
    }

    fn kind(&self) -> ObjectKind {
        ObjectKind::INTEGER
    }

    fn inspect(&self) -> String {
        int_to_string(self.0)
    }
}

impl ObjectType for Null {
    open spec fn spec_kind(&self) -> ObjectKind {
        ObjectKind::NULL
    }

    open spec fn spec_inspect(&self) -> Seq<char> {
        "null"@
    }

    fn kind(&self) -> ObjectKind {
        ObjectKind::NULL
    }

    fn inspect(&self) -> String {
        "null".to_owned()
    }
}

} // verus!
