//! Custom rendering of variables: how many children a variable has, and the
//! hook that formatters implement.
use vstd::prelude::*;

use crate::dap::Variable;
use std::ops::Range;

verus! {

/// Why a formatter could not do what it was asked: a message for the user.
#[derive(Debug, Clone)]
pub struct FormatterError {
    pub message: String,
}

/// `<str as PartialEq>::eq`: the two strings are the same characters.
#[verifier::external_body]
fn str_eq(a: &str, b: &str) -> (r: bool)
    ensures
        r == (a@ == b@),
{
    a == b
}

pub struct ChildCounts {
    /// The number of indexed children the variable has.
    ///
    /// Indexed children usually correspond to elements in container data types and
    /// usually have names like `[0]`, `[1]`, `[2]`, and so on.
    pub indexed: usize,
    /// The number of named children the variable has.
    ///
    /// Named children usually correspond to members in structured data types and have
    /// names corresponding to the names of those members.
    pub named: usize,
}

impl ChildCounts {
    /// Children counts for a variable with `indexed` indexed children and `named` named children.
    pub fn mixed(indexed: usize, named: usize) -> (c: ChildCounts)
        ensures
            c.indexed == indexed,
            c.named == named,
    {
        ChildCounts { indexed, named }
    }

    /// Children counts for a variable with `count` indexed children and no named children.
    pub fn indexed(count: usize) -> (c: ChildCounts)
        ensures
            c.indexed == count,
            c.named == 0,
    {
        ChildCounts { indexed: count, named: 0 }
    }

    /// Children counts for a variable with `count` named children and no indexed children.
    pub fn named(count: usize) -> (c: ChildCounts)
        ensures
            c.indexed == 0,
            c.named == count,
    {
        ChildCounts { indexed: 0, named: count }
    }
}

/// Provides custom expansion for a [Variable].
///
/// Implement this trait to provide custom formatting for variable children
/// and/or variable values.
pub trait VariableFormatter {
    /// Performs a match on a [Variable] to see if this formatter can
    /// format it. If this returns `true`, this formatter confirms that it can format the variable.
    fn matches(&self, value: &Variable) -> bool;

    /// Computes the number of children that a variable has.
    ///
    /// Returns an error if this formatter cannot provide children for this node.
    fn num_children(&self, value: &Variable) -> Result<ChildCounts, FormatterError>;

    /// Provides the indexed children for a [Variable] within a range of indices.
    fn indexed_children(&self, value: &Variable, range: Range<usize>) -> (r: Result<Vec<Variable>, FormatterError>)
        default_ensures
            r matches Err(e) && e.message@ == "indexed_children not implemented"@,
    {
        Err(FormatterError { message: String::from_str("indexed_children not implemented") })
    }

    /// Provides the named children for a [Variable] within a range of indices.
    fn named_children(&self, value: &Variable, range: Range<usize>) -> (r: Result<Vec<Variable>, FormatterError>)
        default_ensures
            r matches Err(e) && e.message@ == "named_children not implemented"@,
    {
        Err(FormatterError { message: String::from_str("named_children not implemented") })
    }

    /// Renders the value for a [Variable].
    fn display(&self, value: &Variable) -> (r: Result<String, FormatterError>)
        default_ensures
            r matches Ok(s) && s@ == value.value@,
    {
        Ok(value.display())
    }
}

// Reusable for various formatter that follow the same access pattern
pub trait VariableSliceExt {
    fn find(&self, name: &str) -> Option<&Variable>;
}

impl VariableSliceExt for [Variable] {
    /// The first variable named `name`.
    fn find(&self, name: &str) -> (r: Option<&Variable>)
        ensures
            r is None ==> forall|i: int| 0 <= i < self@.len() ==> #[trigger] self@[i].name@ != name@,
            r is Some ==> exists|i: int|
                0 <= i < self@.len() && self@[i] == *r.unwrap() && self@[i].name@ == name@ && forall|j: int|
                    0 <= j < i ==> #[trigger] self@[j].name@ != name@,
    {
        let n = self.len();
        let mut i: usize = 0;
        while i < n
            invariant
                n == self@.len(),
                i <= n,
                forall|j: int| 0 <= j < i ==> #[trigger] self@[j].name@ != name@,
            decreases n - i,
        {
            if str_eq(self[i].name(), name) {
                return Some(&self[i]);
            }
            i = i + 1;
        }
        None
    }
}

} // verus!
