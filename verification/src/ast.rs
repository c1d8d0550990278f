use vstd::prelude::*;
use crate::koopa::KoopaLines;

pub mod astnode;
pub mod indexing;

verus! {

/// The Koopa lines produced for a node and the name of the value it computes.
#[derive(Debug)]
pub struct ReturnValue {
    pub value: Option<String>,
    pub content: KoopaLines,
}

impl ReturnValue {
    pub fn new(value: Option<String>, content: KoopaLines) -> (r: Self)
        ensures
            r.value == value,
            r.content@ == content@,
    {
        ReturnValue { value, content }
    }

    pub fn with_content(content: KoopaLines) -> (r: Self)
        ensures
            r.value is None,
            r.content@ == content@,
    {
        ReturnValue { value: None, content }
    }

    /// The lines of `self` followed by those of `additional`, with the value
    /// of `additional`.
    pub fn extend(self, additional: ReturnValue) -> (r: Self)
        ensures
            r.content@ == self.content@ + additional.content@,
            r.value == additional.value,
    {
        let mut out = self;
        out.content.add_lines(additional.content);
        out.value = additional.value;
        out
    }
}

} // verus!
