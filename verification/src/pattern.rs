//! Patterns of request strings: what is known of a string before it is
//! known in full.

use vstd::prelude::*;

verus! {

/// What is known of a string.
#[derive(Debug, Hash)]
pub enum Pattern {
    /// The string itself.
    Constant(String),
    /// Nothing: any string.
    Dynamic,
    /// One of these.
    Alternatives(Vec<Pattern>),
    /// These, one after the other.
    Concatenation(Vec<Pattern>),
}

impl Clone for Pattern {
    fn clone(&self) -> (copy: Pattern)
        decreases self,
    {
        match self {
            Pattern::Constant(text) => Pattern::Constant(text.clone()),
            Pattern::Dynamic => Pattern::Dynamic,
            Pattern::Alternatives(list) => Pattern::Alternatives(clone_all(list)),
            Pattern::Concatenation(list) => Pattern::Concatenation(clone_all(list)),
        }
    }
}

fn clone_all(list: &Vec<Pattern>) -> (copies: Vec<Pattern>)
    ensures
        copies.len() == list.len(),
    decreases list,
{
    let mut copies = Vec::new();
    let mut i: usize = 0;
    while i < list.len()
        invariant
            i <= list.len(),
            copies.len() == i,
        decreases list.len() - i,
    {
        copies.push(list[i].clone());
        i += 1;
    }
    copies
}

} // verus!
