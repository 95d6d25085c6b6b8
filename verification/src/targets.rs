//! Where a deployed artifact points, and what is attached to it.

use vstd::prelude::*;

verus! {

/// The user that a deployed artifact should belong to.
#[derive(Debug)]
pub enum Owner {
    Id(u32),
    Name(String),
}

/// Where a symbolic link points and who should own it.
#[derive(Debug)]
pub struct SymbolicTarget {
    pub target: String,
    pub owner: Option<Owner>,
}

/// Where a rendered template is written, who should own it, and the literal
/// text to attach after and before the rendered content.
#[derive(Debug)]
pub struct TemplateTarget {
    pub target: String,
    pub owner: Option<Owner>,
    pub append: Option<String>,
    pub prepend: Option<String>,
}

/// A copy of an optional text.
pub fn copy_text(text: &Option<String>) -> (r: Option<String>)
    ensures
        r == *text,
{
    match text {
        Some(t) => Some(t.clone()),
        None => None,
    }
}

/// A copy of an optional owner.
pub fn copy_owner(owner: &Option<Owner>) -> (r: Option<Owner>)
    ensures
        r == *owner,
{
    match owner {
        Some(o) => Some(o.clone()),
        None => None,
    }
}

impl Clone for Owner {
    fn clone(&self) -> (r: Self)
        ensures
            r == *self,
    {
        match self {
            Owner::Id(id) => Owner::Id(*id),
            Owner::Name(name) => Owner::Name(name.clone()),
        }
    }
}

impl Clone for SymbolicTarget {
    fn clone(&self) -> (r: Self)
        ensures
            r == *self,
    {
        SymbolicTarget { target: self.target.clone(), owner: copy_owner(&self.owner) }
    }
}

impl Clone for TemplateTarget {
    fn clone(&self) -> (r: Self)
        ensures
            r == *self,
    {
        TemplateTarget {
            target: self.target.clone(),
            owner: copy_owner(&self.owner),
            append: copy_text(&self.append),
            prepend: copy_text(&self.prepend),
        }
    }
}

} // verus!
