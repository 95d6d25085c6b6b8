//! Descriptions of deployed artifacts, and the identity by which two of them
//! are the same artifact.
//!
//! The identity of a description is the pair of its source path and the path
//! it points to. Ownership and attached text are no part of it.

use vstd::prelude::*;
use vstd::std_specs::cmp::PartialEqSpecImpl;
use vstd::std_specs::cmp::PartialOrdSpecImpl;
use core::cmp::Ordering;
use crate::paths::path_lt;
use crate::paths::path_before;
use crate::paths::shown;
use crate::paths::show_path;
use crate::paths::lemma_path_lt_irreflexive;
use crate::paths::lemma_path_lt_transitive;
use crate::paths::lemma_path_lt_total;
use crate::targets::SymbolicTarget;
use crate::targets::TemplateTarget;

verus! {

/// Identities order by source path first, then by the path pointed to.
pub open spec fn key_lt(a: (Seq<char>, Seq<char>), b: (Seq<char>, Seq<char>)) -> bool {
    path_lt(a.0, b.0) || (a.0 == b.0 && path_lt(a.1, b.1))
}

/// No identity comes before itself.
pub proof fn lemma_key_lt_irreflexive(a: (Seq<char>, Seq<char>))
    ensures
        !key_lt(a, a),
{
    lemma_path_lt_irreflexive(a.0);
    lemma_path_lt_irreflexive(a.1);
}

/// The order of identities is transitive.
pub proof fn lemma_key_lt_transitive(
    a: (Seq<char>, Seq<char>),
    b: (Seq<char>, Seq<char>),
    c: (Seq<char>, Seq<char>),
)
    requires
        key_lt(a, b),
        key_lt(b, c),
    ensures
        key_lt(a, c),
{
    if path_lt(a.0, b.0) && path_lt(b.0, c.0) {
        lemma_path_lt_transitive(a.0, b.0, c.0);
    }
    if a.0 == b.0 && b.0 == c.0 {
        lemma_path_lt_transitive(a.1, b.1, c.1);
    }
}

/// Of two different identities exactly one comes before the other.
pub proof fn lemma_key_lt_total(a: (Seq<char>, Seq<char>), b: (Seq<char>, Seq<char>))
    ensures
        a == b || key_lt(a, b) || key_lt(b, a),
        !(key_lt(a, b) && key_lt(b, a)),
        a == b ==> !key_lt(a, b),
{
    lemma_path_lt_total(a.0, b.0);
    lemma_path_lt_total(a.1, b.1);
    lemma_key_lt_irreflexive(a);
    if key_lt(a, b) && key_lt(b, a) {
        lemma_key_lt_transitive(a, b, a);
    }
}

/// What has an identity: a source path and the path it points to.
pub trait Identified: Sized {
    /// The identity.
    spec fn key(&self) -> (Seq<char>, Seq<char>);

    /// The path of the source under management.
    fn source_path(&self) -> (r: &String)
        ensures
            r@ == self.key().0,
    ;

    /// The path that the source is deployed to.
    fn target_path(&self) -> (r: &String)
        ensures
            r@ == self.key().1,
    ;

    /// A copy, equal in every field.
    fn duplicate(&self) -> (r: Self)
        ensures
            r == *self,
    ;
}

/// Whether `a` and `b` are the same artifact.
pub fn same_identity<T: Identified>(a: &T, b: &T) -> (r: bool)
    ensures
        r == (a.key() == b.key()),
{
    let r = *a.source_path() == *b.source_path() && *a.target_path() == *b.target_path();
    proof {
        if r {
            assert(a.key().0 =~= b.key().0);
            assert(a.key().1 =~= b.key().1);
        }
    }
    r
}

/// Whether `a` orders before `b`.
pub fn identity_before<T: Identified>(a: &T, b: &T) -> (r: bool)
    ensures
        r == key_lt(a.key(), b.key()),
{
    if path_before(a.source_path().as_str(), b.source_path().as_str()) {
        true
    } else if *a.source_path() == *b.source_path() {
        path_before(a.target_path().as_str(), b.target_path().as_str())
    } else {
        false
    }
}

/// The line that tells a reader of one deployment: its kind, then the source
/// and the path pointed to as they are shown, with an arrow between them.
pub open spec fn deployment_line(kind: Seq<char>, source: Seq<char>, target: Seq<char>) -> Seq<
    char,
> {
    kind + " "@ + source + " -> "@ + target
}

/// Puts together the line for one deployment from its kind and from its two
/// paths as they are shown.
pub fn deployment_text(kind: &str, source: &str, target: &str) -> (r: String)
    ensures
        r@ == deployment_line(kind@, source@, target@),
{
    let mut out = String::from_str(kind);
    out.append(" ");
    out.append(source);
    out.append(" -> ");
    out.append(target);
    out
}

/// One symbolic link: `source` is deployed as a link at `target.target`.
#[derive(Debug)]
pub struct SymlinkDescription {
    pub source: String,
    pub target: SymbolicTarget,
}

/// One template: `source` is rendered to `target.target`, by way of `cache`.
#[derive(Debug)]
pub struct TemplateDescription {
    pub source: String,
    pub target: TemplateTarget,
    pub cache: String,
}

impl Identified for SymlinkDescription {
    open spec fn key(&self) -> (Seq<char>, Seq<char>) {
        (self.source@, self.target.target@)
    }

    fn source_path(&self) -> (r: &String) {
        &self.source
    }

    fn target_path(&self) -> (r: &String) {
        &self.target.target
    }

    fn duplicate(&self) -> (r: Self) {
        SymlinkDescription { source: self.source.clone(), target: self.target.clone() }
    }
}

impl Identified for TemplateDescription {
    open spec fn key(&self) -> (Seq<char>, Seq<char>) {
        (self.source@, self.target.target@)
    }

    fn source_path(&self) -> (r: &String) {
        &self.source
    }

    fn target_path(&self) -> (r: &String) {
        &self.target.target
    }

    fn duplicate(&self) -> (r: Self) {
        TemplateDescription {
            source: self.source.clone(),
            target: self.target.clone(),
            cache: self.cache.clone(),
        }
    }
}

impl Clone for SymlinkDescription {
    fn clone(&self) -> (r: Self)
        ensures
            r == *self,
    {
        self.duplicate()
    }
}

impl Clone for TemplateDescription {
    fn clone(&self) -> (r: Self)
        ensures
            r == *self,
    {
        self.duplicate()
    }
}

impl PartialEq for SymlinkDescription {
    fn eq(&self, other: &Self) -> (r: bool) {
        same_identity(self, other)
    }
}

impl PartialEqSpecImpl for SymlinkDescription {
    open spec fn obeys_eq_spec() -> bool {
        true
    }

    open spec fn eq_spec(&self, other: &Self) -> bool {
        self.key() == other.key()
    }
}

impl Eq for SymlinkDescription {

}

impl PartialOrd for SymlinkDescription {
    fn partial_cmp(&self, other: &Self) -> (r: Option<Ordering>) {
        if identity_before(self, other) {
            Some(Ordering::Less)
        } else if identity_before(other, self) {
            Some(Ordering::Greater)
        } else {
            proof {
                lemma_key_lt_total(self.key(), other.key());
            }
            Some(Ordering::Equal)
        }
    }
}

impl PartialOrdSpecImpl for SymlinkDescription {
    open spec fn obeys_partial_cmp_spec() -> bool {
        true
    }

    open spec fn partial_cmp_spec(&self, other: &Self) -> Option<Ordering> {
        if key_lt(self.key(), other.key()) {
            Some(Ordering::Less)
        } else if self.key() == other.key() {
            Some(Ordering::Equal)
        } else {
            Some(Ordering::Greater)
        }
    }
}

impl PartialEq for TemplateDescription {
    fn eq(&self, other: &Self) -> (r: bool) {
        same_identity(self, other)
    }
}

impl PartialEqSpecImpl for TemplateDescription {
    open spec fn obeys_eq_spec() -> bool {
        true
    }

    open spec fn eq_spec(&self, other: &Self) -> bool {
        self.key() == other.key()
    }
}

impl Eq for TemplateDescription {

}

impl PartialOrd for TemplateDescription {
    fn partial_cmp(&self, other: &Self) -> (r: Option<Ordering>) {
        if identity_before(self, other) {
            Some(Ordering::Less)
        } else if identity_before(other, self) {
            Some(Ordering::Greater)
        } else {
            proof {
                lemma_key_lt_total(self.key(), other.key());
            }
            Some(Ordering::Equal)
        }
    }
}

impl PartialOrdSpecImpl for TemplateDescription {
    open spec fn obeys_partial_cmp_spec() -> bool {
        true
    }

    open spec fn partial_cmp_spec(&self, other: &Self) -> Option<Ordering> {
        if key_lt(self.key(), other.key()) {
            Some(Ordering::Less)
        } else if self.key() == other.key() {
            Some(Ordering::Equal)
        } else {
            Some(Ordering::Greater)
        }
    }
}

impl SymlinkDescription {
    /// The line that tells a reader of this symbolic link.
    pub fn describe(&self) -> (r: String)
        ensures
            r@ == deployment_line("symlink"@, shown(self.source@), shown(self.target.target@)),
    {
        let source = show_path(self.source.as_str());
        let target = show_path(self.target.target.as_str());
        deployment_text("symlink", source.as_str(), target.as_str())
    }
}

impl TemplateDescription {
    /// The line that tells a reader of this template.
    pub fn describe(&self) -> (r: String)
        ensures
            r@ == deployment_line("template"@, shown(self.source@), shown(self.target.target@)),
    {
        let source = show_path(self.source.as_str());
        let target = show_path(self.target.target.as_str());
        deployment_text("template", source.as_str(), target.as_str())
    }

    /// `base` with the text to append after it and the text to prepend before
    /// it, each where the target names one.
    pub open spec fn decorated(&self, base: Seq<char>) -> Seq<char> {
        let tail = match self.target.append {
            Some(text) => base + text@,
            None => base,
        };
        match self.target.prepend {
            Some(text) => text@ + tail,
            None => tail,
        }
    }

    /// Attaches the target's text to rendered content, literally.
    pub fn apply_actions(&self, file: String) -> (r: String)
        ensures
            r@ == self.decorated(file@),
    {
        let mut file = file;
        match &self.target.append {
            Some(text) => {
                file.append(text.as_str());
            },
            None => {},
        }
        match &self.target.prepend {
            Some(text) => {
                file = text.clone().concat(file.as_str());
            },
            None => {},
        }
        file
    }
}

/// Two symbolic links with the same source and the same path pointed to are
/// equal and order alike, whoever owns them.
pub proof fn lemma_symlink_identity_ignores_owner(a: SymlinkDescription, b: SymlinkDescription)
    requires
        a.source@ == b.source@,
        a.target.target@ == b.target.target@,
    ensures
        a.key() == b.key(),
        vstd::std_specs::cmp::PartialEqSpec::eq_spec(&a, &b),
        vstd::std_specs::cmp::PartialOrdSpec::partial_cmp_spec(&a, &b) == Some(Ordering::Equal),
{
    lemma_key_lt_irreflexive(a.key());
}

/// Two templates with the same source and the same path written to are equal
/// and order alike, whoever owns them and whatever text is attached.
pub proof fn lemma_template_identity_ignores_decoration(
    a: TemplateDescription,
    b: TemplateDescription,
)
    requires
        a.source@ == b.source@,
        a.target.target@ == b.target.target@,
    ensures
        a.key() == b.key(),
        vstd::std_specs::cmp::PartialEqSpec::eq_spec(&a, &b),
        vstd::std_specs::cmp::PartialOrdSpec::partial_cmp_spec(&a, &b) == Some(Ordering::Equal),
{
    lemma_key_lt_irreflexive(a.key());
}

} // verus!
