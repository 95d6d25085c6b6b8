//! The desired and the existing deployments side by side, and the three
//! classes that reconciling them gives.

use vstd::prelude::*;
use crate::paths::joined;
use crate::paths::join_path;
use crate::targets::SymbolicTarget;
use crate::targets::TemplateTarget;
use crate::descriptions::SymlinkDescription;
use crate::descriptions::TemplateDescription;
use crate::ordered::strictly_sorted;
use crate::ordered::is_ordered_set_of;
use crate::ordered::difference_of;
use crate::ordered::intersection_of;
use crate::ordered::insert_ordered;
use crate::ordered::difference;
use crate::ordered::intersection;
use crate::ordered::lemma_ordered_set_grows;

verus! {

/// The description of the symbolic link that one entry of a mapping asks for.
pub open spec fn symlink_of(item: (String, SymbolicTarget)) -> SymlinkDescription {
    SymlinkDescription { source: item.0, target: item.1 }
}

/// The descriptions of a mapping's symbolic links, entry by entry.
pub open spec fn symlinks_of(items: Seq<(String, SymbolicTarget)>) -> Seq<SymlinkDescription> {
    items.map_values(|item: (String, SymbolicTarget)| symlink_of(item))
}

/// `d` describes the template that `item` asks for: its cache path is
/// `source` joined onto the cache root.
pub open spec fn is_template_of(
    d: TemplateDescription,
    item: (String, TemplateTarget),
    cache_root: Seq<char>,
) -> bool {
    &&& d.source == item.0
    &&& d.target == item.1
    &&& d.cache@ == joined(cache_root, item.0@)
}

/// `set` is the ordered set of the templates that `items` asks for.
pub open spec fn is_template_set_of(
    set: Seq<TemplateDescription>,
    items: Seq<(String, TemplateTarget)>,
    cache_root: Seq<char>,
) -> bool {
    exists|built: Seq<TemplateDescription>|
        {
            &&& built.len() == items.len()
            &&& forall|i: int|
                0 <= i < built.len() ==> is_template_of(#[trigger] built[i], items[i], cache_root)
            &&& #[trigger] is_ordered_set_of(set, built)
        }
}

/// A deployed symbolic link as it is found: nothing is known of its owner.
pub open spec fn found_symlink(item: (String, String)) -> (String, SymbolicTarget) {
    (item.0, SymbolicTarget { target: item.1, owner: None })
}

/// A deployed template as it is found: nothing is known of its owner or of
/// text attached to it.
pub open spec fn found_template(item: (String, String)) -> (String, TemplateTarget) {
    (item.0, TemplateTarget { target: item.1, owner: None, append: None, prepend: None })
}

/// The desired and the existing deployments, each kind as an ordered set.
#[derive(Debug)]
pub struct FileState {
    desired_symlinks: Vec<SymlinkDescription>,
    desired_templates: Vec<TemplateDescription>,
    existing_symlinks: Vec<SymlinkDescription>,
    existing_templates: Vec<TemplateDescription>,
}

/// The symbolic links that exist, each as the entry of a mapping that would
/// ask for it.
fn found_symlinks(existing: &Vec<(String, String)>) -> (r: Vec<(String, SymbolicTarget)>)
    ensures
        r@ == existing@.map_values(|item: (String, String)| found_symlink(item)),
{
    let mut out: Vec<(String, SymbolicTarget)> = Vec::new();
    let mut i: usize = 0;
    while i < existing.len()
        invariant
            i <= existing.len(),
            out@ == existing@.take(i as int).map_values(
                |item: (String, String)| found_symlink(item),
            ),
        decreases existing.len() - i,
    {
        out.push(
            (existing[i].0.clone(), SymbolicTarget { target: existing[i].1.clone(), owner: None }),
        );
        proof {
            assert(out@ =~= existing@.take(i + 1).map_values(
                |item: (String, String)| found_symlink(item),
            ));
        }
        i += 1;
    }
    proof {
        assert(existing@.take(existing.len() as int) =~= existing@);
    }
    out
}

/// The templates that exist, each as the entry of a mapping that would ask
/// for it.
fn found_templates(existing: &Vec<(String, String)>) -> (r: Vec<(String, TemplateTarget)>)
    ensures
        r@ == existing@.map_values(|item: (String, String)| found_template(item)),
{
    let mut out: Vec<(String, TemplateTarget)> = Vec::new();
    let mut i: usize = 0;
    while i < existing.len()
        invariant
            i <= existing.len(),
            out@ == existing@.take(i as int).map_values(
                |item: (String, String)| found_template(item),
            ),
        decreases existing.len() - i,
    {
        out.push(
            (
                existing[i].0.clone(),
                TemplateTarget {
                    target: existing[i].1.clone(),
                    owner: None,
                    append: None,
                    prepend: None,
                },
            ),
        );
        proof {
            assert(out@ =~= existing@.take(i + 1).map_values(
                |item: (String, String)| found_template(item),
            ));
        }
        i += 1;
    }
    proof {
        assert(existing@.take(existing.len() as int) =~= existing@);
    }
    out
}

impl FileState {
    /// Each of the four sets is in strictly increasing order of identity.
    #[verifier::type_invariant]
    spec fn well_formed(&self) -> bool {
        &&& strictly_sorted(self.desired_symlinks@)
        &&& strictly_sorted(self.desired_templates@)
        &&& strictly_sorted(self.existing_symlinks@)
        &&& strictly_sorted(self.existing_templates@)
    }

    /// The symbolic links that are desired, in order.
    pub closed spec fn desired_symlinks(&self) -> Seq<SymlinkDescription> {
        self.desired_symlinks@
    }

    /// The templates that are desired, in order.
    pub closed spec fn desired_templates(&self) -> Seq<TemplateDescription> {
        self.desired_templates@
    }

    /// The symbolic links that exist, in order.
    pub closed spec fn existing_symlinks(&self) -> Seq<SymlinkDescription> {
        self.existing_symlinks@
    }

    /// The templates that exist, in order.
    pub closed spec fn existing_templates(&self) -> Seq<TemplateDescription> {
        self.existing_templates@
    }

    /// The ordered set of the symbolic links that are desired.
    pub fn desired_symlink_set(&self) -> (r: &Vec<SymlinkDescription>)
        ensures
            r@ == self.desired_symlinks(),
            strictly_sorted(r@),
    {
        proof {
            use_type_invariant(self);
        }
        &self.desired_symlinks
    }

    /// The ordered set of the templates that are desired.
    pub fn desired_template_set(&self) -> (r: &Vec<TemplateDescription>)
        ensures
            r@ == self.desired_templates(),
            strictly_sorted(r@),
    {
        proof {
            use_type_invariant(self);
        }
        &self.desired_templates
    }

    /// The ordered set of the symbolic links that exist.
    pub fn existing_symlink_set(&self) -> (r: &Vec<SymlinkDescription>)
        ensures
            r@ == self.existing_symlinks(),
            strictly_sorted(r@),
    {
        proof {
            use_type_invariant(self);
        }
        &self.existing_symlinks
    }

    /// The ordered set of the templates that exist.
    pub fn existing_template_set(&self) -> (r: &Vec<TemplateDescription>)
        ensures
            r@ == self.existing_templates(),
            strictly_sorted(r@),
    {
        proof {
            use_type_invariant(self);
        }
        &self.existing_templates
    }

    /// The state of one reconciliation: what the four mappings hold, each as
    /// an ordered set. Of deployments that exist only the paths are known.
    pub fn new(
        desired_symlinks: Vec<(String, SymbolicTarget)>,
        desired_templates: Vec<(String, TemplateTarget)>,
        existing_symlinks: Vec<(String, String)>,
        existing_templates: Vec<(String, String)>,
        cache_dir: String,
    ) -> (state: FileState)
        ensures
            is_ordered_set_of(state.desired_symlinks(), symlinks_of(desired_symlinks@)),
            is_template_set_of(state.desired_templates(), desired_templates@, cache_dir@),
            is_ordered_set_of(
                state.existing_symlinks(),
                symlinks_of(
                    existing_symlinks@.map_values(|item: (String, String)| found_symlink(item)),
                ),
            ),
            is_template_set_of(
                state.existing_templates(),
                existing_templates@.map_values(|item: (String, String)| found_template(item)),
                cache_dir@,
            ),
    {
        let found_links = found_symlinks(&existing_symlinks);
        let found = found_templates(&existing_templates);
        FileState {
            desired_symlinks: Self::symlinks_to_set(desired_symlinks),
            desired_templates: Self::templates_to_set(desired_templates, cache_dir.as_str()),
            existing_symlinks: Self::symlinks_to_set(found_links),
            existing_templates: Self::templates_to_set(found, cache_dir.as_str()),
        }
    }

    /// The ordered set of the symbolic links that a mapping asks for.
    pub fn symlinks_to_set(symlinks: Vec<(String, SymbolicTarget)>) -> (set: Vec<
        SymlinkDescription,
    >)
        ensures
            is_ordered_set_of(set@, symlinks_of(symlinks@)),
    {
        let mut set: Vec<SymlinkDescription> = Vec::new();
        let ghost items = symlinks_of(symlinks@);
        let mut i: usize = 0;
        proof {
            assert(items.take(0) =~= Seq::<SymlinkDescription>::empty());
        }
        while i < symlinks.len()
            invariant
                i <= symlinks.len(),
                items == symlinks_of(symlinks@),
                is_ordered_set_of(set@, items.take(i as int)),
            decreases symlinks.len() - i,
        {
            let d = SymlinkDescription {
                source: symlinks[i].0.clone(),
                target: symlinks[i].1.clone(),
            };
            let ghost before = set@;
            let ghost added = d;
            insert_ordered(&mut set, d);
            proof {
                assert(added == items[i as int]);
                lemma_ordered_set_grows(before, set@, items.take(i as int), added);
                assert(items.take(i + 1) =~= items.take(i as int).push(added));
            }
            i += 1;
        }
        proof {
            assert(items.take(symlinks.len() as int) =~= items);
        }
        set
    }

    /// The ordered set of the templates that a mapping asks for, each with its
    /// cache path under `cache_dir`.
    fn templates_to_set(templates: Vec<(String, TemplateTarget)>, cache_dir: &str) -> (set: Vec<
        TemplateDescription,
    >)
        ensures
            is_template_set_of(set@, templates@, cache_dir@),
    {
        let mut set: Vec<TemplateDescription> = Vec::new();
        let ghost mut built: Seq<TemplateDescription> = Seq::empty();
        let mut i: usize = 0;
        while i < templates.len()
            invariant
                i <= templates.len(),
                built.len() == i,
                forall|k: int|
                    0 <= k < i ==> is_template_of(#[trigger] built[k], templates@[k], cache_dir@),
                is_ordered_set_of(set@, built),
            decreases templates.len() - i,
        {
            let d = TemplateDescription {
                source: templates[i].0.clone(),
                target: templates[i].1.clone(),
                cache: join_path(cache_dir, templates[i].0.as_str()),
            };
            let ghost before = set@;
            let ghost added = d;
            insert_ordered(&mut set, d);
            proof {
                lemma_ordered_set_grows(before, set@, built, added);
                built = built.push(added);
            }
            i += 1;
        }
        set
    }

    /// What exists and is no longer desired: to be removed.
    pub fn deleted_files(&self) -> (r: (Vec<SymlinkDescription>, Vec<TemplateDescription>))
        ensures
            r.0@ == difference_of(self.existing_symlinks(), self.desired_symlinks()),
            r.1@ == difference_of(self.existing_templates(), self.desired_templates()),
            strictly_sorted(r.0@),
            strictly_sorted(r.1@),
    {
        proof {
            use_type_invariant(self);
        }
        (
            difference(&self.existing_symlinks, &self.desired_symlinks),
            difference(&self.existing_templates, &self.desired_templates),
        )
    }

    /// What is desired and does not exist yet: to be created.
    pub fn new_files(&self) -> (r: (Vec<SymlinkDescription>, Vec<TemplateDescription>))
        ensures
            r.0@ == difference_of(self.desired_symlinks(), self.existing_symlinks()),
            r.1@ == difference_of(self.desired_templates(), self.existing_templates()),
            strictly_sorted(r.0@),
            strictly_sorted(r.1@),
    {
        proof {
            use_type_invariant(self);
        }
        (
            difference(&self.desired_symlinks, &self.existing_symlinks),
            difference(&self.desired_templates, &self.existing_templates),
        )
    }

    /// What is desired and exists already: to be left in place.
    pub fn old_files(&self) -> (r: (Vec<SymlinkDescription>, Vec<TemplateDescription>))
        ensures
            r.0@ == intersection_of(self.desired_symlinks(), self.existing_symlinks()),
            r.1@ == intersection_of(self.desired_templates(), self.existing_templates()),
            strictly_sorted(r.0@),
            strictly_sorted(r.1@),
    {
        proof {
            use_type_invariant(self);
        }
        (
            intersection(&self.desired_symlinks, &self.existing_symlinks),
            intersection(&self.desired_templates, &self.existing_templates),
        )
    }
}

/// What is old depends on the state alone: two answers to the same question
/// are the same sequences, in order and in contents.
pub proof fn lemma_old_files_repeat(
    state: &FileState,
    first: (Seq<SymlinkDescription>, Seq<TemplateDescription>),
    second: (Seq<SymlinkDescription>, Seq<TemplateDescription>),
)
    requires
        first.0 == intersection_of(state.desired_symlinks(), state.existing_symlinks()),
        first.1 == intersection_of(state.desired_templates(), state.existing_templates()),
        second.0 == intersection_of(state.desired_symlinks(), state.existing_symlinks()),
        second.1 == intersection_of(state.desired_templates(), state.existing_templates()),
    ensures
        first == second,
{
}

} // verus!
