//! The walk over an indexed tree: which directories are listed and which
//! files are handed to the loaders, by paths relative to the root.

use vstd::prelude::*;
use crate::bytes::append_bytes;
use crate::bytes::has_prefix;
use crate::filter::{
    filter_relative, path_decision, relative_to, rules_decide, rules_of, Filter, FilterRule, SLASH,
};

verus! {

/// The relative path of entry `name` of the directory at relative path `dir`.
pub open spec fn child_rel(dir: Seq<u8>, name: Seq<u8>) -> Seq<u8> {
    if dir.len() == 0 {
        name
    } else {
        dir + seq![SLASH] + name
    }
}

/// Every directory above `rel` (below the root) is one the rules descend into.
pub open spec fn ancestors_open(rules: Seq<FilterRule>, rel: Seq<u8>) -> bool {
    forall|i: int|
        0 <= i < rel.len() && rel[i] == SLASH ==> rules_decide(rules, #[trigger] rel.subrange(0, i), true)
}

/// A directory that the walk lists: the root, or one that the rules descend
/// into, below directories that they descend into.
pub open spec fn dir_reached(rules: Seq<FilterRule>, dir: Seq<u8>) -> bool {
    dir.len() == 0 || (ancestors_open(rules, dir) && rules_decide(rules, dir, true))
}

/// A file that the walk hands on: the rules keep it as a file, and descend
/// into every directory above it.
pub open spec fn walk_keeps(rules: Seq<FilterRule>, rel: Seq<u8>) -> bool {
    ancestors_open(rules, rel) && rules_decide(rules, rel, false)
}

pub open spec fn no_slash(name: Seq<u8>) -> bool {
    forall|i: int| 0 <= i < name.len() ==> name[i] != SLASH
}

/// A walk over a tree under fixed rules: the directory being listed and the
/// directories still to be listed.
pub struct Walk {
    filters: Vec<Filter>,
    pending: Vec<Vec<u8>>,
    current: Vec<u8>,
}

impl Walk {
    pub closed spec fn rules(&self) -> Seq<FilterRule> {
        rules_of(self.filters@)
    }

    pub closed spec fn pending(&self) -> Seq<Seq<u8>> {
        self.pending@.map_values(|d: Vec<u8>| d@)
    }

    pub closed spec fn current(&self) -> Seq<u8> {
        self.current@
    }

    /// Every directory listed or to be listed is one the walk may reach.
    pub open spec fn wf(&self) -> bool {
        &&& dir_reached(self.rules(), self.current())
        &&& forall|i: int|
            0 <= i < self.pending().len() ==> dir_reached(self.rules(), #[trigger] self.pending()[i])
    }

    /// A walk under `filters` that lists the root first.
    pub fn new(filters: Vec<Filter>) -> (r: Walk)
        ensures
            r.wf(),
            r.rules() == rules_of(filters@),
            r.pending() == seq![Seq::<u8>::empty()],
            r.current() == Seq::<u8>::empty(),
    {
        let r = Walk { filters, pending: vec![Vec::new()], current: Vec::new() };
        assert(r.pending() =~= seq![Seq::<u8>::empty()]);
        r
    }

    /// The rules of the walk.
    pub fn filters(&self) -> (r: &Vec<Filter>)
        ensures
            rules_of(r@) == self.rules(),
    {
        &self.filters
    }

    /// Ends the walk and hands its rules back.
    pub fn into_filters(self) -> (r: Vec<Filter>)
        ensures
            rules_of(r@) == self.rules(),
    {
        self.filters
    }

    /// Moves on to the next directory to list, and returns its path relative
    /// to the root; `None` when the walk is over.
    pub fn next_dir(&mut self) -> (r: Option<Vec<u8>>)
        requires
            old(self).wf(),
        ensures
            final(self).wf(),
            final(self).rules() == old(self).rules(),
            old(self).pending().len() == 0 ==> r is None && final(self).pending() == old(
                self,
            ).pending(),
            old(self).pending().len() > 0 ==> r is Some && r->0@ == old(self).pending().last()
                && final(self).current() == old(self).pending().last() && final(self).pending()
                == old(self).pending().drop_last(),
    {
        match self.pending.pop() {
            None => None,
            Some(d) => {
                assert(self.pending() =~= old(self).pending().drop_last());
                assert(d@ == old(self).pending()[old(self).pending().len() - 1]);
                let copy = d.clone();
                self.current = d;
                Some(copy)
            },
        }
    }

    /// Takes entry `name` of the directory being listed: a directory that
    /// the rules descend into is queued for listing; a file that the rules
    /// keep is returned by its path relative to the root.
    pub fn visit(&mut self, name: &[u8], is_dir: bool) -> (r: Option<Vec<u8>>)
        requires
            old(self).wf(),
            name@.len() > 0,
            no_slash(name@),
        ensures
            final(self).wf(),
            final(self).rules() == old(self).rules(),
            final(self).current() == old(self).current(),
            ({
                let child = child_rel(old(self).current(), name@);
                let rules = old(self).rules();
                &&& is_dir ==> r is None && final(self).pending() == if rules_decide(
                    rules,
                    child,
                    true,
                ) {
                    old(self).pending().push(child)
                } else {
                    old(self).pending()
                }
                &&& !is_dir ==> final(self).pending() == old(self).pending() && (r is Some
                    <==> rules_decide(rules, child, false))
                &&& r matches Some(f) ==> f@ == child && walk_keeps(rules, f@)
            }),
    {
        let ghost rules = self.rules();
        let ghost dir = self.current@;
        let mut child: Vec<u8> = Vec::new();
        append_bytes(&mut child, self.current.as_slice());
        if self.current.len() > 0 {
            child.push(SLASH);
        }
        append_bytes(&mut child, name);
        let ghost c = child@;
        assert(c =~= child_rel(dir, name@));
        proof {
            assert forall|i: int| 0 <= i < c.len() && c[i] == SLASH implies rules_decide(
                rules,
                #[trigger] c.subrange(0, i),
                true,
            ) by {
                if dir.len() == 0 {
                    assert(c[i] == name@[i]);
                } else if i < dir.len() {
                    assert(c[i] == dir[i]);
                    assert(c.subrange(0, i) =~= dir.subrange(0, i));
                } else if i == dir.len() {
                    assert(c.subrange(0, i) =~= dir);
                } else {
                    assert(c[i] == name@[i - dir.len() - 1]);
                }
            }
        }
        if is_dir {
            if filter_relative(&self.filters, child.as_slice(), true) {
                self.pending.push(child);
                assert(self.pending() =~= old(self).pending().push(c));
            }
            None
        } else if filter_relative(&self.filters, child.as_slice(), false) {
            Some(child)
        } else {
            None
        }
    }
}

/// The absolute path of `rel` below `root`.
pub open spec fn under_root(root: Seq<u8>, rel: Seq<u8>) -> Seq<u8> {
    if root.len() > 0 && root.last() == SLASH {
        root + rel
    } else {
        root + seq![SLASH] + rel
    }
}

/// Computes `under_root(root, rel)`.
pub fn root_join(root: &[u8], rel: &[u8]) -> (r: Vec<u8>)
    ensures
        r@ == under_root(root@, rel@),
{
    let mut r: Vec<u8> = Vec::new();
    append_bytes(&mut r, root);
    if !(root.len() > 0 && root[root.len() - 1] == SLASH) {
        r.push(SLASH);
    }
    append_bytes(&mut r, rel);
    assert(r@ =~= under_root(root@, rel@));
    r
}

/// A file that the walk hands on is kept by the filter that the index
/// applies to its absolute path: walking and indexing agree.
pub proof fn lemma_walk_agrees_with_index(rules: Seq<FilterRule>, root: Seq<u8>, rel: Seq<u8>)
    requires
        rel.len() > 0,
        walk_keeps(rules, rel),
    ensures
        relative_to(under_root(root, rel), root) == Some(rel),
        path_decision(rules, under_root(root, rel), root, false),
{
    let p = under_root(root, rel);
    assert(p != root) by {
        assert(p.len() > root.len());
    }
    if root.len() > 0 && root.last() == SLASH {
        assert(p.subrange(0, root.len() as int) =~= root);
        assert(has_prefix(p, root));
        assert(p.skip(root.len() as int) =~= rel);
    } else {
        assert(p.subrange(0, root.len() as int + 1) =~= root.push(SLASH));
        assert(has_prefix(p, root.push(SLASH)));
        assert(p.skip(root.len() as int + 1) =~= rel);
    }
}

} // verus!
