//! Include/exclude rules read from the configuration, and the decision
//! whether a path below a root is indexed (files) or descended into (directories).

use vstd::prelude::*;
use crate::bytes::{
    bytes_eq, contains, contains_bytes, ends_with, has_prefix, has_suffix, starts_with,
    slice_to_vec,
};

verus! {

pub const BANG: u8 = 33;
pub const STAR: u8 = 42;
pub const SLASH: u8 = 47;
pub const BACKSLASH: u8 = 92;

/// One filter rule, as parsed from a line such as `!*.log` or `src/`.
pub struct Filter {
    /// What a matching path is decided to be: included (true) or excluded.
    pub should_include: bool,
    /// The relative path must begin with the pattern.
    pub should_start_with: bool,
    /// The relative path must end with the pattern.
    pub should_end_with: bool,
    /// The rule applies to directories only.
    pub only_dir: bool,
    pub pattern: Vec<u8>,
}

/// The mathematical content of a [`Filter`].
pub struct FilterRule {
    pub keep: bool,
    pub anchor_start: bool,
    pub anchor_end: bool,
    pub dir_only: bool,
    pub pattern: Seq<u8>,
}

impl View for Filter {
    type V = FilterRule;

    open spec fn view(&self) -> FilterRule {
        FilterRule {
            keep: self.should_include,
            anchor_start: self.should_start_with,
            anchor_end: self.should_end_with,
            dir_only: self.only_dir,
            pattern: self.pattern@,
        }
    }
}

/// Path separators written as `/`.
pub open spec fn normalize_separators(s: Seq<u8>) -> Seq<u8> {
    s.map_values(|c: u8| if c == BACKSLASH { SLASH } else { c })
}

/// The rule that a configuration line stands for: a leading `!` negates,
/// a leading `*` drops the start anchor, a trailing `*` drops the end anchor,
/// then a trailing `/` restricts the rule to directories.
pub open spec fn parsed_rule(line: Seq<u8>) -> FilterRule {
    let negated = line.len() > 0 && line[0] == BANG;
    let s1 = if negated { line.drop_first() } else { line };
    let open_start = s1.len() > 0 && s1[0] == STAR;
    let s2 = if open_start { s1.drop_first() } else { s1 };
    let open_end = s2.len() > 0 && s2.last() == STAR;
    let s3 = if open_end { s2.drop_last() } else { s2 };
    let dir = s3.len() > 0 && s3.last() == SLASH;
    let s4 = if dir { s3.drop_last() } else { s3 };
    FilterRule {
        keep: !negated,
        anchor_start: !open_start,
        anchor_end: !open_end,
        dir_only: dir,
        pattern: normalize_separators(s4),
    }
}

/// Whether one rule matches the relative path `rel`.
pub open spec fn rule_matches(f: FilterRule, rel: Seq<u8>, is_dir: bool) -> bool {
    if f.dir_only && !is_dir {
        false
    } else if f.anchor_start && f.anchor_end {
        rel == f.pattern
    } else if f.anchor_start {
        has_prefix(rel, f.pattern)
    } else if f.anchor_end {
        has_suffix(rel, f.pattern)
    } else {
        contains(rel, f.pattern)
    }
}

/// The decision of a rule list on a relative path: the last matching rule
/// decides; with no match, directories are kept and files are not.
pub open spec fn rules_decide(rules: Seq<FilterRule>, rel: Seq<u8>, is_dir: bool) -> bool
    decreases rules.len(),
{
    if rules.len() == 0 {
        is_dir
    } else if rule_matches(rules.last(), rel, is_dir) {
        rules.last().keep
    } else {
        rules_decide(rules.drop_last(), rel, is_dir)
    }
}

pub open spec fn rules_of(filters: Seq<Filter>) -> Seq<FilterRule> {
    filters.map_values(|f: Filter| f@)
}

/// `path` relative to `root`, when `path` lies at or below `root`
/// (compared by whole components, a trailing `/` of `root` ignored).
pub open spec fn relative_to(path: Seq<u8>, root: Seq<u8>) -> Option<Seq<u8>> {
    if path == root {
        Some(Seq::empty())
    } else if root.len() > 0 && root.last() == SLASH && has_prefix(path, root) {
        Some(path.skip(root.len() as int))
    } else if root.len() > 0 && root.last() == SLASH && path == root.drop_last() {
        Some(Seq::empty())
    } else if has_prefix(path, root.push(SLASH)) {
        Some(path.skip(root.len() as int + 1))
    } else {
        None
    }
}

/// The filter decision on `path` below `root`: outside `root` the answer
/// is `is_dir`; inside, the rules decide on the relative path.
pub open spec fn path_decision(
    rules: Seq<FilterRule>,
    path: Seq<u8>,
    root: Seq<u8>,
    is_dir: bool,
) -> bool {
    match relative_to(path, root) {
        None => is_dir,
        Some(rel) => rules_decide(rules, rel, is_dir),
    }
}

/// Computes `relative_to(path, root)`.
pub fn relative_path(path: &[u8], root: &[u8]) -> (r: Option<Vec<u8>>)
    ensures
        r matches Some(v) ==> relative_to(path@, root@) == Some(v@),
        r is None ==> relative_to(path@, root@) is None,
{
    if bytes_eq(path, root) {
        return Some(Vec::new());
    }
    let n = root.len();
    if n > 0 && root[n - 1] == SLASH {
        if starts_with(path, root) {
            let v = slice_to_vec(path, n, path.len());
            assert(v@ =~= path@.skip(n as int));
            return Some(v);
        }
        let trimmed = slice_to_vec(root, 0, n - 1);
        assert(trimmed@ =~= root@.drop_last());
        if bytes_eq(path, trimmed.as_slice()) {
            return Some(Vec::new());
        }
    }
    if path.len() > n && starts_with(path, root) && path[n] == SLASH {
        let v = slice_to_vec(path, n + 1, path.len());
        assert(v@ =~= path@.skip(n + 1));
        assert(path@.subrange(0, n + 1) =~= root@.push(SLASH)) by {
            assert(path@.subrange(0, n as int) == root@);
        }
        return Some(v);
    }
    proof {
        if has_prefix(path@, root@.push(SLASH)) {
            let pre = path@.subrange(0, n + 1);
            assert(pre == root@.push(SLASH));
            assert(path@.subrange(0, n as int) =~= pre.subrange(0, n as int));
            assert(pre.subrange(0, n as int) =~= root@);
            assert(path@[n as int] == pre[n as int]);
            assert(pre[n as int] == SLASH);
        }
    }
    None
}

/// Whether one rule matches `rel`.
pub fn filter_matches(f: &Filter, rel: &[u8], is_dir: bool) -> (r: bool)
    ensures
        r == rule_matches(f@, rel@, is_dir),
{
    let pattern = f.pattern.as_slice();
    if f.only_dir && !is_dir {
        false
    } else if f.should_start_with && f.should_end_with {
        bytes_eq(pattern, rel)
    } else if f.should_start_with {
        starts_with(rel, pattern)
    } else if f.should_end_with {
        ends_with(rel, pattern)
    } else {
        contains_bytes(rel, pattern)
    }
}

/// The decision of the rules on a path relative to the root.
pub fn filter_relative(filters: &Vec<Filter>, rel: &[u8], is_dir: bool) -> (r: bool)
    ensures
        r == rules_decide(rules_of(filters@), rel@, is_dir),
{
    let ghost rules = rules_of(filters@);
    let mut result = is_dir;
    let mut i: usize = 0;
    while i < filters.len()
        invariant
            i <= filters@.len(),
            rules == rules_of(filters@),
            result == rules_decide(rules.subrange(0, i as int), rel@, is_dir),
        decreases filters.len() - i,
    {
        let f = &filters[i];
        assert(rules.subrange(0, i + 1).drop_last() =~= rules.subrange(0, i as int));
        assert(rules.subrange(0, i + 1).last() == f@);
        if filter_matches(f, rel, is_dir) {
            result = f.should_include;
        }
        i = i + 1;
    }
    assert(rules.subrange(0, filters@.len() as int) =~= rules);
    result
}

/// Whether `path` is kept (`is_dir == false`: indexed; `is_dir == true`:
/// descended into) under the rules `filters` for the tree at `root`.
pub fn filter_path(filters: &Vec<Filter>, path: &[u8], root: &[u8], is_dir: bool) -> (r: bool)
    ensures
        r == path_decision(rules_of(filters@), path@, root@, is_dir),
{
    match relative_path(path, root) {
        None => is_dir,
        Some(rel) => filter_relative(filters, rel.as_slice(), is_dir),
    }
}

/// The filter decision is a function of the rules, the path, the root and
/// the directory flag: two rule lists with the same rules in the same order
/// decide every path alike.
pub proof fn lemma_filter_deterministic(
    a: Seq<Filter>,
    b: Seq<Filter>,
    path: Seq<u8>,
    root: Seq<u8>,
    is_dir: bool,
)
    requires
        rules_of(a) == rules_of(b),
    ensures
        path_decision(rules_of(a), path, root, is_dir) == path_decision(
            rules_of(b),
            path,
            root,
            is_dir,
        ),
{
}

/// Last match wins: when rule `j` matches the relative path and no later
/// rule does, the decision is rule `j`'s.
pub proof fn lemma_last_match_wins(rules: Seq<FilterRule>, rel: Seq<u8>, is_dir: bool, j: int)
    requires
        0 <= j < rules.len(),
        rule_matches(rules[j], rel, is_dir),
        forall|k: int| j < k < rules.len() ==> !rule_matches(#[trigger] rules[k], rel, is_dir),
    ensures
        rules_decide(rules, rel, is_dir) == rules[j].keep,
    decreases rules.len(),
{
    if j < rules.len() - 1 {
        assert(!rule_matches(rules[rules.len() - 1], rel, is_dir));
        let init = rules.drop_last();
        assert forall|k: int| j < k < init.len() implies !rule_matches(
            #[trigger] init[k],
            rel,
            is_dir,
        ) by {
            assert(init[k] == rules[k]);
        }
        lemma_last_match_wins(init, rel, is_dir, j);
    }
}

/// Last match wins for a path below the root: the filter decision on `path`
/// is that of the last rule that matches its relative path.
pub proof fn lemma_path_last_match_wins(
    filters: Seq<Filter>,
    path: Seq<u8>,
    root: Seq<u8>,
    is_dir: bool,
    j: int,
)
    requires
        0 <= j < filters.len(),
        relative_to(path, root) is Some,
        rule_matches(filters[j]@, relative_to(path, root)->0, is_dir),
        forall|k: int|
            j < k < filters.len() ==> !rule_matches(
                #[trigger] filters[k]@,
                relative_to(path, root)->0,
                is_dir,
            ),
    ensures
        path_decision(rules_of(filters), path, root, is_dir) == filters[j].should_include,
{
    let rules = rules_of(filters);
    let rel = relative_to(path, root)->0;
    assert forall|k: int| j < k < rules.len() implies !rule_matches(
        #[trigger] rules[k],
        rel,
        is_dir,
    ) by {
        assert(rules[k] == filters[k]@);
    }
    lemma_last_match_wins(rules, rel, is_dir, j);
}

/// Replaces each `\` by `/`.
pub fn normalized(s: &[u8]) -> (r: Vec<u8>)
    ensures
        r@ == normalize_separators(s@),
{
    let mut r: Vec<u8> = Vec::new();
    let mut i: usize = 0;
    while i < s.len()
        invariant
            i <= s@.len(),
            r@ == normalize_separators(s@.subrange(0, i as int)),
        decreases s.len() - i,
    {
        let c = if s[i] == BACKSLASH { SLASH } else { s[i] };
        r.push(c);
        assert(r@ =~= normalize_separators(s@.subrange(0, i + 1)));
        i = i + 1;
    }
    assert(s@.subrange(0, s@.len() as int) =~= s@);
    r
}

/// Parses one rule line and appends the rule to `filters`.
pub fn parse_filter(l: &[u8], filters: &mut Vec<Filter>)
    ensures
        final(filters)@.len() == old(filters)@.len() + 1,
        final(filters)@.drop_last() == old(filters)@,
        final(filters)@.last()@ == parsed_rule(l@),
{
    let mut lo: usize = 0;
    let mut hi: usize = l.len();
    let negated = hi > 0 && l[0] == BANG;
    if negated {
        lo = 1;
    }
    assert(l@.subrange(lo as int, hi as int) =~= if negated { l@.drop_first() } else { l@ });
    let open_start = lo < hi && l[lo] == STAR;
    if open_start {
        lo = lo + 1;
    }
    let open_end = lo < hi && l[hi - 1] == STAR;
    if open_end {
        hi = hi - 1;
    }
    let dir = lo < hi && l[hi - 1] == SLASH;
    if dir {
        hi = hi - 1;
    }
    proof {
        let s1 = if negated { l@.drop_first() } else { l@ };
        let s2 = if open_start { s1.drop_first() } else { s1 };
        let s3 = if open_end { s2.drop_last() } else { s2 };
        let s4 = if dir { s3.drop_last() } else { s3 };
        assert(s4 =~= l@.subrange(lo as int, hi as int));
    }
    let pattern = normalized(&l[lo..hi]);
    let f = Filter {
        should_include: !negated,
        should_start_with: !open_start,
        should_end_with: !open_end,
        only_dir: dir,
        pattern,
    };
    filters.push(f);
    assert(filters@.drop_last() =~= old(filters)@);
}

} // verus!
