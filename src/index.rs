//! The in-memory index: absolute path to file contents, its maintenance by
//! file-system events, and the substring search over it.

use vstd::prelude::*;
use crate::bytes::{append_bytes, bytes_eq, contains, contains_bytes, matches_at, occurs_at, slice_to_vec};
use crate::filter::{filter_path, path_decision, rules_of, Filter, FilterRule};
use crate::text::{
    decimal, decimal_of, lemma_split_step, line_end, next_start, split_lines, strip_cr,
    CARRIAGE_RETURN,
};

verus! {

pub const COLON: u8 = 58;
pub const SPACE: u8 = 32;

/// One indexed file.
pub struct Entry {
    pub path: Vec<u8>,
    pub contents: Vec<u8>,
}

impl View for Entry {
    type V = (Seq<u8>, Seq<u8>);

    open spec fn view(&self) -> (Seq<u8>, Seq<u8>) {
        (self.path@, self.contents@)
    }
}

/// The files of one indexed tree, each path at most once.
pub struct Index {
    root: Vec<u8>,
    entries: Vec<Entry>,
}

/// The entries of an index, path and contents, in storage order.
pub type Entries = Seq<(Seq<u8>, Seq<u8>)>;

pub open spec fn entries_of(v: Seq<Entry>) -> Entries {
    v.map_values(|e: Entry| e@)
}

/// No path occurs twice.
pub open spec fn unique_paths(s: Entries) -> bool {
    forall|i: int, j: int| 0 <= i < j < s.len() ==> s[i].0 != s[j].0
}

pub open spec fn has_path(s: Entries, k: Seq<u8>) -> bool {
    exists|i: int| 0 <= i < s.len() && s[i].0 == k
}

/// The position of path `k` (meaningful when `has_path(s, k)`).
pub open spec fn path_pos(s: Entries, k: Seq<u8>) -> int {
    choose|i: int| 0 <= i < s.len() && s[i].0 == k
}

/// `s` with the contents of `k` set to `v`: in place when `k` is present,
/// appended otherwise.
pub open spec fn upsert(s: Entries, k: Seq<u8>, v: Seq<u8>) -> Entries {
    if has_path(s, k) {
        s.update(path_pos(s, k), (k, v))
    } else {
        s.push((k, v))
    }
}

/// `s` without path `k`, the order of the others kept.
pub open spec fn delete(s: Entries, k: Seq<u8>) -> Entries {
    if has_path(s, k) {
        s.remove(path_pos(s, k))
    } else {
        s
    }
}

/// The paths of `s`.
pub open spec fn paths(s: Entries) -> Set<Seq<u8>> {
    Set::new(|k: Seq<u8>| has_path(s, k))
}

impl View for Index {
    type V = Entries;

    closed spec fn view(&self) -> Entries {
        entries_of(self.entries@)
    }
}

impl Index {
    pub closed spec fn root_spec(&self) -> Seq<u8> {
        self.root@
    }

    pub open spec fn wf(&self) -> bool {
        unique_paths(self@)
    }

    /// An empty index of the tree at `root`.
    pub fn new(root: Vec<u8>) -> (r: Index)
        ensures
            r.wf(),
            r@ == Seq::<(Seq<u8>, Seq<u8>)>::empty(),
            r.root_spec() == root@,
    {
        let r = Index { root, entries: Vec::new() };
        assert(r@ =~= Seq::<(Seq<u8>, Seq<u8>)>::empty());
        r
    }

    /// The root of the indexed tree.
    pub fn root(&self) -> (r: &Vec<u8>)
        ensures
            r@ == self.root_spec(),
    {
        &self.root
    }

    /// The number of indexed files.
    pub fn len(&self) -> (r: usize)
        ensures
            r == self@.len(),
    {
        self.entries.len()
    }

    /// Where path `k` is stored, if it is.
    pub fn position(&self, k: &[u8]) -> (r: Option<usize>)
        requires
            self.wf(),
        ensures
            r is Some <==> has_path(self@, k@),
            r matches Some(i) ==> i == path_pos(self@, k@) && i < self@.len() && self@[i as int].0
                == k@,
    {
        let mut i: usize = 0;
        while i < self.entries.len()
            invariant
                i <= self@.len(),
                self@ == entries_of(self.entries@),
                self.wf(),
                forall|m: int| 0 <= m < i ==> self@[m].0 != k@,
            decreases self.entries.len() - i,
        {
            if bytes_eq(self.entries[i].path.as_slice(), k) {
                assert(self@[i as int].0 == k@);
                proof {
                    let p = path_pos(self@, k@);
                    assert(0 <= p < self@.len() && self@[p].0 == k@);
                    if p > i {
                        assert(self@[i as int].0 != self@[p].0);
                    }
                }
                return Some(i);
            }
            i = i + 1;
        }
        None
    }

    /// The contents stored for path `k`.
    pub fn get(&self, k: &[u8]) -> (r: Option<&Vec<u8>>)
        requires
            self.wf(),
        ensures
            r is Some <==> has_path(self@, k@),
            r matches Some(c) ==> c@ == self@[path_pos(self@, k@)].1,
    {
        match self.position(k) {
            None => None,
            Some(i) => Some(&self.entries[i].contents),
        }
    }

    /// Sets the contents of `path`, adding the path when it is new.
    pub fn insert(&mut self, path: Vec<u8>, contents: Vec<u8>)
        requires
            old(self).wf(),
        ensures
            final(self).wf(),
            final(self)@ == upsert(old(self)@, path@, contents@),
            final(self).root_spec() == old(self).root_spec(),
    {
        let ghost s = self@;
        let ghost k = path@;
        let ghost v = contents@;
        match self.position(path.as_slice()) {
            Some(i) => {
                self.entries.set(i, Entry { path, contents });
                assert(self@ =~= s.update(i as int, (k, v)));
            },
            None => {
                self.entries.push(Entry { path, contents });
                assert(self@ =~= s.push((k, v)));
            },
        }
    }

    /// Removes `path` if it is indexed.
    pub fn remove(&mut self, path: &[u8])
        requires
            old(self).wf(),
        ensures
            final(self).wf(),
            final(self)@ == delete(old(self)@, path@),
            final(self).root_spec() == old(self).root_spec(),
    {
        let ghost s = self@;
        match self.position(path) {
            Some(i) => {
                self.entries.remove(i);
                assert(self@ =~= s.remove(i as int));
            },
            None => {},
        }
    }

    /// The indexed paths, one per file, in storage order.
    pub fn list_files(&self) -> (r: Vec<Vec<u8>>)
        ensures
            r@.len() == self@.len(),
            forall|i: int| 0 <= i < r@.len() ==> #[trigger] r@[i]@ == self@[i].0,
    {
        let mut r: Vec<Vec<u8>> = Vec::new();
        let mut i: usize = 0;
        while i < self.entries.len()
            invariant
                i <= self@.len(),
                self@ == entries_of(self.entries@),
                r@.len() == i,
                forall|m: int| 0 <= m < i ==> #[trigger] r@[m]@ == self@[m].0,
            decreases self.entries.len() - i,
        {
            r.push(self.entries[i].path.clone());
            i = i + 1;
        }
        r
    }
}

/// What happened to the paths of a file-system event.
#[derive(Clone, Copy, PartialEq, Eq, Structural)]
pub enum EventKind {
    Create,
    Modify,
    Remove,
    Other,
}

/// A path named by an event, with its contents when, at handling time, it is
/// a regular file readable as text.
pub struct Observed {
    pub path: Vec<u8>,
    pub contents: Option<Vec<u8>>,
}

pub open spec fn opt_view(o: Option<Vec<u8>>) -> Option<Seq<u8>> {
    match o {
        Some(c) => Some(c@),
        None => None,
    }
}

impl View for Observed {
    type V = (Seq<u8>, Option<Seq<u8>>);

    open spec fn view(&self) -> (Seq<u8>, Option<Seq<u8>>) {
        (self.path@, opt_view(self.contents))
    }
}

/// A file-system event: its kind and the paths it names.
pub struct Event {
    pub kind: EventKind,
    pub paths: Vec<Observed>,
}

pub open spec fn observed_of(v: Seq<Observed>) -> Seq<(Seq<u8>, Option<Seq<u8>>)> {
    v.map_values(|o: Observed| o@)
}

/// The effect of one event path on the entries: a created or modified file
/// that the rules keep is (re)loaded; a removed path that the rules keep is
/// dropped; anything else changes nothing.
pub open spec fn apply_path(
    s: Entries,
    kind: EventKind,
    o: (Seq<u8>, Option<Seq<u8>>),
    rules: Seq<FilterRule>,
    root: Seq<u8>,
) -> Entries {
    let kept = path_decision(rules, o.0, root, false);
    match kind {
        EventKind::Create | EventKind::Modify => if kept && o.1 is Some {
            upsert(s, o.0, o.1->0)
        } else {
            s
        },
        EventKind::Remove => if kept {
            delete(s, o.0)
        } else {
            s
        },
        EventKind::Other => s,
    }
}

/// The effect of an event: its paths applied in order.
pub open spec fn apply_event(
    s: Entries,
    kind: EventKind,
    obs: Seq<(Seq<u8>, Option<Seq<u8>>)>,
    rules: Seq<FilterRule>,
    root: Seq<u8>,
) -> Entries
    decreases obs.len(),
{
    if obs.len() == 0 {
        s
    } else {
        apply_path(apply_event(s, kind, obs.drop_last(), rules, root), kind, obs.last(), rules, root)
    }
}

impl Index {
    /// Brings the index up to date with one file-system event.
    pub fn handle_event(&mut self, event: &Event, filters: &Vec<Filter>)
        requires
            old(self).wf(),
        ensures
            final(self).wf(),
            final(self).root_spec() == old(self).root_spec(),
            final(self)@ == apply_event(
                old(self)@,
                event.kind,
                observed_of(event.paths@),
                rules_of(filters@),
                old(self).root_spec(),
            ),
    {
        let ghost obs = observed_of(event.paths@);
        let ghost rules = rules_of(filters@);
        let ghost root = self.root_spec();
        let ghost s0 = self@;
        let mut i: usize = 0;
        while i < event.paths.len()
            invariant
                i <= event.paths@.len(),
                self.wf(),
                self.root_spec() == root,
                obs == observed_of(event.paths@),
                rules == rules_of(filters@),
                self@ == apply_event(s0, event.kind, obs.subrange(0, i as int), rules, root),
            decreases event.paths.len() - i,
        {
            let o = &event.paths[i];
            assert(obs.subrange(0, i + 1).drop_last() =~= obs.subrange(0, i as int));
            assert(obs.subrange(0, i + 1).last() == o@);
            let kept = filter_path(filters, o.path.as_slice(), self.root.as_slice(), false);
            match event.kind {
                EventKind::Create | EventKind::Modify => {
                    if kept {
                        match &o.contents {
                            Some(c) => self.insert(o.path.clone(), c.clone()),
                            None => {},
                        }
                    }
                },
                EventKind::Remove => {
                    if kept {
                        self.remove(o.path.as_slice());
                    }
                },
                EventKind::Other => {},
            }
            i = i + 1;
        }
        assert(obs.subrange(0, obs.len() as int) =~= obs);
    }
}

pub open spec fn is_alnum(c: u8) -> bool {
    (48 <= c <= 57) || (65 <= c <= 90) || (97 <= c <= 122)
}

/// The occurrence of length `n` at `i` in `line` has no alphanumeric byte
/// right before or right after it (a missing neighbour counts as a boundary).
pub open spec fn bounded_at(line: Seq<u8>, i: int, n: int) -> bool {
    (i == 0 || !is_alnum(line[i - 1])) && (i + n >= line.len() || !is_alnum(line[i + n]))
}

/// Whether a line is reported for `term`: it contains the term, and in word
/// mode some occurrence of it is bounded on both sides.
pub open spec fn line_hit(line: Seq<u8>, term: Seq<u8>, word: bool) -> bool {
    if word {
        exists|i: int| occurs_at(term, line, i) && bounded_at(line, i, term.len() as int)
    } else {
        contains(line, term)
    }
}

/// The reported form of a hit: `{path}:{line_no}: {line}`.
pub open spec fn result_line(path: Seq<u8>, no: nat, line: Seq<u8>) -> Seq<u8> {
    path + seq![COLON] + decimal(no) + seq![COLON, SPACE] + line
}

/// The hits among `lines`, the first of which has number `first`.
pub open spec fn line_results(
    path: Seq<u8>,
    lines: Seq<Seq<u8>>,
    first: nat,
    term: Seq<u8>,
    word: bool,
) -> Seq<Seq<u8>>
    decreases lines.len(),
{
    if lines.len() == 0 {
        Seq::empty()
    } else {
        let rest = line_results(path, lines.drop_first(), first + 1, term, word);
        if line_hit(lines[0], term, word) {
            seq![result_line(path, first, lines[0])] + rest
        } else {
            rest
        }
    }
}

/// The hits in one file, lines numbered from 1.
pub open spec fn file_results(path: Seq<u8>, contents: Seq<u8>, term: Seq<u8>, word: bool) -> Seq<
    Seq<u8>,
> {
    line_results(path, split_lines(contents), 1, term, word)
}

/// The hits in all entries, in storage order.
pub open spec fn find_results(s: Entries, term: Seq<u8>, word: bool) -> Seq<Seq<u8>>
    decreases s.len(),
{
    if s.len() == 0 {
        Seq::empty()
    } else {
        find_results(s.drop_last(), term, word) + file_results(s.last().0, s.last().1, term, word)
    }
}

pub fn is_ascii_alnum(c: u8) -> (r: bool)
    ensures
        r == is_alnum(c),
{
    (48 <= c && c <= 57) || (65 <= c && c <= 90) || (97 <= c && c <= 122)
}

/// Whether `line` is reported for `term`.
pub fn line_matches(line: &[u8], term: &[u8], word: bool) -> (r: bool)
    ensures
        r == line_hit(line@, term@, word),
{
    if !word {
        return contains_bytes(line, term);
    }
    if term.len() > line.len() {
        return false;
    }
    let n = term.len();
    let last: usize = line.len() - n;
    let mut i: usize = 0;
    loop
        invariant
            n == term@.len(),
            last == line@.len() - n,
            i <= last,
            forall|k: int|
                0 <= k < i ==> !(occurs_at(term@, line@, k) && bounded_at(line@, k, n as int)),
        ensures
            forall|k: int|
                0 <= k <= last ==> !(occurs_at(term@, line@, k) && bounded_at(
                    line@,
                    k,
                    n as int,
                )),
        decreases last - i,
    {
        if matches_at(line, term, i) {
            let left_ok = i == 0 || !is_ascii_alnum(line[i - 1]);
            let right_ok = i + n >= line.len() || !is_ascii_alnum(line[i + n]);
            if left_ok && right_ok {
                assert(occurs_at(term@, line@, i as int) && bounded_at(line@, i as int, n as int));
                return true;
            }
        }
        if i == last {
            break;
        }
        i = i + 1;
    }
    assert forall|k: int| !(occurs_at(term@, line@, k) && bounded_at(line@, k, n as int)) by {
        if occurs_at(term@, line@, k) {
            assert(k <= last);
        }
    }
    false
}

/// Appends to `out` the hits in the file `path` with `contents`.
pub fn file_matches(
    path: &[u8],
    contents: &[u8],
    term: &[u8],
    word: bool,
    out: &mut Vec<Vec<u8>>,
)
    ensures
        final(out)@.map_values(|v: Vec<u8>| v@) == old(out)@.map_values(|v: Vec<u8>| v@)
            + file_results(path@, contents@, term@, word),
{
    let ghost all = file_results(path@, contents@, term@, word);
    let mut pos: usize = 0;
    let mut no: usize = 1;
    assert(contents@.skip(0) =~= contents@);
    while pos < contents.len()
        invariant
            pos <= contents@.len(),
            no <= pos + 1,
            all == file_results(path@, contents@, term@, word),
            out@.map_values(|v: Vec<u8>| v@) + line_results(
                path@,
                split_lines(contents@.skip(pos as int)),
                no as nat,
                term@,
                word,
            ) == old(out)@.map_values(|v: Vec<u8>| v@) + all,
        decreases contents.len() - pos,
    {
        let j = line_end(contents, pos);
        proof {
            lemma_split_step(contents@, pos as int, j as int);
        }
        let mut hi = j;
        if hi > pos && contents[hi - 1] == CARRIAGE_RETURN {
            hi = hi - 1;
        }
        let line = slice_to_vec(contents, pos, hi);
        assert(line@ == strip_cr(contents@.subrange(pos as int, j as int))) by {
            if j > pos && contents@[j - 1] == CARRIAGE_RETURN {
                assert(line@ =~= contents@.subrange(pos as int, j as int).drop_last());
            }
        }
        let ghost lines = split_lines(contents@.skip(pos as int));
        let ghost prev = out@.map_values(|v: Vec<u8>| v@);
        assert(lines.drop_first() =~= split_lines(contents@.skip(next_start(contents@, j as int))));
        if line_matches(line.as_slice(), term, word) {
            let mut r: Vec<u8> = Vec::new();
            append_bytes(&mut r, path);
            r.push(COLON);
            let digits = decimal_of(no as u64);
            append_bytes(&mut r, digits.as_slice());
            r.push(COLON);
            r.push(SPACE);
            append_bytes(&mut r, line.as_slice());
            assert(r@ =~= result_line(path@, no as nat, line@));
            out.push(r);
            assert(out@.map_values(|v: Vec<u8>| v@) =~= prev.push(result_line(path@, no as nat, line@)));
        }
        pos = if j < contents.len() { j + 1 } else { j };
        if pos < contents.len() {
            no = no + 1;
        } else {
            assert(contents@.skip(pos as int) =~= Seq::<u8>::empty());
            assert(line_results(path@, lines.drop_first(), (no + 1) as nat, term@, word) =~= Seq::<Seq<u8>>::empty());
        }
    }
    assert(contents@.skip(pos as int) =~= Seq::<u8>::empty());
    assert(out@.map_values(|v: Vec<u8>| v@) + Seq::<Seq<u8>>::empty() =~= out@.map_values(|v: Vec<u8>| v@));
}

/// Files read by the bulk load, as event paths whose contents are known.
pub open spec fn loaded_of(v: Seq<Entry>) -> Seq<(Seq<u8>, Option<Seq<u8>>)> {
    v.map_values(|e: Entry| (e.path@, Some(e.contents@)))
}

impl Index {
    /// The result lines for `term`: for each file in storage order, each line
    /// that contains `term` (in word mode: with an occurrence bounded by
    /// non-alphanumeric bytes), as `{path}:{line_no}: {line}`.
    pub fn find(&self, term: &[u8], word: bool) -> (r: Vec<Vec<u8>>)
        ensures
            r@.map_values(|v: Vec<u8>| v@) == find_results(self@, term@, word),
    {
        let mut r: Vec<Vec<u8>> = Vec::new();
        let mut i: usize = 0;
        while i < self.entries.len()
            invariant
                i <= self@.len(),
                self@ == entries_of(self.entries@),
                r@.map_values(|v: Vec<u8>| v@) == find_results(self@.subrange(0, i as int), term@, word),
            decreases self.entries.len() - i,
        {
            let e = &self.entries[i];
            assert(self@.subrange(0, i + 1).drop_last() =~= self@.subrange(0, i as int));
            assert(self@.subrange(0, i + 1).last() == e@);
            file_matches(e.path.as_slice(), e.contents.as_slice(), term, word, &mut r);
            i = i + 1;
        }
        assert(self@.subrange(0, self@.len() as int) =~= self@);
        r
    }

    /// The index of the tree at `root` after a bulk load: each loaded file
    /// that the rules keep, in load order, a later copy of a path replacing
    /// an earlier one.
    pub fn build(root: Vec<u8>, loaded: Vec<Entry>, filters: &Vec<Filter>) -> (r: Index)
        ensures
            r.wf(),
            r.root_spec() == root@,
            r@ == apply_event(
                Seq::empty(),
                EventKind::Create,
                loaded_of(loaded@),
                rules_of(filters@),
                root@,
            ),
    {
        let mut idx = Index::new(root);
        let ghost obs = loaded_of(loaded@);
        let ghost rules = rules_of(filters@);
        let mut loaded = loaded;
        let ghost all = loaded@;
        let mut rev: Vec<Entry> = Vec::new();
        while loaded.len() > 0
            invariant
                rev@ + loaded@.reverse() == all.reverse(),
            decreases loaded.len(),
        {
            let e = loaded.pop().unwrap();
            assert(rev@.push(e) + loaded@.reverse() =~= rev@ + (loaded@.push(e)).reverse());
            rev.push(e);
        }
        assert(rev@ =~= all.reverse());
        let total = rev.len();
        assert(all.len() == total);
        let mut k: usize = 0;
        while rev.len() > 0
            invariant
                idx.wf(),
                idx.root_spec() == root@,
                obs == loaded_of(all),
                rules == rules_of(filters@),
                k + rev@.len() == all.len(),
                all.len() <= usize::MAX,
                rev@ == all.subrange(k as int, all.len() as int).reverse(),
                idx@ == apply_event(Seq::empty(), EventKind::Create, obs.subrange(0, k as int), rules, root@),
            decreases rev.len(),
        {
            let e = rev.pop().unwrap();
            assert(e == all[k as int]) by {
                assert(all.subrange(k as int, all.len() as int).reverse().last() == all[k as int]);
            }
            assert(rev@ =~= all.subrange(k + 1, all.len() as int).reverse());
            assert(obs.subrange(0, k + 1).drop_last() =~= obs.subrange(0, k as int));
            assert(obs.subrange(0, k + 1).last() == (e.path@, Some(e.contents@)));
            if filter_path(filters, e.path.as_slice(), idx.root.as_slice(), false) {
                idx.insert(e.path, e.contents);
            }
            k = k + 1;
        }
        assert(obs.subrange(0, obs.len() as int) =~= obs);
        idx
    }
}

} // verus!
