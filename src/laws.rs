//! Properties of the index that relate several operations or hold of every
//! result.

use vstd::prelude::*;
use crate::bytes::occurs_at;
use crate::filter::{path_decision, FilterRule};
use crate::index::{
    apply_event, bounded_at, delete, file_results, find_results, has_path,
    line_hit, line_results, path_pos, paths, result_line, unique_paths, upsert, Entries,
    EventKind,
};
use crate::text::split_lines;

verus! {

proof fn lemma_has_path_upsert(s: Entries, k: Seq<u8>, v: Seq<u8>, x: Seq<u8>)
    ensures
        has_path(upsert(s, k, v), x) <==> has_path(s, x) || x == k,
{
    let t = upsert(s, k, v);
    if has_path(s, k) {
        let p = path_pos(s, k);
        if has_path(s, x) {
            let i = choose|i: int| 0 <= i < s.len() && s[i].0 == x;
            if i == p {
                assert(t[p].0 == k);
            } else {
                assert(t[i].0 == x);
            }
        }
        if x == k {
            assert(t[p].0 == k);
        }
        if has_path(t, x) {
            let i = choose|i: int| 0 <= i < t.len() && t[i].0 == x;
            if i != p {
                assert(s[i].0 == x);
            }
        }
    } else {
        if has_path(s, x) {
            let i = choose|i: int| 0 <= i < s.len() && s[i].0 == x;
            assert(t[i].0 == x);
        }
        if x == k {
            assert(t[s.len() as int].0 == k);
        }
        if has_path(t, x) {
            let i = choose|i: int| 0 <= i < t.len() && t[i].0 == x;
            if i < s.len() {
                assert(s[i].0 == x);
            }
        }
    }
}

/// After loading files into an index, its paths are those it had plus the
/// loaded paths that the rules keep as files.
pub proof fn lemma_load_paths(
    s: Entries,
    obs: Seq<(Seq<u8>, Option<Seq<u8>>)>,
    rules: Seq<FilterRule>,
    root: Seq<u8>,
    x: Seq<u8>,
)
    ensures
        has_path(apply_event(s, EventKind::Create, obs, rules, root), x) <==> has_path(s, x) || exists|
            i: int,
        |
            0 <= i < obs.len() && #[trigger] obs[i].0 == x && obs[i].1 is Some && path_decision(
                rules,
                x,
                root,
                false,
            ),
    decreases obs.len(),
{
    if obs.len() > 0 {
        let init = obs.drop_last();
        let o = obs.last();
        lemma_load_paths(s, init, rules, root, x);
        let prev = apply_event(s, EventKind::Create, init, rules, root);
        if path_decision(rules, o.0, root, false) && o.1 is Some {
            lemma_has_path_upsert(prev, o.0, o.1->0, x);
        }
        if exists|i: int|
            0 <= i < obs.len() && #[trigger] obs[i].0 == x && obs[i].1 is Some && path_decision(
                rules,
                x,
                root,
                false,
            ) {
            let i = choose|i: int|
                0 <= i < obs.len() && #[trigger] obs[i].0 == x && obs[i].1 is Some
                    && path_decision(rules, x, root, false);
            if i < init.len() {
                assert(init[i].0 == x);
            }
        }
        if exists|i: int|
            0 <= i < init.len() && #[trigger] init[i].0 == x && init[i].1 is Some && path_decision(
                rules,
                x,
                root,
                false,
            ) {
            let i = choose|i: int|
                0 <= i < init.len() && #[trigger] init[i].0 == x && init[i].1 is Some
                    && path_decision(rules, x, root, false);
            assert(obs[i].0 == x);
        }
    }
}

/// A bulk load into an empty index indexes exactly the loaded files whose
/// paths the rules keep as files.
pub proof fn lemma_bulk_load_paths(
    obs: Seq<(Seq<u8>, Option<Seq<u8>>)>,
    rules: Seq<FilterRule>,
    root: Seq<u8>,
)
    ensures
        paths(apply_event(Seq::empty(), EventKind::Create, obs, rules, root)) == Set::new(
            |x: Seq<u8>|
                exists|i: int|
                    0 <= i < obs.len() && #[trigger] obs[i].0 == x && obs[i].1 is Some
                        && path_decision(rules, x, root, false),
        ),
{
    let t = apply_event(Seq::empty(), EventKind::Create, obs, rules, root);
    assert forall|x: Seq<u8>| paths(t).contains(x) <==> exists|i: int|
        0 <= i < obs.len() && #[trigger] obs[i].0 == x && obs[i].1 is Some && path_decision(
            rules,
            x,
            root,
            false,
        ) by {
        lemma_load_paths(Seq::empty(), obs, rules, root, x);
    }
    assert(paths(t) =~= Set::new(
        |x: Seq<u8>|
            exists|i: int|
                0 <= i < obs.len() && #[trigger] obs[i].0 == x && obs[i].1 is Some
                    && path_decision(rules, x, root, false),
    ));
}

/// Every line reported from a run of lines is one of those lines, reported
/// under its own number, and that line is a hit.
pub proof fn lemma_line_results_origin(
    path: Seq<u8>,
    lines: Seq<Seq<u8>>,
    first: nat,
    term: Seq<u8>,
    word: bool,
    k: int,
)
    requires
        0 <= k < line_results(path, lines, first, term, word).len(),
    ensures
        exists|m: int|
            0 <= m < lines.len() && line_results(path, lines, first, term, word)[k] == result_line(
                path,
                (first + m) as nat,
                #[trigger] lines[m],
            ) && line_hit(lines[m], term, word),
    decreases lines.len(),
{
    let rest = line_results(path, lines.drop_first(), first + 1, term, word);
    if line_hit(lines[0], term, word) && k == 0 {
        assert(line_results(path, lines, first, term, word)[0] == result_line(path, first, lines[0]));
        assert(lines[0] == lines[0]);
    } else {
        let k2 = if line_hit(lines[0], term, word) {
            k - 1
        } else {
            k
        };
        assert(line_results(path, lines, first, term, word)[k] == rest[k2]);
        lemma_line_results_origin(path, lines.drop_first(), first + 1, term, word, k2);
        let m = choose|m: int|
            0 <= m < lines.drop_first().len() && rest[k2] == result_line(
                path,
                (first + 1 + m) as nat,
                #[trigger] lines.drop_first()[m],
            ) && line_hit(lines.drop_first()[m], term, word);
        assert(lines[m + 1] == lines.drop_first()[m]);
    }
}

/// Every line that a search reports is `{path}:{n}: {line}` for an indexed
/// path and a line of that file that is a hit.
pub proof fn lemma_find_results_origin(s: Entries, term: Seq<u8>, word: bool, k: int)
    requires
        0 <= k < find_results(s, term, word).len(),
    ensures
        exists|i: int, m: int|
            0 <= i < s.len() && 0 <= m < split_lines(s[i].1).len() && find_results(
                s,
                term,
                word,
            )[k] == result_line(s[i].0, (1 + m) as nat, #[trigger] split_lines(s[i].1)[m])
                && line_hit(split_lines(s[i].1)[m], term, word),
    decreases s.len(),
{
    let init = find_results(s.drop_last(), term, word);
    let last = s.last();
    if k < init.len() {
        lemma_find_results_origin(s.drop_last(), term, word, k);
        let (i, m) = choose|i: int, m: int|
            0 <= i < s.drop_last().len() && 0 <= m < split_lines(s.drop_last()[i].1).len()
                && init[k] == result_line(
                s.drop_last()[i].0,
                (1 + m) as nat,
                #[trigger] split_lines(s.drop_last()[i].1)[m],
            ) && line_hit(split_lines(s.drop_last()[i].1)[m], term, word);
        assert(s[i] == s.drop_last()[i]);
        assert(find_results(s, term, word)[k] == init[k]);
    } else {
        let k2 = k - init.len();
        lemma_line_results_origin(last.0, split_lines(last.1), 1, term, word, k2);
        assert(find_results(s, term, word)[k] == file_results(last.0, last.1, term, word)[k2]);
        let m = choose|m: int|
            0 <= m < split_lines(last.1).len() && file_results(last.0, last.1, term, word)[k2]
                == result_line(last.0, (1 + m) as nat, #[trigger] split_lines(last.1)[m])
                && line_hit(split_lines(last.1)[m], term, word);
        assert(s[s.len() - 1] == last);
    }
}

/// In word mode every reported line holds an occurrence of the term whose
/// neighbouring bytes, where present, are not ASCII alphanumeric.
pub proof fn lemma_word_mode_boundary(s: Entries, term: Seq<u8>, k: int)
    requires
        0 <= k < find_results(s, term, true).len(),
    ensures
        exists|i: int, m: int|
            0 <= i < s.len() && 0 <= m < split_lines(s[i].1).len() && find_results(
                s,
                term,
                true,
            )[k] == result_line(s[i].0, (1 + m) as nat, #[trigger] split_lines(s[i].1)[m])
                && exists|pos: int|
                #![trigger occurs_at(term, split_lines(s[i].1)[m], pos)]
                occurs_at(term, split_lines(s[i].1)[m], pos) && bounded_at(
                    split_lines(s[i].1)[m],
                    pos,
                    term.len() as int,
                ),
{
    lemma_find_results_origin(s, term, true, k);
}

/// The contents stored for path `k` in `s`.
pub open spec fn value_of(s: Entries, k: Seq<u8>) -> Seq<u8> {
    s[path_pos(s, k)].1
}

/// Whether an event path loads contents into the index.
pub open spec fn loads(o: (Seq<u8>, Option<Seq<u8>>), rules: Seq<FilterRule>, root: Seq<u8>) -> bool {
    path_decision(rules, o.0, root, false) && o.1 is Some
}

/// The contents that the last loading path `k` of `obs` carries.
pub open spec fn last_load(
    obs: Seq<(Seq<u8>, Option<Seq<u8>>)>,
    rules: Seq<FilterRule>,
    root: Seq<u8>,
    k: Seq<u8>,
) -> Option<Seq<u8>>
    decreases obs.len(),
{
    if obs.len() == 0 {
        None
    } else if loads(obs.last(), rules, root) && obs.last().0 == k {
        obs.last().1
    } else {
        last_load(obs.drop_last(), rules, root, k)
    }
}

proof fn lemma_pos_unique(s: Entries, i: int)
    requires
        unique_paths(s),
        0 <= i < s.len(),
    ensures
        has_path(s, s[i].0),
        path_pos(s, s[i].0) == i,
{
    assert(s[i].0 == s[i].0);
    let p = path_pos(s, s[i].0);
    if p < i {
        assert(s[p].0 != s[i].0);
    } else if p > i {
        assert(s[i].0 != s[p].0);
    }
}

proof fn lemma_upsert_facts(s: Entries, k: Seq<u8>, v: Seq<u8>)
    requires
        unique_paths(s),
    ensures
        unique_paths(upsert(s, k, v)),
        has_path(upsert(s, k, v), k),
        value_of(upsert(s, k, v), k) == v,
{
    let t = upsert(s, k, v);
    let q = if has_path(s, k) { path_pos(s, k) } else { s.len() as int };
    assert(t[q] == (k, v));
    assert forall|i: int, j: int| 0 <= i < j < t.len() implies t[i].0 != t[j].0 by {
        if i != q && j != q {
            assert(s[i].0 != s[j].0);
        } else if i == q && has_path(s, k) {
            assert(s[q].0 == k);
            assert(s[i].0 != s[j].0);
        } else if j == q && has_path(s, k) {
            assert(s[q].0 == k);
            assert(s[i].0 != s[j].0);
        } else if i == q {
            assert(j > s.len());
        } else {
            assert(s[i].0 != k);
        }
    }
    lemma_has_path_upsert(s, k, v, k);
    lemma_pos_unique(t, q);
}

proof fn lemma_upsert_other(s: Entries, k: Seq<u8>, v: Seq<u8>, x: Seq<u8>)
    requires
        unique_paths(s),
        x != k,
        has_path(s, x),
    ensures
        has_path(upsert(s, k, v), x),
        value_of(upsert(s, k, v), x) == value_of(s, x),
{
    let t = upsert(s, k, v);
    let q = if has_path(s, k) { path_pos(s, k) } else { s.len() as int };
    lemma_upsert_facts(s, k, v);
    lemma_has_path_upsert(s, k, v, x);
    let p = path_pos(s, x);
    if has_path(s, k) {
        assert(s[q].0 == k);
    }
    assert(t[p] == s[p]);
    lemma_pos_unique(t, p);
}

/// After a loading event, every loaded path is present with the contents of
/// its last loading occurrence, and paths stay unique.
proof fn lemma_load_values(
    s: Entries,
    kind: EventKind,
    obs: Seq<(Seq<u8>, Option<Seq<u8>>)>,
    rules: Seq<FilterRule>,
    root: Seq<u8>,
)
    requires
        unique_paths(s),
        kind == EventKind::Create || kind == EventKind::Modify,
    ensures
        unique_paths(apply_event(s, kind, obs, rules, root)),
        forall|x: Seq<u8>|
            #[trigger] last_load(obs, rules, root, x) is Some ==> has_path(
                apply_event(s, kind, obs, rules, root),
                x,
            ) && value_of(apply_event(s, kind, obs, rules, root), x) == last_load(
                obs,
                rules,
                root,
                x,
            )->0,
    decreases obs.len(),
{
    if obs.len() > 0 {
        let init = obs.drop_last();
        let o = obs.last();
        lemma_load_values(s, kind, init, rules, root);
        let prev = apply_event(s, kind, init, rules, root);
        if loads(o, rules, root) {
            lemma_upsert_facts(prev, o.0, o.1->0);
            assert(apply_event(s, kind, obs, rules, root) == upsert(prev, o.0, o.1->0));
        } else {
            assert(apply_event(s, kind, obs, rules, root) == prev);
        }
        assert forall|x: Seq<u8>| #[trigger] last_load(obs, rules, root, x) is Some implies has_path(
            apply_event(s, kind, obs, rules, root),
            x,
        ) && value_of(apply_event(s, kind, obs, rules, root), x) == last_load(
            obs,
            rules,
            root,
            x,
        )->0 by {
            if !(loads(o, rules, root) && o.0 == x) {
                assert(last_load(obs, rules, root, x) == last_load(init, rules, root, x));
                if loads(o, rules, root) {
                    lemma_upsert_other(prev, o.0, o.1->0, x);
                }
            }
        }
    }
}

/// Refreshing entries that already hold every loaded path: each keeps its
/// place, and takes the contents of its last loading occurrence, if any.
proof fn lemma_reload(
    t: Entries,
    kind: EventKind,
    obs: Seq<(Seq<u8>, Option<Seq<u8>>)>,
    rules: Seq<FilterRule>,
    root: Seq<u8>,
)
    requires
        unique_paths(t),
        kind == EventKind::Create || kind == EventKind::Modify,
        forall|x: Seq<u8>| #[trigger] last_load(obs, rules, root, x) is Some ==> has_path(t, x),
    ensures
        apply_event(t, kind, obs, rules, root) == Seq::new(
            t.len(),
            |i: int|
                (
                    t[i].0,
                    match last_load(obs, rules, root, t[i].0) {
                        Some(v) => v,
                        None => t[i].1,
                    },
                ),
        ),
    decreases obs.len(),
{
    let m = Seq::new(
        t.len(),
        |i: int|
            (
                t[i].0,
                match last_load(obs, rules, root, t[i].0) {
                    Some(v) => v,
                    None => t[i].1,
                },
            ),
    );
    if obs.len() == 0 {
        assert(m =~= t);
    } else {
        let init = obs.drop_last();
        let o = obs.last();
        assert forall|x: Seq<u8>| #[trigger] last_load(init, rules, root, x) is Some implies has_path(
            t,
            x,
        ) by {
            if !(loads(o, rules, root) && o.0 == x) {
                assert(last_load(obs, rules, root, x) == last_load(init, rules, root, x));
            } else {
                assert(last_load(obs, rules, root, x) is Some);
            }
        }
        lemma_reload(t, kind, init, rules, root);
        let mi = Seq::new(
            t.len(),
            |i: int|
                (
                    t[i].0,
                    match last_load(init, rules, root, t[i].0) {
                        Some(v) => v,
                        None => t[i].1,
                    },
                ),
        );
        assert(apply_event(t, kind, init, rules, root) == mi);
        if loads(o, rules, root) {
            assert(last_load(obs, rules, root, o.0) is Some);
            assert(has_path(t, o.0));
            let q = path_pos(t, o.0);
            assert(has_path(mi, o.0)) by {
                assert(mi[q].0 == o.0);
            }
            let q2 = path_pos(mi, o.0);
            assert(q2 == q) by {
                assert(mi[q2].0 == t[q2].0);
                if q2 != q {
                    if q2 < q {
                        assert(t[q2].0 != t[q].0);
                    } else {
                        assert(t[q].0 != t[q2].0);
                    }
                }
            }
            assert(upsert(mi, o.0, o.1->0) =~= m) by {
                assert forall|i: int| 0 <= i < t.len() && i != q implies t[i].0 != o.0 by {
                    if i < q {
                        assert(t[i].0 != t[q].0);
                    } else {
                        assert(t[q].0 != t[i].0);
                    }
                }
            }
        } else {
            assert forall|i: int| 0 <= i < t.len() implies last_load(obs, rules, root, t[i].0)
                == last_load(init, rules, root, t[i].0) by {}
            assert(mi =~= m);
        }
    }
}

proof fn lemma_delete_facts(s: Entries, k: Seq<u8>)
    requires
        unique_paths(s),
    ensures
        unique_paths(delete(s, k)),
        !has_path(delete(s, k), k),
        forall|x: Seq<u8>| #[trigger] has_path(delete(s, k), x) ==> has_path(s, x),
{
    let t = delete(s, k);
    if has_path(s, k) {
        let p = path_pos(s, k);
        assert forall|i: int, j: int| 0 <= i < j < t.len() implies t[i].0 != t[j].0 by {
            let si = if i < p { i } else { i + 1 };
            let sj = if j < p { j } else { j + 1 };
            assert(t[i] == s[si] && t[j] == s[sj]);
            assert(s[si].0 != s[sj].0);
        }
        if has_path(t, k) {
            let i = choose|i: int| 0 <= i < t.len() && t[i].0 == k;
            let si = if i < p { i } else { i + 1 };
            assert(t[i] == s[si]);
            if si < p {
                assert(s[si].0 != s[p].0);
            } else {
                assert(s[p].0 != s[si].0);
            }
        }
        assert forall|x: Seq<u8>| #[trigger] has_path(delete(s, k), x) implies has_path(s, x) by {
            let i = choose|i: int| 0 <= i < t.len() && t[i].0 == x;
            let si = if i < p { i } else { i + 1 };
            assert(t[i] == s[si]);
        }
    }
}

/// Whether an event path removes from the index.
pub open spec fn drops(o: (Seq<u8>, Option<Seq<u8>>), rules: Seq<FilterRule>, root: Seq<u8>) -> bool {
    path_decision(rules, o.0, root, false)
}

/// After a removal event no path that it removes is left.
proof fn lemma_removed_gone(
    s: Entries,
    obs: Seq<(Seq<u8>, Option<Seq<u8>>)>,
    rules: Seq<FilterRule>,
    root: Seq<u8>,
)
    requires
        unique_paths(s),
    ensures
        unique_paths(apply_event(s, EventKind::Remove, obs, rules, root)),
        forall|i: int|
            0 <= i < obs.len() && drops(#[trigger] obs[i], rules, root) ==> !has_path(
                apply_event(s, EventKind::Remove, obs, rules, root),
                obs[i].0,
            ),
    decreases obs.len(),
{
    if obs.len() > 0 {
        let init = obs.drop_last();
        let o = obs.last();
        lemma_removed_gone(s, init, rules, root);
        let prev = apply_event(s, EventKind::Remove, init, rules, root);
        if drops(o, rules, root) {
            lemma_delete_facts(prev, o.0);
        }
        assert forall|i: int|
            0 <= i < obs.len() && drops(#[trigger] obs[i], rules, root) implies !has_path(
            apply_event(s, EventKind::Remove, obs, rules, root),
            obs[i].0,
        ) by {
            if i < init.len() {
                assert(init[i] == obs[i]);
            }
        }
    }
}

/// A removal event none of whose removed paths is indexed changes nothing.
pub proof fn lemma_remove_absent(
    t: Entries,
    obs: Seq<(Seq<u8>, Option<Seq<u8>>)>,
    rules: Seq<FilterRule>,
    root: Seq<u8>,
)
    requires
        forall|i: int|
            0 <= i < obs.len() && drops(#[trigger] obs[i], rules, root) ==> !has_path(t, obs[i].0),
    ensures
        apply_event(t, EventKind::Remove, obs, rules, root) == t,
    decreases obs.len(),
{
    if obs.len() > 0 {
        let init = obs.drop_last();
        assert forall|i: int|
            0 <= i < init.len() && drops(#[trigger] init[i], rules, root) implies !has_path(
            t,
            init[i].0,
        ) by {
            assert(init[i] == obs[i]);
        }
        lemma_remove_absent(t, init, rules, root);
        assert(obs.last() == obs[obs.len() - 1]);
    }
}

/// Event idempotence: handling the same event twice leaves the entries,
/// order included, exactly as handling it once.
pub proof fn lemma_event_twice(
    s: Entries,
    kind: EventKind,
    obs: Seq<(Seq<u8>, Option<Seq<u8>>)>,
    rules: Seq<FilterRule>,
    root: Seq<u8>,
)
    requires
        unique_paths(s),
    ensures
        apply_event(apply_event(s, kind, obs, rules, root), kind, obs, rules, root) == apply_event(
            s,
            kind,
            obs,
            rules,
            root,
        ),
{
    let t = apply_event(s, kind, obs, rules, root);
    match kind {
        EventKind::Create | EventKind::Modify => {
            lemma_load_values(s, kind, obs, rules, root);
            lemma_reload(t, kind, obs, rules, root);
            let m = Seq::new(
                t.len(),
                |i: int|
                    (
                        t[i].0,
                        match last_load(obs, rules, root, t[i].0) {
                            Some(v) => v,
                            None => t[i].1,
                        },
                    ),
            );
            assert forall|i: int| 0 <= i < t.len() implies m[i] == t[i] by {
                lemma_pos_unique(t, i);
            }
            assert(m =~= t);
        },
        EventKind::Remove => {
            lemma_removed_gone(s, obs, rules, root);
            lemma_remove_absent(t, obs, rules, root);
        },
        EventKind::Other => {
            lemma_other_no_change(s, obs, rules, root);
            lemma_other_no_change(t, obs, rules, root);
        },
    }
}

proof fn lemma_other_no_change(
    s: Entries,
    obs: Seq<(Seq<u8>, Option<Seq<u8>>)>,
    rules: Seq<FilterRule>,
    root: Seq<u8>,
)
    ensures
        apply_event(s, EventKind::Other, obs, rules, root) == s,
    decreases obs.len(),
{
    if obs.len() > 0 {
        lemma_other_no_change(s, obs.drop_last(), rules, root);
    }
}

} // verus!
