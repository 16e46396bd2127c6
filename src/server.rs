//! What a server does for one request: its own results, the hand-off to each
//! federated child in turn, and the closing markers.

use vstd::prelude::*;

verus! {

/// Whether the process serves a tree or queries one.
#[derive(Clone, Copy, PartialEq, Eq, Structural)]
pub enum Mode {
    Server,
    Client,
}

/// A request as it travels from the client to the servers.
pub struct Request {
    pub mode: Mode,
    pub root: Option<String>,
    /// The reply channel that result lines are sent to.
    pub client_pipe: Option<String>,
    /// List the indexed files instead of searching.
    pub files: bool,
    /// Report only occurrences bounded by non-alphanumeric bytes.
    pub word: bool,
    /// Set on the first hop: the receiving server is the entry point.
    pub main_server: bool,
    pub term: Option<String>,
}

pub open spec fn opt_text(o: Option<String>) -> Option<Seq<char>> {
    match o {
        Some(s) => Some(s@),
        None => None,
    }
}

fn clone_opt(o: &Option<String>) -> (r: Option<String>)
    ensures
        opt_text(r) == opt_text(*o),
{
    match o {
        Some(s) => Some(s.clone()),
        None => None,
    }
}

/// One step of serving a request, in the order they are taken.
#[derive(Clone, Copy, PartialEq, Eq, Structural)]
pub enum Step {
    /// Send every indexed path to the reply channel.
    ListFiles,
    /// Send the search results to the reply channel.
    Search,
    /// Send `###server_to_client_end###` to the reply channel.
    EndOwnResults,
    /// Forward the request to child `i` and wait until it answers `###server_to_server_end###`.
    Forward(usize),
    /// Answer `###server_to_server_end###` on the request connection.
    EndRequest,
    /// Send `###main_server_end###` to the reply channel.
    EndStream,
}

/// Forwarding steps to children `0..n`, in order.
pub open spec fn forwards(n: nat) -> Seq<Step>
    decreases n,
{
    if n == 0 {
        Seq::empty()
    } else {
        forwards((n - 1) as nat).push(Step::Forward((n - 1) as usize))
    }
}

/// The steps for a request on a server with `n` children.
pub open spec fn request_plan(files: bool, has_term: bool, entry: bool, n: nat) -> Seq<Step> {
    let own = if files {
        seq![Step::ListFiles]
    } else if has_term {
        seq![Step::Search]
    } else {
        Seq::empty()
    };
    let tail = if entry {
        seq![Step::EndRequest, Step::EndStream]
    } else {
        seq![Step::EndRequest]
    };
    own + seq![Step::EndOwnResults] + forwards(n) + tail
}

impl Request {
    /// The steps for this request on a server with `n_children` children.
    pub fn plan(&self, n_children: usize) -> (r: Vec<Step>)
        ensures
            r@ == request_plan(self.files, self.term is Some, self.main_server, n_children as nat),
    {
        let mut r: Vec<Step> = Vec::new();
        if self.files {
            r.push(Step::ListFiles);
        } else if self.term.is_some() {
            r.push(Step::Search);
        }
        r.push(Step::EndOwnResults);
        let ghost head = r@;
        let mut i: usize = 0;
        while i < n_children
            invariant
                i <= n_children,
                r@ == head + forwards(i as nat),
            decreases n_children - i,
        {
            r.push(Step::Forward(i));
            assert(forwards((i + 1) as nat) == forwards(i as nat).push(Step::Forward(i)));
            assert(r@ =~= head + forwards((i + 1) as nat));
            i = i + 1;
        }
        r.push(Step::EndRequest);
        if self.main_server {
            r.push(Step::EndStream);
        }
        assert(r@ =~= request_plan(self.files, self.term is Some, self.main_server, n_children as nat));
        r
    }

    /// The request as handed on to a child: the same, except that the child
    /// is not the entry point.
    pub fn forwarded(&self) -> (r: Request)
        ensures
            r.mode == self.mode,
            opt_text(r.root) == opt_text(self.root),
            opt_text(r.client_pipe) == opt_text(self.client_pipe),
            r.files == self.files,
            r.word == self.word,
            !r.main_server,
            opt_text(r.term) == opt_text(self.term),
    {
        Request {
            mode: self.mode,
            root: clone_opt(&self.root),
            client_pipe: clone_opt(&self.client_pipe),
            files: self.files,
            word: self.word,
            main_server: false,
            term: clone_opt(&self.term),
        }
    }
}

/// How often `x` occurs in `s`.
pub open spec fn count(s: Seq<Step>, x: Step) -> nat
    decreases s.len(),
{
    if s.len() == 0 {
        0
    } else {
        count(s.drop_last(), x) + if s.last() == x {
            1nat
        } else {
            0nat
        }
    }
}

/// The steps of a plan with each forwarding step replaced by what the child
/// does meanwhile (`children[i]` for child `i`).
pub open spec fn spliced(p: Seq<Step>, children: Seq<Seq<Step>>) -> Seq<Step>
    decreases p.len(),
{
    if p.len() == 0 {
        Seq::empty()
    } else {
        spliced(p.drop_last(), children) + match p.last() {
            Step::Forward(i) => if i < children.len() {
                children[i as int]
            } else {
                Seq::empty()
            },
            other => seq![other],
        }
    }
}

proof fn lemma_count_concat(a: Seq<Step>, b: Seq<Step>, x: Step)
    ensures
        count(a + b, x) == count(a, x) + count(b, x),
    decreases b.len(),
{
    if b.len() == 0 {
        assert(a + b =~= a);
    } else {
        assert((a + b).drop_last() =~= a + b.drop_last());
        lemma_count_concat(a, b.drop_last(), x);
    }
}

proof fn lemma_spliced_concat(a: Seq<Step>, b: Seq<Step>, children: Seq<Seq<Step>>)
    ensures
        spliced(a + b, children) == spliced(a, children) + spliced(b, children),
    decreases b.len(),
{
    if b.len() == 0 {
        assert(a + b =~= a);
        assert(spliced(a, children) + spliced(b, children) =~= spliced(a, children));
    } else {
        assert((a + b).drop_last() =~= a + b.drop_last());
        lemma_spliced_concat(a, b.drop_last(), children);
    }
}

/// What children that each send at least one own-results marker and no
/// end-of-stream marker add while they are handed the request in turn.
proof fn lemma_spliced_forwards(n: nat, children: Seq<Seq<Step>>)
    requires
        n <= children.len(),
        n <= usize::MAX,
        forall|i: int|
            0 <= i < children.len() ==> count(#[trigger] children[i], Step::EndStream) == 0
                && count(children[i], Step::EndOwnResults) >= 1,
    ensures
        count(spliced(forwards(n), children), Step::EndStream) == 0,
        count(spliced(forwards(n), children), Step::EndOwnResults) >= n,
    decreases n,
{
    if n > 0 {
        let m = (n - 1) as nat;
        lemma_spliced_forwards(m, children);
        let f = forwards(n);
        assert(f.drop_last() == forwards(m));
        assert(f.last() == Step::Forward(m as usize));
        assert((m as usize) as int == m);
        assert(spliced(f, children) == spliced(forwards(m), children) + children[m as int]);
        lemma_count_concat(spliced(forwards(m), children), children[m as int], Step::EndStream);
        lemma_count_concat(spliced(forwards(m), children), children[m as int], Step::EndOwnResults);
    }
}

proof fn lemma_count_single(a: Step, x: Step)
    ensures
        count(seq![a], x) == if a == x {
            1nat
        } else {
            0nat
        },
{
    reveal_with_fuel(count, 2);
    assert(seq![a].drop_last() =~= Seq::<Step>::empty());
}

proof fn lemma_spliced_single(a: Step, children: Seq<Seq<Step>>)
    requires
        !(a is Forward),
    ensures
        spliced(seq![a], children) == seq![a],
{
    reveal_with_fuel(spliced, 2);
    assert(seq![a].drop_last() =~= Seq::<Step>::empty());
    assert(Seq::<Step>::empty() + seq![a] =~= seq![a]);
}

/// Federation termination: let a server have `n` children, each of which,
/// with its own children, sends at least one own-results marker and no
/// end-of-stream marker to the reply channel. Then what reaches the reply
/// channel for a request from the client ends with the one and only
/// end-of-stream marker, after at least `n + 1` own-results markers. A child
/// serving a forwarded request meets the same assumption in turn: it sends no
/// end-of-stream marker and at least one own-results marker.
pub proof fn lemma_federation_termination(
    files: bool,
    has_term: bool,
    n: nat,
    children: Seq<Seq<Step>>,
)
    requires
        children.len() == n,
        n <= usize::MAX,
        forall|i: int|
            0 <= i < children.len() ==> count(#[trigger] children[i], Step::EndStream) == 0
                && count(children[i], Step::EndOwnResults) >= 1,
    ensures
        ({
            let st = spliced(request_plan(files, has_term, true, n), children);
            &&& st.len() > 0
            &&& st.last() == Step::EndStream
            &&& count(st, Step::EndStream) == 1
            &&& count(st.drop_last(), Step::EndOwnResults) >= n + 1
        }),
        ({
            let st = spliced(request_plan(files, has_term, false, n), children);
            &&& count(st, Step::EndStream) == 0
            &&& count(st, Step::EndOwnResults) >= 1
        }),
{
    let own = if files {
        seq![Step::ListFiles]
    } else if has_term {
        seq![Step::Search]
    } else {
        Seq::<Step>::empty()
    };
    let head = own + seq![Step::EndOwnResults];
    let mid = head + forwards(n);
    let sh = spliced(head, children);
    assert(spliced(own, children) == own) by {
        if own.len() == 1 {
            lemma_spliced_single(own[0], children);
            assert(own =~= seq![own[0]]);
        }
    }
    lemma_spliced_concat(own, seq![Step::EndOwnResults], children);
    lemma_spliced_single(Step::EndOwnResults, children);
    lemma_count_concat(own, seq![Step::EndOwnResults], Step::EndStream);
    lemma_count_concat(own, seq![Step::EndOwnResults], Step::EndOwnResults);
    lemma_count_single(Step::EndOwnResults, Step::EndStream);
    lemma_count_single(Step::EndOwnResults, Step::EndOwnResults);
    assert(count(own, Step::EndStream) == 0) by {
        if own.len() == 1 {
            lemma_count_single(own[0], Step::EndStream);
            assert(own =~= seq![own[0]]);
        }
    }
    lemma_spliced_concat(head, forwards(n), children);
    lemma_spliced_forwards(n, children);
    let sm = spliced(mid, children);
    lemma_count_concat(sh, spliced(forwards(n), children), Step::EndStream);
    lemma_count_concat(sh, spliced(forwards(n), children), Step::EndOwnResults);
    assert(count(sm, Step::EndStream) == 0);
    assert(count(sm, Step::EndOwnResults) >= n + 1);

    let t1 = seq![Step::EndRequest, Step::EndStream];
    assert(request_plan(files, has_term, true, n) == mid + t1);
    lemma_spliced_concat(mid, t1, children);
    assert(t1.drop_last() =~= seq![Step::EndRequest]);
    lemma_spliced_single(Step::EndRequest, children);
    assert(spliced(t1, children) =~= t1);
    let st = sm + t1;
    assert(st.drop_last() =~= sm + seq![Step::EndRequest]);
    lemma_count_concat(sm, seq![Step::EndRequest], Step::EndOwnResults);
    lemma_count_single(Step::EndRequest, Step::EndOwnResults);
    lemma_count_single(Step::EndRequest, Step::EndStream);
    assert(count(st, Step::EndStream) == count(sm + seq![Step::EndRequest], Step::EndStream) + 1);
    lemma_count_concat(sm, seq![Step::EndRequest], Step::EndStream);

    let t2 = seq![Step::EndRequest];
    assert(request_plan(files, has_term, false, n) == mid + t2);
    lemma_spliced_concat(mid, t2, children);
}

} // verus!
