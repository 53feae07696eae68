//! A site link-graph crawler core: URL canonicalization and resolution, a
//! crawl-worthiness filter, a deduplicated link graph, and the scheduling
//! step logic that a worker pool drives.
//!
//! The crawl state lives in [`Analiser`]: a FIFO frontier of pending tasks
//! and the link graph. A worker repeatedly asks [`Analiser::next_step`] what
//! to do, performs the fetch it is handed outside any lock, and feeds the
//! fetched content back through [`Analiser::record_page`], which filters and
//! canonicalizes the candidate links, updates the graph under the node cap,
//! and enqueues newly discovered pages.

pub mod graph;
pub mod laws;
pub mod strutil;
pub mod urldata;

use vstd::prelude::*;

use crate::graph::first_index_of;
use crate::graph::graph_wf;
use crate::graph::has_key;
use crate::graph::lemma_first_index_of;
use crate::graph::spec_add;
use crate::graph::Graph;
use crate::strutil::contains_seq;
use crate::strutil::str_contains;
use crate::strutil::str_eq;
use crate::urldata::canonical_key;
use crate::urldata::canonical_key_of;
use crate::urldata::has_excluded_extension;
use crate::urldata::is_http_scheme;
use crate::urldata::parse_ok;
use crate::urldata::parse_scheme;
use crate::urldata::parse_url_parts;
use crate::urldata::resolve;
use crate::urldata::resolve_spec;
use crate::urldata::url_has_excluded_extension;
use crate::urldata::validate_url;
use crate::urldata::validate_url_spec;
use crate::urldata::NodeModel;
use crate::urldata::UrlData;
use std::collections::VecDeque;

verus! {

/// A pending crawl task: a URL to fetch, how deep in the crawl it sits,
/// and the page on which it was discovered.
#[derive(Debug)]
pub struct UrlQueue {
    pub depth: usize,
    pub url: String,
    pub parent: String,
}

/// The mathematical model of a crawl task.
#[verifier::ext_equal]
pub struct TaskModel {
    pub depth: int,
    pub url: Seq<char>,
    pub parent: Seq<char>,
}

impl View for UrlQueue {
    type V = TaskModel;

    open spec fn view(&self) -> TaskModel {
        TaskModel { depth: self.depth as int, url: self.url@, parent: self.parent@ }
    }
}

/// How much the crawl reports: nothing, successful discoveries only, or
/// every attempt including invalid ones.
#[derive(Debug, Clone, Copy, PartialEq, Eq, Structural)]
pub enum Verbosity {
    Quiet,
    Successes,
    AllAttempts,
}

/// The configuration of one crawl run.
#[derive(Debug)]
pub struct Options {
    /// Tasks deeper than this are never fetched, and no page at this depth
    /// spawns children.
    pub max_depth: usize,
    /// The graph never holds more nodes than this.
    pub max_urls: usize,
    /// A candidate must contain this string; empty accepts all.
    pub match_str: String,
    /// A candidate containing any of these strings is dropped.
    pub ignore_strs: Vec<String>,
    /// How many workers the pool runs.
    pub concurrency: usize,
    /// How much the crawl reports.
    pub verbosity: Verbosity,
}

impl Options {
    /// Bundles the limits and filters of one crawl run.
    pub fn new(
        max_depth: usize,
        max_urls: usize,
        match_str: String,
        ignore_strs: Vec<String>,
        concurrency: usize,
        verbosity: Verbosity,
    ) -> (r: Options)
        ensures
            r.max_depth == max_depth,
            r.max_urls == max_urls,
            r.match_str == match_str,
            r.ignore_strs == ignore_strs,
            r.concurrency == concurrency,
            r.verbosity == verbosity,
    {
        Options { max_depth, max_urls, match_str, ignore_strs, concurrency, verbosity }
    }
}

/// The crawl-worthiness filter: an absolute `http`/`https` URL, not an
/// excluded file type, no fragment marker, containing the match string and
/// none of the ignore strings. The checks are independent; the result does
/// not depend on their order.
pub open spec fn accept_spec(c: Seq<char>, opts: &Options) -> bool {
    &&& parse_ok(c)
    &&& is_http_scheme(parse_scheme(c))
    &&& !has_excluded_extension(c)
    &&& !contains_seq(c, "#"@)
    &&& contains_seq(c, opts.match_str@)
    &&& forall|i: int|
        0 <= i < opts.ignore_strs@.len() ==> !contains_seq(c, opts.ignore_strs@[i]@)
}

/// Decides whether a candidate absolute URL is worth crawling.
pub fn accept(candidate: &str, opts: &Options) -> (r: bool)
    ensures
        r == accept_spec(candidate@, opts),
{
    let scheme_ok = match parse_url_parts(candidate) {
        Some(p) => str_eq(p.scheme.as_str(), "http") || str_eq(p.scheme.as_str(), "https"),
        None => false,
    };
    if !scheme_ok {
        return false;
    }
    if url_has_excluded_extension(candidate) {
        return false;
    }
    if str_contains(candidate, "#") {
        return false;
    }
    if !str_contains(candidate, opts.match_str.as_str()) {
        return false;
    }
    let n = opts.ignore_strs.len();
    let mut i: usize = 0;
    while i < n
        invariant
            n == opts.ignore_strs@.len(),
            i <= n,
            forall|j: int| 0 <= j < i ==> !contains_seq(candidate@, opts.ignore_strs@[j]@),
        decreases n - i,
    {
        if str_contains(candidate, opts.ignore_strs[i].as_str()) {
            return false;
        }
        i = i + 1;
    }
    true
}

/// The raw candidate strings that the pluggable extractor pulls out of
/// fetched content: here, the text between each pair of quote characters.
pub uninterp spec fn quoted_literals_of(content: Seq<char>) -> Seq<Seq<char>>;

/// Relies on `regex::Regex::captures_iter` with a fixed pattern that
/// captures the text between a pair of quote characters (`"`, `'` or
/// a backtick): the sequence of captured substrings is deterministic in the
/// content alone.
#[verifier::external_body]
fn extract_quoted(content: &str) -> (r: Vec<String>)
    ensures
        r.deep_view() == quoted_literals_of(content@),
{
    let re = regex::Regex::new(r#"["'`](.*?)["'`]"#).unwrap();
    let mut out: Vec<String> = Vec::new();
    for cap in re.captures_iter(content) {
        out.push(cap[1].to_string());
    }
    out
}

/// The validated URLs among the quoted candidates of a page, in order: what
/// `validate_url` accepts of each, resolved against the parent page.
pub open spec fn extract_urls_spec(cands: Seq<Seq<char>>, parent: Seq<char>) -> Seq<Seq<char>>
    decreases cands.len(),
{
    if cands.len() == 0 {
        Seq::empty()
    } else {
        let rest = extract_urls_spec(cands.skip(1), parent);
        match validate_url_spec(cands[0], parent) {
            Some(v) => seq![v] + rest,
            None => rest,
        }
    }
}

proof fn lemma_extract_urls_snoc(cands: Seq<Seq<char>>, k: int, parent: Seq<char>)
    requires
        0 <= k < cands.len(),
    ensures
        extract_urls_spec(cands.take(k + 1), parent) == extract_urls_spec(cands.take(k), parent)
            + (match validate_url_spec(cands[k], parent) {
            Some(v) => seq![v],
            None => Seq::<Seq<char>>::empty(),
        }),
    decreases k,
{
    let piece = match validate_url_spec(cands[k], parent) {
        Some(v) => seq![v],
        None => Seq::<Seq<char>>::empty(),
    };
    if k == 0 {
        let t1 = cands.take(1);
        assert(t1[0] == cands[0]);
        assert(t1.skip(1) =~= Seq::<Seq<char>>::empty());
        assert(extract_urls_spec(t1.skip(1), parent) == Seq::<Seq<char>>::empty());
        assert(cands.take(0) =~= Seq::<Seq<char>>::empty());
        assert(extract_urls_spec(cands.take(0), parent) == Seq::<Seq<char>>::empty());
        assert(extract_urls_spec(t1, parent) =~= Seq::<Seq<char>>::empty() + piece);
    } else {
        let rest = cands.skip(1);
        assert(cands.take(k + 1)[0] == cands[0]);
        assert(cands.take(k)[0] == cands[0]);
        assert(cands.take(k + 1).skip(1) =~= rest.take(k));
        assert(cands.take(k).skip(1) =~= rest.take(k - 1));
        lemma_extract_urls_snoc(rest, k - 1, parent);
        assert(rest[k - 1] == cands[k]);
        let head = match validate_url_spec(cands[0], parent) {
            Some(v) => seq![v],
            None => Seq::<Seq<char>>::empty(),
        };
        assert(extract_urls_spec(cands.take(k + 1), parent) == head + extract_urls_spec(
            rest.take(k),
            parent,
        ));
        assert(extract_urls_spec(cands.take(k), parent) == head + extract_urls_spec(
            rest.take(k - 1),
            parent,
        ));
        assert(head + (extract_urls_spec(rest.take(k - 1), parent) + piece) =~= (head
            + extract_urls_spec(rest.take(k - 1), parent)) + piece);
    }
}

/// Extracts every quoted string of the content and keeps those that
/// `validate_url` accepts against the page they were found on.
pub fn extract_urls_from_content(content: &str, parent_url: &str) -> (r: Vec<String>)
    ensures
        r.deep_view() == extract_urls_spec(quoted_literals_of(content@), parent_url@),
{
    let cands = extract_quoted(content);
    let ghost gcands = quoted_literals_of(content@);
    let len = cands.len();
    let mut out: Vec<String> = Vec::new();
    let mut i: usize = 0;
    proof {
        assert(gcands.take(0) =~= Seq::<Seq<char>>::empty());
        assert(out.deep_view() =~= extract_urls_spec(gcands.take(0), parent_url@));
    }
    while i < len
        invariant
            len == cands@.len(),
            cands.deep_view() == gcands,
            i <= len,
            out.deep_view() == extract_urls_spec(gcands.take(i as int), parent_url@),
        decreases len - i,
    {
        let cand = &cands[i];
        proof {
            assert(cand@ == gcands[i as int]);
        }
        let ghost before = out.deep_view();
        match validate_url(cand.as_str(), parent_url) {
            Some(v) => {
                out.push(v);
            },
            None => {},
        }
        proof {
            lemma_extract_urls_snoc(gcands, i as int, parent_url@);
            assert(out.deep_view() =~= extract_urls_spec(gcands.take(i + 1), parent_url@));
        }
        i = i + 1;
    }
    proof {
        assert(gcands.take(len as int) =~= gcands);
    }
    out
}

/// The mathematical model of the crawl state: the graph's nodes, the
/// frontier of pending tasks, and whether the node cap has signaled a global
/// stop.
#[verifier::ext_equal]
pub struct StateModel {
    pub nodes: Seq<NodeModel>,
    pub queue: Seq<TaskModel>,
    pub stopped: bool,
}

/// The crawl state: the link graph, the FIFO frontier, and the stop flag
/// that the node cap raises.
#[derive(Debug)]
pub struct Analiser {
    pub graph: Graph,
    pub queue: VecDeque<UrlQueue>,
    pub stopped: bool,
}

impl View for Analiser {
    type V = StateModel;

    open spec fn view(&self) -> StateModel {
        StateModel {
            nodes: self.graph@,
            queue: Seq::new(self.queue@.len(), |i: int| self.queue@[i]@),
            stopped: self.stopped,
        }
    }
}

/// What a worker should do next: fetch a task's page, drop a task that sits
/// too deep, back off because the frontier is momentarily empty, or stop for
/// good.
pub enum Step {
    Fetch(UrlQueue),
    Skip(UrlQueue),
    Idle,
    Stop,
}

impl Analiser {
    /// A fresh crawl seeded with `url` at depth zero.
    pub fn new(url: &str) -> (r: Analiser)
        ensures
            r@.nodes.len() == 0,
            r@.queue.len() == 1,
            r@.queue[0] == (TaskModel { depth: 0, url: url@, parent: Seq::empty() }),
            !r@.stopped,
    {
        let mut queue: VecDeque<UrlQueue> = VecDeque::new();
        queue.push_back(UrlQueue { depth: 0, url: String::from_str(url), parent: String::new() });
        let r = Analiser { graph: Graph::new(), queue, stopped: false };
        proof {
            assert(r@.queue =~= Seq::new(1, |i: int| r.queue@[i]@));
            assert(r@.queue[0].url == url@);
        }
        r
    }

    /// Pops the next pending task and decides its fate: a task within the
    /// depth limit is handed out for fetching, one beyond it is discarded
    /// unfetched; an empty frontier asks the worker to idle, and a raised
    /// stop flag ends the worker. The graph and the stop flag are untouched.
    pub fn next_step(&mut self, opts: &Options) -> (r: Step)
        ensures
            final(self)@.nodes == old(self)@.nodes,
            final(self)@.stopped == old(self)@.stopped,
            old(self)@.stopped ==> r is Stop && final(self)@ == old(self)@,
            !old(self)@.stopped && old(self)@.queue.len() == 0 ==> r is Idle && final(self)@
                == old(self)@,
            !old(self)@.stopped && old(self)@.queue.len() > 0 ==> {
                let t0 = old(self)@.queue[0];
                &&& final(self)@.queue == old(self)@.queue.drop_first()
                &&& (t0.depth <= opts.max_depth as int ==> (r matches Step::Fetch(t) && t@
                    == t0))
                &&& (t0.depth > opts.max_depth as int ==> (r matches Step::Skip(t) && t@ == t0))
            },
            (r matches Step::Fetch(t) ==> t@.depth <= opts.max_depth as int),
    {
        if self.stopped {
            return Step::Stop;
        }
        let popped = self.queue.pop_front();
        match popped {
            None => Step::Idle,
            Some(t) => {
                proof {
                    assert(final(self)@.queue =~= old(self)@.queue.drop_first());
                    assert(t@ == old(self)@.queue[0]);
                }
                if t.depth <= opts.max_depth {
                    Step::Fetch(t)
                } else {
                    Step::Skip(t)
                }
            },
        }
    }
}

/// A graph node with no outgoing edges yet.
pub open spec fn spec_node(key: Seq<char>) -> NodeModel {
    NodeModel { key, edges: Seq::empty() }
}

/// The state after making sure the fetched page itself is a node: nothing
/// changes if the key is present; a node is created while the cap leaves
/// room; otherwise the stop flag is raised.
pub open spec fn spec_ensure_node(st: StateModel, key: Seq<char>, opts: &Options) -> StateModel {
    if first_index_of(st.nodes, key) >= 0 {
        st
    } else if st.nodes.len() < opts.max_urls {
        StateModel { nodes: st.nodes.push(spec_node(key)), ..st }
    } else {
        StateModel { stopped: true, ..st }
    }
}

/// The state after committing one surviving candidate: a known key only
/// gains an edge from the page; a new key becomes a node with an edge and a
/// queued task one level deeper, while the cap leaves room; at the cap the
/// stop flag is raised and nothing is recorded.
pub open spec fn spec_commit(
    st: StateModel,
    key: Seq<char>,
    abs: Seq<char>,
    task: TaskModel,
    pkey: Seq<char>,
    opts: &Options,
) -> StateModel {
    if first_index_of(st.nodes, key) >= 0 {
        StateModel { nodes: spec_add(st.nodes, spec_node(key), pkey), ..st }
    } else if st.nodes.len() < opts.max_urls {
        StateModel {
            nodes: spec_add(st.nodes, spec_node(key), pkey),
            queue: st.queue.push(
                TaskModel { depth: task.depth + 1, url: abs, parent: task.url },
            ),
            stopped: st.stopped,
        }
    } else {
        StateModel { stopped: true, ..st }
    }
}

/// Whether one raw candidate survives resolution, the filter, and
/// canonicalization.
pub open spec fn spec_survives(cand: Seq<char>, task: TaskModel, opts: &Options) -> bool {
    match resolve_spec(cand, task.url) {
        Some(abs) => accept_spec(abs, opts) && canonical_key_of(abs) is Some,
        None => false,
    }
}

/// The state after processing one raw candidate of the page `task` fetched:
/// unchanged unless the candidate survives, in which case its canonical key
/// is committed.
pub open spec fn spec_record_one(
    st: StateModel,
    cand: Seq<char>,
    task: TaskModel,
    pkey: Seq<char>,
    opts: &Options,
) -> StateModel {
    match resolve_spec(cand, task.url) {
        Some(abs) => if accept_spec(abs, opts) {
            match canonical_key_of(abs) {
                Some(key) => spec_commit(st, key, abs, task, pkey, opts),
                None => st,
            }
        } else {
            st
        },
        None => st,
    }
}

/// The state after processing the candidates in order.
pub open spec fn spec_record_list(
    st: StateModel,
    cands: Seq<Seq<char>>,
    task: TaskModel,
    pkey: Seq<char>,
    opts: &Options,
) -> StateModel
    decreases cands.len(),
{
    if cands.len() == 0 {
        st
    } else {
        spec_record_list(
            spec_record_one(st, cands[0], task, pkey, opts),
            cands.skip(1),
            task,
            pkey,
            opts,
        )
    }
}

/// How many of the candidates survive resolution, the filter, and
/// canonicalization.
pub open spec fn spec_survivors(cands: Seq<Seq<char>>, task: TaskModel, opts: &Options) -> int
    decreases cands.len(),
{
    if cands.len() == 0 {
        0
    } else {
        (if spec_survives(cands[0], task, opts) {
            1int
        } else {
            0int
        }) + spec_survivors(cands.skip(1), task, opts)
    }
}

/// Whether `record_page` goes on to its candidates: the page has a
/// canonical key, its node exists (or was just created within the cap), and
/// children at the next depth are still within the depth limit.
pub open spec fn spec_records_children(st: StateModel, task: TaskModel, opts: &Options) -> bool {
    &&& canonical_key_of(task.url) is Some
    &&& has_key(
        spec_ensure_node(st, canonical_key_of(task.url)->Some_0, opts).nodes,
        canonical_key_of(task.url)->Some_0,
    )
    &&& task.depth < opts.max_depth as int
}

/// The state after recording a fetched page: the page's own node is ensured
/// first; its candidates are processed only while the depth limit allows
/// children and the page's node exists.
pub open spec fn spec_record_page(
    st: StateModel,
    task: TaskModel,
    cands: Seq<Seq<char>>,
    opts: &Options,
) -> StateModel {
    match canonical_key_of(task.url) {
        None => st,
        Some(pkey) => {
            let st1 = spec_ensure_node(st, pkey, opts);
            if !has_key(st1.nodes, pkey) {
                st1
            } else if task.depth >= opts.max_depth as int {
                st1
            } else {
                spec_record_list(st1, cands, task, pkey, opts)
            }
        },
    }
}

proof fn lemma_record_list_snoc(
    st: StateModel,
    cands: Seq<Seq<char>>,
    k: int,
    task: TaskModel,
    pkey: Seq<char>,
    opts: &Options,
)
    requires
        0 <= k < cands.len(),
    ensures
        spec_record_list(st, cands.take(k + 1), task, pkey, opts) == spec_record_one(
            spec_record_list(st, cands.take(k), task, pkey, opts),
            cands[k],
            task,
            pkey,
            opts,
        ),
    decreases k,
{
    if k == 0 {
        let t1 = cands.take(1);
        assert(t1[0] == cands[0]);
        assert(t1.skip(1) =~= Seq::<Seq<char>>::empty());
        let st0 = spec_record_one(st, cands[0], task, pkey, opts);
        assert(spec_record_list(st, t1, task, pkey, opts) == spec_record_list(
            st0,
            t1.skip(1),
            task,
            pkey,
            opts,
        ));
        assert(spec_record_list(st0, t1.skip(1), task, pkey, opts) == st0);
        assert(cands.take(0) =~= Seq::<Seq<char>>::empty());
        assert(spec_record_list(st, cands.take(0), task, pkey, opts) == st);
    } else {
        let st0 = spec_record_one(st, cands[0], task, pkey, opts);
        let rest = cands.skip(1);
        assert(cands.take(k + 1)[0] == cands[0]);
        assert(cands.take(k)[0] == cands[0]);
        assert(cands.take(k + 1).skip(1) =~= rest.take(k));
        assert(cands.take(k).skip(1) =~= rest.take(k - 1));
        assert(spec_record_list(st, cands.take(k + 1), task, pkey, opts) == spec_record_list(
            st0,
            rest.take(k),
            task,
            pkey,
            opts,
        ));
        assert(spec_record_list(st, cands.take(k), task, pkey, opts) == spec_record_list(
            st0,
            rest.take(k - 1),
            task,
            pkey,
            opts,
        ));
        lemma_record_list_snoc(st0, rest, k - 1, task, pkey, opts);
        assert(rest[k - 1] == cands[k]);
    }
}

proof fn lemma_survivors_snoc(
    cands: Seq<Seq<char>>,
    k: int,
    task: TaskModel,
    opts: &Options,
)
    requires
        0 <= k < cands.len(),
    ensures
        spec_survivors(cands.take(k + 1), task, opts) == spec_survivors(
            cands.take(k),
            task,
            opts,
        ) + (if spec_survives(cands[k], task, opts) {
            1int
        } else {
            0int
        }),
    decreases k,
{
    if k == 0 {
        assert(cands.take(1)[0] == cands[0]);
        assert(cands.take(1).skip(1) =~= Seq::<Seq<char>>::empty());
        assert(cands.take(0) =~= Seq::<Seq<char>>::empty());
    } else {
        let rest = cands.skip(1);
        assert(cands.take(k + 1)[0] == cands[0]);
        assert(cands.take(k)[0] == cands[0]);
        assert(cands.take(k + 1).skip(1) =~= rest.take(k));
        assert(cands.take(k).skip(1) =~= rest.take(k - 1));
        lemma_survivors_snoc(rest, k - 1, task, opts);
        assert(rest[k - 1] == cands[k]);
    }
}

impl Analiser {
    /// Records a successfully fetched page: makes sure the page itself is a
    /// node (raising the stop flag instead when the cap is full), and, while
    /// the depth limit allows children, resolves, filters and canonicalizes
    /// each raw candidate of the content, adds an edge for every known key,
    /// and adds a node, an edge and a queued task one level deeper for every
    /// new key the cap still admits. Returns how many candidates survived
    /// the pipeline.
    pub fn record_page(&mut self, task: &UrlQueue, content: &str, opts: &Options) -> (n: usize)
        ensures
            final(self)@ == spec_record_page(
                old(self)@,
                task@,
                quoted_literals_of(content@),
                opts,
            ),
            spec_records_children(old(self)@, task@, opts) ==> n as int == spec_survivors(
                quoted_literals_of(content@),
                task@,
                opts,
            ),
            !spec_records_children(old(self)@, task@, opts) ==> n == 0,
            graph_wf(old(self)@.nodes) ==> graph_wf(final(self)@.nodes),
    {
        proof {
            if graph_wf(old(self)@.nodes) {
                crate::laws::lemma_record_page_wf(
                    old(self)@,
                    task@,
                    quoted_literals_of(content@),
                    opts,
                );
            }
        }
        let pkey = match canonical_key(task.url.as_str()) {
            None => {
                return 0;
            },
            Some(k) => k,
        };
        // Ensure the fetched page itself has a node.
        let ghost st0 = self@;
        proof {
            lemma_first_index_of(st0.nodes, pkey@);
        }
        if !self.graph.seen(pkey.as_str()) {
            if self.graph.size() < opts.max_urls {
                let node = UrlData::new(pkey.clone());
                let ghost nodeg = node@;
                proof {
                    assert(nodeg =~= spec_node(pkey@));
                    assert(first_index_of(st0.nodes, pkey@) == -1);
                }
                let _ = self.graph.add_or_get_pos(node);
                proof {
                    assert(self.graph@ == st0.nodes.push(nodeg));
                    assert(self.graph@[st0.nodes.len() as int].key == pkey@);
                }
            } else {
                self.stopped = true;
                proof {
                    assert(final(self)@ =~~= spec_ensure_node(st0, pkey@, opts));
                    assert(!has_key(final(self)@.nodes, pkey@));
                }
                return 0;
            }
        }
        proof {
            assert(self@ =~~= spec_ensure_node(st0, pkey@, opts));
            assert(has_key(self@.nodes, pkey@));
        }
        if task.depth >= opts.max_depth {
            return 0;
        }
        let ghost st1 = self@;
        let cands = extract_quoted(content);
        let ghost gcands = quoted_literals_of(content@);
        let len = cands.len();
        let mut n: usize = 0;
        let mut idx: usize = 0;
        proof {
            assert(gcands.take(0) =~= Seq::<Seq<char>>::empty());
        }
        while idx < len
            invariant
                len == cands@.len(),
                cands.deep_view() == gcands,
                idx <= len,
                n <= idx,
                self@ == spec_record_list(st1, gcands.take(idx as int), task@, pkey@, opts),
                n as int == spec_survivors(gcands.take(idx as int), task@, opts),
                task@.depth < opts.max_depth as int,
            decreases len - idx,
        {
            let ghost prev = self@;
            let cand = &cands[idx];
            proof {
                assert(cand@ == gcands[idx as int]);
            }
            match resolve(cand.as_str(), task.url.as_str()) {
                None => {},
                Some(abs) => {
                    if accept(abs.as_str(), opts) {
                        match canonical_key(abs.as_str()) {
                            None => {},
                            Some(key) => {
                                n = n + 1;
                                let ghost keyg = key@;
                                proof {
                                    lemma_first_index_of(prev.nodes, keyg);
                                }
                                let known = self.graph.seen(key.as_str());
                                if known {
                                    let node = UrlData::new(key);
                                    proof {
                                        assert(node@ =~= spec_node(keyg));
                                    }
                                    self.graph.add(node, pkey.as_str());
                                    proof {
                                        assert(self@ =~~= spec_commit(
                                            prev,
                                            keyg,
                                            abs@,
                                            task@,
                                            pkey@,
                                            opts,
                                        ));
                                    }
                                } else if self.graph.size() < opts.max_urls {
                                    let node = UrlData::new(key);
                                    proof {
                                        assert(node@ =~= spec_node(keyg));
                                        assert(first_index_of(prev.nodes, keyg) == -1);
                                    }
                                    self.graph.add(node, pkey.as_str());
                                    self.queue.push_back(
                                        UrlQueue {
                                            depth: task.depth + 1,
                                            url: abs,
                                            parent: task.url.clone(),
                                        },
                                    );
                                    proof {
                                        assert(self@.nodes == spec_add(
                                            prev.nodes,
                                            spec_node(keyg),
                                            pkey@,
                                        ));
                                        assert(self@.queue =~~= prev.queue.push(
                                            (TaskModel {
                                                depth: task@.depth + 1,
                                                url: abs@,
                                                parent: task@.url,
                                            }),
                                        ));
                                        assert(self@ =~~= spec_commit(
                                            prev,
                                            keyg,
                                            abs@,
                                            task@,
                                            pkey@,
                                            opts,
                                        ));
                                    }
                                } else {
                                    self.stopped = true;
                                    proof {
                                        assert(self@ =~~= spec_commit(
                                            prev,
                                            keyg,
                                            abs@,
                                            task@,
                                            pkey@,
                                            opts,
                                        ));
                                    }
                                }
                            },
                        }
                    }
                },
            }
            proof {
                assert(self@ == spec_record_one(prev, gcands[idx as int], task@, pkey@, opts));
                lemma_record_list_snoc(st1, gcands, idx as int, task@, pkey@, opts);
                lemma_survivors_snoc(gcands, idx as int, task@, opts);
            }
            idx = idx + 1;
        }
        proof {
            assert(gcands.take(len as int) =~= gcands);
        }
        n
    }
}

} // verus!
