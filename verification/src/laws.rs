//! The global guarantees of the crawl state machine, stated over the
//! mathematical model of the state and proved once and for all: the node
//! cap is never exceeded and freezes node creation, nothing already
//! recorded is ever lost, every new node and every new task can be traced
//! to the fetched page or to a candidate that passed the filter, and past
//! the depth limit a page spawns nothing.

use vstd::prelude::*;

use crate::accept_spec;
use crate::graph::first_index_of;
use crate::graph::graph_wf;
use crate::graph::has_key;
use crate::graph::lemma_first_index_of;
use crate::graph::lemma_push_node_wf;
use crate::graph::lemma_spec_add_wf;
use crate::graph::push_edge_spec;
use crate::spec_commit;
use crate::spec_ensure_node;
use crate::spec_node;
use crate::spec_record_list;
use crate::spec_record_one;
use crate::spec_record_page;
use crate::spec_survives;
use crate::strutil::contains_seq;
use crate::urldata::canonical_key_of;
use crate::urldata::has_excluded_extension;
use crate::urldata::resolve_spec;
use crate::urldata::NodeModel;
use crate::Options;
use crate::StateModel;
use crate::TaskModel;

verus! {

/// Candidate `j` survives the pipeline and canonicalizes to the key `k`.
pub open spec fn candidate_yields_key(
    cands: Seq<Seq<char>>,
    j: int,
    task: TaskModel,
    opts: &Options,
    k: Seq<char>,
) -> bool {
    &&& 0 <= j < cands.len()
    &&& spec_survives(cands[j], task, opts)
    &&& k == canonical_key_of(resolve_spec(cands[j], task.url)->Some_0)->Some_0
}

/// Candidate `j` resolves to an accepted URL whose crawl task is `t`.
pub open spec fn candidate_yields_task(
    cands: Seq<Seq<char>>,
    j: int,
    task: TaskModel,
    opts: &Options,
    t: TaskModel,
) -> bool {
    &&& 0 <= j < cands.len()
    &&& match resolve_spec(cands[j], task.url) {
        Some(abs) => accept_spec(abs, opts) && t == (TaskModel {
            depth: task.depth + 1,
            url: abs,
            parent: task.url,
        }),
        None => false,
    }
}

/// Some candidate survives the pipeline and canonicalizes to the key `k`.
pub open spec fn node_from_candidate(
    cands: Seq<Seq<char>>,
    task: TaskModel,
    opts: &Options,
    k: Seq<char>,
) -> bool {
    exists|j: int| candidate_yields_key(cands, j, task, opts, k)
}

/// Some candidate resolves to an accepted URL whose crawl task is `t`.
pub open spec fn task_from_candidate(
    cands: Seq<Seq<char>>,
    task: TaskModel,
    opts: &Options,
    t: TaskModel,
) -> bool {
    exists|j: int| candidate_yields_task(cands, j, task, opts, t)
}

proof fn lemma_push_edge_keys(s: Seq<NodeModel>, pi: int, child: usize)
    ensures
        push_edge_spec(s, pi, child).len() == s.len(),
        forall|i: int| 0 <= i < s.len() ==> push_edge_spec(s, pi, child)[i].key == s[i].key,
{
    let r = push_edge_spec(s, pi, child);
    assert forall|i: int| 0 <= i < s.len() implies r[i].key == s[i].key by {
        if 0 <= pi < s.len() && (child as int) < s.len() && !s[pi].edges.contains(child) {
            if i != pi {
                assert(r[i] == s[i]);
            }
        }
    }
}

proof fn lemma_record_one_effects(
    st: StateModel,
    cand: Seq<char>,
    task: TaskModel,
    pkey: Seq<char>,
    opts: &Options,
)
    ensures
        ({
            let fin = spec_record_one(st, cand, task, pkey, opts);
            &&& st.nodes.len() <= fin.nodes.len() <= st.nodes.len() + 1
            &&& (fin.nodes.len() > st.nodes.len() ==> st.nodes.len() < opts.max_urls)
            &&& forall|i: int| 0 <= i < st.nodes.len() ==> fin.nodes[i].key == st.nodes[i].key
            &&& (fin.nodes.len() > st.nodes.len() ==> spec_survives(cand, task, opts)
                && fin.nodes[st.nodes.len() as int].key == canonical_key_of(
                resolve_spec(cand, task.url)->Some_0,
            )->Some_0)
            &&& st.queue.len() <= fin.queue.len() <= st.queue.len() + 1
            &&& forall|i: int| 0 <= i < st.queue.len() ==> fin.queue[i] == st.queue[i]
            &&& (fin.queue.len() > st.queue.len() ==> match resolve_spec(cand, task.url) {
                Some(abs) => accept_spec(abs, opts) && fin.queue[st.queue.len() as int] == (
                TaskModel { depth: task.depth + 1, url: abs, parent: task.url }),
                None => false,
            })
        }),
{
    if resolve_spec(cand, task.url) is Some {
        let abs = resolve_spec(cand, task.url)->Some_0;
        if accept_spec(abs, opts) && canonical_key_of(abs) is Some {
            let key = canonical_key_of(abs)->Some_0;
            let ci = first_index_of(st.nodes, key);
            lemma_first_index_of(st.nodes, key);
            if ci >= 0 {
                lemma_push_edge_keys(st.nodes, first_index_of(st.nodes, pkey), ci as usize);
            } else if st.nodes.len() < opts.max_urls {
                let s1 = st.nodes.push(spec_node(key));
                lemma_push_edge_keys(
                    s1,
                    first_index_of(s1, pkey),
                    (s1.len() - 1) as usize,
                );
            }
        }
    }
}

proof fn lemma_record_list_effects(
    st: StateModel,
    cands: Seq<Seq<char>>,
    task: TaskModel,
    pkey: Seq<char>,
    opts: &Options,
)
    ensures
        ({
            let fin = spec_record_list(st, cands, task, pkey, opts);
            &&& st.nodes.len() <= fin.nodes.len()
            &&& (st.nodes.len() <= opts.max_urls ==> fin.nodes.len() <= opts.max_urls)
            &&& (st.nodes.len() >= opts.max_urls ==> fin.nodes.len() == st.nodes.len())
            &&& forall|i: int| 0 <= i < st.nodes.len() ==> fin.nodes[i].key == st.nodes[i].key
            &&& forall|i: int|
                #![trigger fin.nodes[i]]
                st.nodes.len() <= i < fin.nodes.len() ==> node_from_candidate(
                    cands,
                    task,
                    opts,
                    fin.nodes[i].key,
                )
            &&& st.queue.len() <= fin.queue.len()
            &&& forall|i: int| 0 <= i < st.queue.len() ==> fin.queue[i] == st.queue[i]
            &&& forall|i: int|
                #![trigger fin.queue[i]]
                st.queue.len() <= i < fin.queue.len() ==> task_from_candidate(
                    cands,
                    task,
                    opts,
                    fin.queue[i],
                )
        }),
    decreases cands.len(),
{
    if cands.len() == 0 {
        assert(spec_record_list(st, cands, task, pkey, opts) == st);
    } else {
        let st0 = spec_record_one(st, cands[0], task, pkey, opts);
        lemma_record_one_effects(st, cands[0], task, pkey, opts);
        let rest = cands.skip(1);
        lemma_record_list_effects(st0, rest, task, pkey, opts);
        let fin = spec_record_list(st, cands, task, pkey, opts);
        assert(fin == spec_record_list(st0, rest, task, pkey, opts));
        assert forall|i: int| 0 <= i < st.nodes.len() implies fin.nodes[i].key
            == st.nodes[i].key by {
            assert(fin.nodes[i].key == st0.nodes[i].key);
        }
        assert forall|i: int|
            #![trigger fin.nodes[i]]
            st.nodes.len() <= i < fin.nodes.len() implies node_from_candidate(
            cands,
            task,
            opts,
            fin.nodes[i].key,
        ) by {
            if i < st0.nodes.len() {
                assert(i == st.nodes.len());
                assert(fin.nodes[i].key == st0.nodes[i].key);
                assert(candidate_yields_key(cands, 0, task, opts, fin.nodes[i].key));
            } else {
                let j0 = choose|j: int|
                    candidate_yields_key(rest, j, task, opts, fin.nodes[i].key);
                assert(rest[j0] == cands[j0 + 1]);
                assert(candidate_yields_key(cands, j0 + 1, task, opts, fin.nodes[i].key));
            }
        }
        assert forall|i: int| 0 <= i < st.queue.len() implies fin.queue[i] == st.queue[i] by {
            assert(fin.queue[i] == st0.queue[i]);
        }
        assert(st.nodes.len() <= fin.nodes.len());
        assert(st.nodes.len() <= opts.max_urls ==> fin.nodes.len() <= opts.max_urls);
        assert(st.nodes.len() >= opts.max_urls ==> fin.nodes.len() == st.nodes.len());
        assert(st.queue.len() <= fin.queue.len());
        assert forall|i: int|
            #![trigger fin.queue[i]]
            st.queue.len() <= i < fin.queue.len() implies task_from_candidate(
            cands,
            task,
            opts,
            fin.queue[i],
        ) by {
            if i < st0.queue.len() {
                assert(i == st.queue.len());
                assert(fin.queue[i] == st0.queue[i]);
                assert(candidate_yields_task(cands, 0, task, opts, fin.queue[i]));
            } else {
                let j0 = choose|j: int|
                    candidate_yields_task(rest, j, task, opts, fin.queue[i]);
                assert(rest[j0] == cands[j0 + 1]);
                assert(candidate_yields_task(cands, j0 + 1, task, opts, fin.queue[i]));
            }
        }
    }
}

/// What recording one fetched page can do to the crawl state, whatever the
/// content held. The graph never exceeds the node cap, and at the cap no
/// node is ever created; nodes and queued tasks already present survive
/// unchanged in place; every new node is the fetched page itself or the
/// canonical key of a candidate that resolved and passed the filter; every
/// new task comes from a candidate that resolved and passed the filter, one
/// level deeper than the page; and a page at or beyond the depth limit
/// enqueues nothing and contributes no node but its own.
pub proof fn lemma_record_page_effects(
    st: StateModel,
    task: TaskModel,
    cands: Seq<Seq<char>>,
    opts: &Options,
)
    ensures
        ({
            let fin = spec_record_page(st, task, cands, opts);
            &&& st.nodes.len() <= fin.nodes.len()
            &&& (st.nodes.len() <= opts.max_urls ==> fin.nodes.len() <= opts.max_urls)
            &&& (st.nodes.len() >= opts.max_urls ==> fin.nodes.len() == st.nodes.len())
            &&& forall|i: int| 0 <= i < st.nodes.len() ==> fin.nodes[i].key == st.nodes[i].key
            &&& forall|i: int|
                #![trigger fin.nodes[i]]
                st.nodes.len() <= i < fin.nodes.len() ==> fin.nodes[i].key == canonical_key_of(
                    task.url,
                )->Some_0 || node_from_candidate(cands, task, opts, fin.nodes[i].key)
            &&& st.queue.len() <= fin.queue.len()
            &&& forall|i: int| 0 <= i < st.queue.len() ==> fin.queue[i] == st.queue[i]
            &&& forall|i: int|
                #![trigger fin.queue[i]]
                st.queue.len() <= i < fin.queue.len() ==> task_from_candidate(
                    cands,
                    task,
                    opts,
                    fin.queue[i],
                )
            &&& (task.depth >= opts.max_depth as int ==> fin.queue == st.queue
                && fin.nodes.len() <= st.nodes.len() + 1)
        }),
{
    if canonical_key_of(task.url) is Some {
        let pkey = canonical_key_of(task.url)->Some_0;
        let st1 = spec_ensure_node(st, pkey, opts);
        lemma_first_index_of(st.nodes, pkey);
        assert(st1.queue == st.queue);
        assert(st.nodes.len() <= st1.nodes.len() <= st.nodes.len() + 1);
        assert(forall|i: int| 0 <= i < st.nodes.len() ==> st1.nodes[i].key == st.nodes[i].key);
        assert(st1.nodes.len() > st.nodes.len() ==> st1.nodes[st.nodes.len() as int].key
            == pkey);
        lemma_record_list_effects(st1, cands, task, pkey, opts);
        let fin = spec_record_page(st, task, cands, opts);
        assert forall|i: int| 0 <= i < st.nodes.len() implies fin.nodes[i].key
            == st.nodes[i].key by {
            assert(fin.nodes[i].key == st1.nodes[i].key);
        }
        assert forall|i: int|
            #![trigger fin.nodes[i]]
            st.nodes.len() <= i < fin.nodes.len() implies fin.nodes[i].key == canonical_key_of(
            task.url,
        )->Some_0 || node_from_candidate(cands, task, opts, fin.nodes[i].key) by {
            if i < st1.nodes.len() {
                assert(fin.nodes[i].key == st1.nodes[i].key);
            }
        }
    }
}

/// A candidate whose URL ends in an excluded file extension never passes
/// the filter, so it never becomes a graph node and is never enqueued.
pub proof fn lemma_excluded_extension_rejected(c: Seq<char>, opts: &Options)
    requires
        has_excluded_extension(c),
    ensures
        !accept_spec(c, opts),
{
}

/// A candidate containing a configured ignore string never passes the
/// filter, so it never becomes a graph node and is never enqueued.
pub proof fn lemma_ignored_substring_rejected(c: Seq<char>, opts: &Options, i: int)
    requires
        0 <= i < opts.ignore_strs@.len(),
        contains_seq(c, opts.ignore_strs@[i]@),
    ensures
        !accept_spec(c, opts),
{
}

/// A candidate that does not contain the configured match string never
/// passes the filter.
pub proof fn lemma_unmatched_rejected(c: Seq<char>, opts: &Options)
    requires
        !contains_seq(c, opts.match_str@),
    ensures
        !accept_spec(c, opts),
{
}

/// Canonicalization is a pure function of the URL string alone: equal
/// strings always canonicalize to equal keys, however often recomputed.
pub proof fn lemma_canonical_key_stable(u1: Seq<char>, u2: Seq<char>)
    requires
        u1 == u2,
    ensures
        canonical_key_of(u1) == canonical_key_of(u2),
{
}

/// Recording a page preserves the graph invariants: no duplicate keys, and
/// every edge names an existing node.
pub proof fn lemma_record_page_wf(
    st: StateModel,
    task: TaskModel,
    cands: Seq<Seq<char>>,
    opts: &Options,
)
    requires
        graph_wf(st.nodes),
    ensures
        graph_wf(spec_record_page(st, task, cands, opts).nodes),
{
    if canonical_key_of(task.url) is Some {
        let pkey = canonical_key_of(task.url)->Some_0;
        let st1 = spec_ensure_node(st, pkey, opts);
        lemma_first_index_of(st.nodes, pkey);
        if first_index_of(st.nodes, pkey) == -1 && st.nodes.len() < opts.max_urls {
            lemma_push_node_wf(st.nodes, spec_node(pkey));
        }
        assert(graph_wf(st1.nodes));
        lemma_record_list_wf(st1, cands, task, pkey, opts);
    }
}

proof fn lemma_record_list_wf(
    st: StateModel,
    cands: Seq<Seq<char>>,
    task: TaskModel,
    pkey: Seq<char>,
    opts: &Options,
)
    requires
        graph_wf(st.nodes),
    ensures
        graph_wf(spec_record_list(st, cands, task, pkey, opts).nodes),
    decreases cands.len(),
{
    if cands.len() > 0 {
        let st0 = spec_record_one(st, cands[0], task, pkey, opts);
        lemma_record_one_wf(st, cands[0], task, pkey, opts);
        lemma_record_list_wf(st0, cands.skip(1), task, pkey, opts);
    }
}

proof fn lemma_record_one_wf(
    st: StateModel,
    cand: Seq<char>,
    task: TaskModel,
    pkey: Seq<char>,
    opts: &Options,
)
    requires
        graph_wf(st.nodes),
    ensures
        graph_wf(spec_record_one(st, cand, task, pkey, opts).nodes),
{
    if resolve_spec(cand, task.url) is Some {
        let abs = resolve_spec(cand, task.url)->Some_0;
        if accept_spec(abs, opts) && canonical_key_of(abs) is Some {
            let key = canonical_key_of(abs)->Some_0;
            let ci = first_index_of(st.nodes, key);
            if ci >= 0 || st.nodes.len() < opts.max_urls {
                lemma_spec_add_wf(st.nodes, spec_node(key), pkey);
            }
        }
    }
}

proof fn lemma_first_index_same_keys(s1: Seq<NodeModel>, s2: Seq<NodeModel>, k: Seq<char>)
    requires
        s1.len() == s2.len(),
        forall|i: int| 0 <= i < s1.len() ==> s1[i].key == s2[i].key,
    ensures
        first_index_of(s1, k) == first_index_of(s2, k),
    decreases s1.len(),
{
    if s1.len() > 0 {
        assert(forall|i: int| 0 <= i < s1.skip(1).len() ==> #[trigger] s1.skip(1)[i].key
            == s2.skip(1)[i].key);
        lemma_first_index_same_keys(s1.skip(1), s2.skip(1), k);
    }
}

proof fn lemma_first_index_push(s: Seq<NodeModel>, n: NodeModel, k: Seq<char>)
    requires
        !has_key(s, k),
    ensures
        first_index_of(s.push(n), k) == if n.key == k {
            s.len() as int
        } else {
            -1
        },
    decreases s.len(),
{
    reveal_with_fuel(first_index_of, 3);
    let sp = s.push(n);
    if s.len() == 0 {
        assert(sp.len() == 1);
        assert(sp[0] == n);
        assert(sp.skip(1) =~= Seq::<NodeModel>::empty());
    } else {
        assert(sp[0] == s[0]);
        assert(s[0].key != k);
        assert(sp.skip(1) =~= s.skip(1).push(n));
        assert(!has_key(s.skip(1), k)) by {
            assert(forall|i: int| 0 <= i < s.skip(1).len() ==> #[trigger] s.skip(1)[i]
                == s[i + 1]);
        }
        lemma_first_index_push(s.skip(1), n, k);
    }
}

proof fn lemma_push_edge_idempotent(s: Seq<NodeModel>, pi: int, child: usize)
    ensures
        push_edge_spec(push_edge_spec(s, pi, child), pi, child) == push_edge_spec(
            s,
            pi,
            child,
        ),
{
    let s1 = push_edge_spec(s, pi, child);
    if 0 <= pi < s.len() && (child as int) < s.len() && !s[pi].edges.contains(child) {
        assert(s1[pi].edges == s[pi].edges.push(child));
        assert(s1[pi].edges[s[pi].edges.len() as int] == child);
        assert(s1[pi].edges.contains(child));
    }
}

/// Committing the same discovery twice leaves the state exactly as after
/// the first commit: node creation is first-writer-wins and edge addition
/// is idempotent, so a replayed discovery — whichever worker raced to it
/// first — cannot change the node set, the edge set, or the frontier.
pub proof fn lemma_commit_idempotent(
    st: StateModel,
    key: Seq<char>,
    abs: Seq<char>,
    task: TaskModel,
    pkey: Seq<char>,
    opts: &Options,
)
    ensures
        spec_commit(spec_commit(st, key, abs, task, pkey, opts), key, abs, task, pkey, opts)
            == spec_commit(st, key, abs, task, pkey, opts),
{
    let st1 = spec_commit(st, key, abs, task, pkey, opts);
    let ci = first_index_of(st.nodes, key);
    lemma_first_index_of(st.nodes, key);
    if ci >= 0 {
        let pi = first_index_of(st.nodes, pkey);
        lemma_push_edge_keys(st.nodes, pi, ci as usize);
        lemma_first_index_same_keys(st1.nodes, st.nodes, key);
        lemma_first_index_same_keys(st1.nodes, st.nodes, pkey);
        lemma_push_edge_idempotent(st.nodes, pi, ci as usize);
    } else if st.nodes.len() < opts.max_urls {
        let s1 = st.nodes.push(spec_node(key));
        let pi1 = first_index_of(s1, pkey);
        lemma_push_edge_keys(s1, pi1, (s1.len() - 1) as usize);
        lemma_first_index_push(st.nodes, spec_node(key), key);
        lemma_first_index_same_keys(st1.nodes, s1, key);
        lemma_first_index_same_keys(st1.nodes, s1, pkey);
        assert(first_index_of(st1.nodes, key) == st.nodes.len() as int);
        lemma_push_edge_idempotent(s1, pi1, (s1.len() - 1) as usize);
        assert(spec_commit(st1, key, abs, task, pkey, opts).queue == st1.queue);
    } else {
        lemma_first_index_same_keys(st1.nodes, st.nodes, key);
    }
}

} // verus!
