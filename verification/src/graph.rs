//! The deduplicated link graph: one node per distinct URL key, ever, with
//! directed edges recorded as indices into the node list. Edge insertion is
//! idempotent and defensive: an unknown parent or an out-of-range child
//! leaves the graph unchanged.

pub mod urldata;

use vstd::prelude::*;

use crate::strutil::str_eq;
use crate::urldata::NodeModel;
use crate::urldata::UrlData;

verus! {

/// The index of the first node of `s` whose key is `k`, or `-1` if no node
/// has that key.
pub open spec fn first_index_of(s: Seq<NodeModel>, k: Seq<char>) -> int
    decreases s.len(),
{
    if s.len() == 0 {
        -1
    } else if s[0].key == k {
        0
    } else if first_index_of(s.skip(1), k) == -1 {
        -1
    } else {
        1 + first_index_of(s.skip(1), k)
    }
}

/// Some node of `s` has key `k`.
pub open spec fn has_key(s: Seq<NodeModel>, k: Seq<char>) -> bool {
    exists|i: int| 0 <= i < s.len() && s[i].key == k
}

/// What `first_index_of` finds: the first node with the key, or proof that
/// none has it.
pub proof fn lemma_first_index_of(s: Seq<NodeModel>, k: Seq<char>)
    ensures
        -1 <= first_index_of(s, k) < s.len(),
        first_index_of(s, k) == -1 ==> !has_key(s, k),
        first_index_of(s, k) >= 0 ==> {
            let r = first_index_of(s, k);
            &&& s[r].key == k
            &&& forall|i: int| 0 <= i < r ==> s[i].key != k
        },
    decreases s.len(),
{
    if s.len() == 0 {
    } else if s[0].key == k {
    } else {
        let st = s.skip(1);
        lemma_first_index_of(st, k);
        let rt = first_index_of(st, k);
        assert(forall|i: int| 1 <= i < s.len() ==> #[trigger] s[i] == st[i - 1]);
        if rt == -1 {
            assert(forall|i: int| 0 <= i < s.len() ==> s[i].key != k);
        } else {
            assert(first_index_of(s, k) == 1 + rt);
            assert(s[1 + rt].key == st[rt].key);
            assert(forall|i: int| 1 <= i < 1 + rt ==> #[trigger] s[i].key != k);
        }
    }
}

/// `s` with the edge `pi -> child` added, unless the parent index is out of
/// range, the child index does not name a node, or the edge is already there.
pub open spec fn push_edge_spec(s: Seq<NodeModel>, pi: int, child: usize) -> Seq<NodeModel> {
    if 0 <= pi < s.len() && (child as int) < s.len() && !s[pi].edges.contains(child) {
        s.update(pi, NodeModel { key: s[pi].key, edges: s[pi].edges.push(child) })
    } else {
        s
    }
}

/// `s` after `add`: the node is created unless its key is already present,
/// and the parent (if known) gains an edge to it.
pub open spec fn spec_add(s: Seq<NodeModel>, info: NodeModel, parent: Seq<char>) -> Seq<
    NodeModel,
> {
    let fi = first_index_of(s, info.key);
    let s1 = if fi >= 0 {
        s
    } else {
        s.push(info)
    };
    let child = if fi >= 0 {
        fi
    } else {
        s.len() as int
    };
    push_edge_spec(s1, first_index_of(s1, parent), child as usize)
}

/// Pushing a node with a fresh key and no edges keeps the graph well
/// formed.
pub proof fn lemma_push_node_wf(s: Seq<NodeModel>, info: NodeModel)
    requires
        graph_wf(s),
        info.edges.len() == 0,
        !has_key(s, info.key),
    ensures
        graph_wf(s.push(info)),
{
    let s1 = s.push(info);
    assert forall|i: int, j: int| 0 <= i < j < s1.len() implies s1[i].key != s1[j].key by {
        if j < s.len() {
            assert(s1[i] == s[i] && s1[j] == s[j]);
        } else {
            assert(s1[i] == s[i] && s1[j] == info);
        }
    }
    assert forall|i: int, e: int|
        0 <= i < s1.len() && 0 <= e < s1[i].edges.len() implies (s1[i].edges[e] as int)
        < s1.len() by {
        if i < s.len() {
            assert(s1[i] == s[i]);
        } else {
            assert(s1[i] == info);
        }
    }
}

/// Adding an edge keeps the graph well formed.
pub proof fn lemma_push_edge_wf(s: Seq<NodeModel>, pi: int, child: usize)
    requires
        graph_wf(s),
    ensures
        graph_wf(push_edge_spec(s, pi, child)),
{
    let s2 = push_edge_spec(s, pi, child);
    if 0 <= pi < s.len() && (child as int) < s.len() && !s[pi].edges.contains(child) {
        assert forall|i: int, j: int| 0 <= i < j < s2.len() implies s2[i].key != s2[j].key by {
            assert(s2[i].key == s[i].key && s2[j].key == s[j].key);
        }
        assert forall|i: int, e: int|
            0 <= i < s2.len() && 0 <= e < s2[i].edges.len() implies (s2[i].edges[e] as int)
            < s2.len() by {
            if i != pi {
                assert(s2[i] == s[i]);
            } else {
                assert(s2[pi].edges == s[pi].edges.push(child));
                if e < s[pi].edges.len() {
                    assert(s2[pi].edges[e] == s[pi].edges[e]);
                } else {
                    assert(s2[pi].edges[e] == child);
                }
            }
        }
    }
}

/// `spec_add` preserves well-formedness when the inserted node carries no
/// edges of its own.
pub proof fn lemma_spec_add_wf(s: Seq<NodeModel>, info: NodeModel, parent: Seq<char>)
    requires
        graph_wf(s),
        info.edges.len() == 0,
    ensures
        graph_wf(spec_add(s, info, parent)),
{
    lemma_first_index_of(s, info.key);
    let fi = first_index_of(s, info.key);
    let s1 = if fi >= 0 {
        s
    } else {
        s.push(info)
    };
    if fi == -1 {
        lemma_push_node_wf(s, info);
    }
    assert(graph_wf(s1));
    let child = if fi >= 0 {
        fi
    } else {
        s.len() as int
    };
    lemma_push_edge_wf(s1, first_index_of(s1, parent), child as usize);
}

/// No two nodes share a key, and every edge names an existing node.
pub open spec fn graph_wf(s: Seq<NodeModel>) -> bool {
    &&& forall|i: int, j: int| 0 <= i < j < s.len() ==> s[i].key != s[j].key
    &&& forall|i: int, e: int|
        0 <= i < s.len() && 0 <= e < s[i].edges.len() ==> (s[i].edges[e] as int) < s.len()
}

/// The link graph: an ordered list of nodes, deduplicated by URL key.
#[derive(Debug)]
pub struct Graph {
    pub urls: Vec<UrlData>,
}

impl View for Graph {
    type V = Seq<NodeModel>;

    open spec fn view(&self) -> Seq<NodeModel> {
        Seq::new(self.urls@.len(), |i: int| self.urls@[i]@)
    }
}

impl Graph {
    /// The empty graph.
    #[must_use]
    pub fn new() -> (r: Graph)
        ensures
            r@.len() == 0,
    {
        Graph { urls: Vec::new() }
    }

    /// The number of nodes.
    pub fn size(&self) -> (r: usize)
        ensures
            r == self@.len(),
    {
        self.urls.len()
    }

    /// Membership test: whether some node's key is `url`.
    pub fn seen(&self, url: &str) -> (r: bool)
        ensures
            r == has_key(self@, url@),
    {
        let r = self.get_parent_post(url);
        proof {
            lemma_first_index_of(self@, url@);
        }
        r.is_some()
    }

    /// The index of the first node whose key is `url`, if any.
    pub fn get_parent_post(&self, url: &str) -> (r: Option<usize>)
        ensures
            (r matches Some(i) ==> first_index_of(self@, url@) == i),
            r is None ==> first_index_of(self@, url@) == -1,
    {
        let n = self.urls.len();
        let mut i: usize = 0;
        while i < n
            invariant
                n == self@.len(),
                i <= n,
                forall|j: int| 0 <= j < i ==> self@[j].key != url@,
            decreases n - i,
        {
            if str_eq(self.urls[i].url.as_str(), url) {
                proof {
                    assert(self@[i as int].key == url@);
                    assert(has_key(self@, url@));
                    lemma_first_index_of(self@, url@);
                }
                return Some(i);
            }
            i = i + 1;
        }
        proof {
            lemma_first_index_of(self@, url@);
        }
        None
    }

    /// The index of the node with `info`'s key, adding `info` as a new node
    /// if no node has it yet.
    pub(crate) fn add_or_get_pos(&mut self, info: UrlData) -> (i: usize)
        ensures
            ({
                let fi = first_index_of(old(self)@, info@.key);
                &&& (fi >= 0 ==> final(self)@ == old(self)@ && i == fi)
                &&& (fi == -1 ==> final(self)@ == old(self)@.push(info@) && i == old(
                    self,
                )@.len())
            }),
    {
        let pos = self.get_parent_post(info.url.as_str());
        match pos {
            Some(i) => i,
            None => {
                let n = self.urls.len();
                self.urls.push(info);
                proof {
                    assert(final(self)@ =~= old(self)@.push(info@));
                }
                n
            },
        }
    }

    /// Adds the edge `parent_url -> child` unless the parent is unknown, the
    /// child index is out of range, or the edge is already recorded.
    pub fn add_edge(&mut self, parent_url: &str, child: usize)
        ensures
            final(self)@ == push_edge_spec(
                old(self)@,
                first_index_of(old(self)@, parent_url@),
                child,
            ),
    {
        let pos = self.get_parent_post(parent_url);
        proof {
            lemma_first_index_of(self@, parent_url@);
        }
        match pos {
            None => {},
            Some(pi) => {
                if child < self.urls.len() {
                    let n = self.urls[pi].point_to.len();
                    let mut k: usize = 0;
                    let mut present = false;
                    while k < n
                        invariant
                            pi < self.urls@.len(),
                            n == self@[pi as int].edges.len(),
                            k <= n,
                            present == exists|j: int|
                                0 <= j < k && self@[pi as int].edges[j] == child,
                        decreases n - k,
                    {
                        if self.urls[pi].point_to[k] == child {
                            present = true;
                        }
                        k = k + 1;
                    }
                    if !present {
                        assert(!self@[pi as int].edges.contains(child));
                        self.urls[pi].point_to.push(child);
                        proof {
                            assert(final(self)@ =~= push_edge_spec(
                                old(self)@,
                                first_index_of(old(self)@, parent_url@),
                                child,
                            ));
                        }
                    } else {
                        assert(self@[pi as int].edges.contains(child));
                    }
                }
            },
        }
    }

    /// Records `info` (deduplicated by key) and, when `parent_url` names a
    /// node, an edge from that node to `info`'s node.
    pub fn add(&mut self, info: UrlData, parent_url: &str)
        ensures
            final(self)@ == spec_add(old(self)@, info@, parent_url@),
            graph_wf(old(self)@) && info@.edges.len() == 0 ==> graph_wf(final(self)@),
    {
        proof {
            lemma_first_index_of(self@, info@.key);
        }
        let child = self.add_or_get_pos(info);
        self.add_edge(parent_url, child);
        proof {
            if graph_wf(old(self)@) && info@.edges.len() == 0 {
                lemma_spec_add_wf(old(self)@, info@, parent_url@);
            }
        }
    }
}

} // verus!
