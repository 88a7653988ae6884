//! The in-memory profile: nodes of the call tree, samples, and the index
//! from node id to position.
use crate::collections::{index_entries, set_contents, IdSet, NodeIndex};
use vstd::prelude::*;

verus! {

/// One profiler observation: the node that ran, at an absolute time in
/// microseconds.  Samples compare and order by time alone.
#[derive(Debug, Default, Clone, Copy, Eq)]
pub struct Sample {
    pub node_id: u64,
    pub ts: u64,
}

impl PartialEq for Sample {
    fn eq(&self, other: &Sample) -> (r: bool) {
        self.ts == other.ts
    }
}

impl vstd::std_specs::cmp::PartialEqSpecImpl for Sample {
    open spec fn obeys_eq_spec() -> bool {
        true
    }

    open spec fn eq_spec(&self, other: &Sample) -> bool {
        self.ts == other.ts
    }
}

impl PartialOrd for Sample {
    fn partial_cmp(&self, other: &Sample) -> (r: Option<core::cmp::Ordering>) {
        if self.ts < other.ts {
            Some(core::cmp::Ordering::Less)
        } else if self.ts == other.ts {
            Some(core::cmp::Ordering::Equal)
        } else {
            Some(core::cmp::Ordering::Greater)
        }
    }
}

impl vstd::std_specs::cmp::PartialOrdSpecImpl for Sample {
    open spec fn obeys_partial_cmp_spec() -> bool {
        true
    }

    open spec fn partial_cmp_spec(&self, other: &Sample) -> Option<core::cmp::Ordering> {
        if self.ts < other.ts {
            Some(core::cmp::Ordering::Less)
        } else if self.ts == other.ts {
            Some(core::cmp::Ordering::Equal)
        } else {
            Some(core::cmp::Ordering::Greater)
        }
    }
}

/// A node of the call tree.  The call frame and the two optional payloads
/// are JSON text kept exactly as it stood in the input.
#[derive(Debug)]
pub struct Node {
    pub id: u64,
    pub parent_id: Option<u64>,
    pub call_frame: String,
    pub hit_count: u32,
    pub children: Option<Vec<u64>>,
    pub deopt_reason: Option<String>,
    pub position_ticks: Option<String>,
}

/// What a node holds, as mathematical values.
pub struct NodeView {
    pub id: u64,
    pub parent_id: Option<u64>,
    pub call_frame: Seq<char>,
    pub hit_count: u32,
    pub children: Option<Seq<u64>>,
    pub deopt_reason: Option<Seq<char>>,
    pub position_ticks: Option<Seq<char>>,
}

/// The view of an optional string.
pub open spec fn opt_text(s: Option<String>) -> Option<Seq<char>> {
    match s {
        Some(t) => Some(t@),
        None => None,
    }
}

/// The view of an optional list of ids.
pub open spec fn opt_ids(c: Option<Vec<u64>>) -> Option<Seq<u64>> {
    match c {
        Some(v) => Some(v@),
        None => None,
    }
}

impl View for Node {
    type V = NodeView;

    open spec fn view(&self) -> NodeView {
        NodeView {
            id: self.id,
            parent_id: self.parent_id,
            call_frame: self.call_frame@,
            hit_count: self.hit_count,
            children: opt_ids(self.children),
            deopt_reason: opt_text(self.deopt_reason),
            position_ticks: opt_text(self.position_ticks),
        }
    }
}

/// A decoded profile.  Nodes keep their document order; samples are sorted
/// by time.
pub struct Profile {
    pub nodes: Vec<Node>,
    pub start_time: u64,
    pub end_time: u64,
    pub samples: Vec<Sample>,
    pub node_index: NodeIndex,
}

/// Whether the samples are in ascending time order.
pub open spec fn sorted_by_ts(s: Seq<Sample>) -> bool {
    forall|i: int, j: int| 0 <= i <= j < s.len() ==> s[i].ts <= s[j].ts
}

impl Profile {
    /// The index from node id to position.
    pub open spec fn index_view(&self) -> Map<u64, usize> {
        index_entries(self.node_index)
    }

    /// Whether the profile has a node with this id.
    pub open spec fn has_node(&self, id: u64) -> bool {
        self.index_view().contains_key(id)
    }

    /// The position of the node with this id.
    pub open spec fn position(&self, id: u64) -> int {
        self.index_view()[id] as int
    }

    /// The parent link of the node with this id.
    pub open spec fn parent_of(&self, id: u64) -> Option<u64> {
        self.nodes@[self.position(id)].parent_id
    }

    /// The ancestor `k` steps up from `id` (`id` itself for `k == 0`), if
    /// the chain of parent links reaches that far.
    pub open spec fn ancestor(&self, id: u64, k: nat) -> Option<u64>
        decreases k,
    {
        if k == 0 {
            Some(id)
        } else {
            match self.ancestor(id, (k - 1) as nat) {
                Some(a) => self.parent_of(a),
                None => None,
            }
        }
    }

    /// Whether `a` is `id` or one of its ancestors.
    pub open spec fn reaches(&self, id: u64, a: u64) -> bool {
        exists|k: nat| self.ancestor(id, k) == Some(a)
    }

    /// The ids of all nodes.
    pub open spec fn ids(&self) -> Set<u64> {
        self.nodes@.map_values(|n: Node| n.id).to_set()
    }

    /// The index and the node sequence agree, ids are unique, every parent
    /// link and every sample names a node of the profile.
    pub open spec fn wf(&self) -> bool {
        &&& forall|id: u64| #[trigger]
            self.has_node(id) ==> 0 <= self.position(id) < self.nodes.len() && self.nodes@[self.position(id)].id == id
        &&& forall|i: int|
            0 <= i < self.nodes.len() ==> #[trigger] self.has_node(self.nodes@[i].id)
                && self.position(self.nodes@[i].id) == i
        &&& forall|id: u64| #[trigger]
            self.has_node(id) && self.parent_of(id) is Some ==> self.has_node(self.parent_of(id)->0)
        &&& forall|i: int|
            0 <= i < self.samples.len() ==> #[trigger] self.has_node(self.samples@[i].node_id)
    }

    /// The node with this id.
    pub fn index(&self, node_id: u64) -> (r: &Node)
        requires
            self.wf(),
            self.has_node(node_id),
        ensures
            *r == self.nodes@[self.position(node_id)],
    {
        let pos = self.node_index.get(node_id);
        match pos {
            Some(p) => &self.nodes[p],
            None => {
                assert(false);
                &self.nodes[0]
            },
        }
    }

    /// The ancestors of a node, nearest first, up to a root.  Where the
    /// parent links run in a cycle, the walk stops before the first id it
    /// has already listed.
    pub fn parent_ids_iter(&self, node_id: u64) -> (r: Vec<u64>)
        requires
            self.wf(),
            self.has_node(node_id),
        ensures
            forall|i: int| 0 <= i < r.len() ==> self.ancestor(node_id, (i + 1) as nat) == Some(#[trigger] r@[i]),
            match self.ancestor(node_id, (r.len() + 1) as nat) {
                None => true,
                Some(a) => a == node_id || r@.contains(a),
            },
    {
        let mut seen = IdSet::new();
        seen.insert(node_id);
        let mut r: Vec<u64> = Vec::new();
        let mut cur = node_id;
        proof {
            lemma_within_len(self, set_contents(seen));
        }
        loop
            invariant
                self.wf(),
                self.has_node(cur),
                within(self, set_contents(seen)),
                set_contents(seen).finite(),
                set_contents(seen).len() <= self.nodes@.len(),
                forall|x: u64| #[trigger] set_contents(seen).contains(x) <==> (x == node_id || r@.contains(x)),
                self.ancestor(node_id, r.len() as nat) == Some(cur),
                forall|i: int| 0 <= i < r.len() ==> self.ancestor(node_id, (i + 1) as nat) == Some(#[trigger] r@[i]),
            decreases self.nodes@.len() - set_contents(seen).len(),
        {
            let node = self.index(cur);
            match node.parent_id {
                Some(p) => {
                    assert(self.parent_of(cur) == Some(p));
                    assert(self.ancestor(node_id, (r.len() + 1) as nat) == Some(p));
                    let ghost before = set_contents(seen);
                    if !seen.insert(p) {
                        return r;
                    }
                    proof {
                        lemma_within_len(self, set_contents(seen));
                    }
                    let ghost old_r = r@;
                    r.push(p);
                    proof {
                        assert forall|x: u64| #[trigger] set_contents(seen).contains(x) <==> (x == node_id || r@.contains(x)) by {
                            if old_r.contains(x) {
                                let k = choose|k: int| 0 <= k < old_r.len() && old_r[k] == x;
                                assert(r@[k] == x);
                            }
                            if r@.contains(x) && x != p {
                                let k = choose|k: int| 0 <= k < r@.len() && r@[k] == x;
                                assert(old_r[k] == x);
                            }
                            if x == p {
                                assert(r@[old_r.len() as int] == p);
                            }
                        }
                    }
                    cur = p;
                },
                None => {
                    return r;
                },
            }
        }
    }
}

/// Whether every member names a node of the profile.
pub open spec fn within(p: &Profile, s: Set<u64>) -> bool {
    forall|x: u64| #[trigger] s.contains(x) ==> p.has_node(x)
}

/// The number of ids a set within the profile can hold at most.
pub proof fn lemma_within_len(p: &Profile, s: Set<u64>)
    requires
        p.wf(),
        within(p, s),
    ensures
        s.finite(),
        s.len() <= p.nodes@.len(),
{
    let ids = p.nodes@.map_values(|n: Node| n.id);
    assert forall|x: u64| s.contains(x) implies ids.to_set().contains(x) by {
        assert(ids[p.position(x)] == x);
    }
    ids.lemma_cardinality_of_set();
    vstd::set_lib::lemma_len_subset(s, ids.to_set());
}

/// `duration` moved by a signed number of microseconds.
pub fn offset_duration(duration: u64, offset_micros: i32) -> (r: u64)
    requires
        0 <= duration + offset_micros <= u64::MAX,
    ensures
        r == duration + offset_micros,
{
    if offset_micros < 0 {
        let abs: u64 = (0 - (offset_micros as i64)) as u64;
        duration - abs
    } else {
        duration + offset_micros as u64
    }
}

/// `n / d` rounded up.
pub fn div_ceil(n: usize, d: usize) -> (r: usize)
    requires
        d > 0,
    ensures
        r == (n + d - 1) / (d as int),
{
    let q = n / d;
    let m = n % d;
    proof {
        assert(n == q * d + m) by (nonlinear_arith)
            requires q == n / d, m == n % d, d > 0;
        if m == 0 {
            assert((n + d - 1) / (d as int) == q) by (nonlinear_arith)
                requires n == q * d, d > 0;
        } else {
            assert((n + d - 1) / (d as int) == q + 1) by (nonlinear_arith)
                requires n == q * d + m, 0 < m < d;
            assert(q < n) by (nonlinear_arith)
                requires n == q * d + m, 0 < m < d;
        }
    }
    if m == 0 {
        q
    } else {
        q + 1
    }
}

} // verus!
