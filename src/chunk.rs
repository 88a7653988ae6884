//! Splitting a profile into chunks: contiguous ranges of its samples, each
//! with the smallest set of nodes that keeps it a tree.
use crate::collections::{set_contents, IdSet};
use crate::decode::ProfileError;
use crate::model::{div_ceil, lemma_within_len, within, Node, Profile, Sample};
use vstd::prelude::*;

verus! {

/// A view of part of a profile: a contiguous range of its samples and the
/// ids of the nodes that range needs.
pub struct ProfileChunk<'a> {
    pub profile: &'a Profile,
    pub samples: &'a [Sample],
    pub included: IdSet,
}

/// The nodes a range of samples needs: every sampled node and each of its
/// ancestors.
pub open spec fn closure(p: &Profile, ss: Seq<Sample>) -> Set<u64> {
    Set::new(|a: u64| exists|k: int, d: nat| 0 <= k < ss.len() && p.ancestor(ss[k].node_id, d) == Some(a))
}

/// Whether each sample names a node of the profile.
pub open spec fn samples_in(p: &Profile, ss: Seq<Sample>) -> bool {
    forall|k: int| 0 <= k < ss.len() ==> p.has_node(#[trigger] ss[k].node_id)
}

/// Whether the parent of every member is a member too.
pub open spec fn upward_closed(p: &Profile, s: Set<u64>) -> bool {
    forall|x: u64| #[trigger] s.contains(x) && p.parent_of(x) is Some ==> s.contains(p.parent_of(x)->0)
}

/// In an upward-closed set, every ancestor of a member is a member.
proof fn lemma_closed_ancestors(p: &Profile, s: Set<u64>, id: u64, d: nat)
    requires
        upward_closed(p, s),
        s.contains(id),
    ensures
        p.ancestor(id, d) matches Some(a) ==> s.contains(a),
    decreases d,
{
    if d > 0 {
        lemma_closed_ancestors(p, s, id, (d - 1) as nat);
    }
}

/// A node of a chunk: the profile's node, seen through the chunk's set of
/// included ids.
pub struct FilteredNode<'a> {
    pub node: &'a Node,
    pub included: &'a IdSet,
}

/// The ids of `s` that are in `inc`, in their order.
pub open spec fn kept_ids(s: Seq<u64>, inc: Set<u64>) -> Seq<u64>
    decreases s.len(),
{
    if s.len() == 0 {
        Seq::empty()
    } else if inc.contains(s.last()) {
        kept_ids(s.drop_last(), inc).push(s.last())
    } else {
        kept_ids(s.drop_last(), inc)
    }
}

/// The nodes of `ns` whose ids are in `inc`, in their order.
pub open spec fn kept_nodes(ns: Seq<Node>, inc: Set<u64>) -> Seq<Node>
    decreases ns.len(),
{
    if ns.len() == 0 {
        Seq::empty()
    } else if inc.contains(ns.last().id) {
        kept_nodes(ns.drop_last(), inc).push(ns.last())
    } else {
        kept_nodes(ns.drop_last(), inc)
    }
}

impl<'a> FilteredNode<'a> {
    /// The node's children list, keeping only the included children; `None`
    /// where the node has no list.
    pub fn children(&self) -> (r: Option<Vec<u64>>)
        ensures
            match self.node.children {
                Some(c) => r matches Some(k) && k@ == kept_ids(c@, set_contents(*self.included)),
                None => r is None,
            },
    {
        match &self.node.children {
            None => None,
            Some(c) => {
                let ghost inc = set_contents(*self.included);
                let mut out: Vec<u64> = Vec::new();
                let mut i: usize = 0;
                while i < c.len()
                    invariant
                        i <= c.len(),
                        inc == set_contents(*self.included),
                        out@ == kept_ids(c@.take(i as int), inc),
                    decreases c.len() - i,
                {
                    let x = c[i];
                    assert(c@.take(i + 1).drop_last() =~= c@.take(i as int));
                    if self.included.contains(x) {
                        out.push(x);
                    }
                    i = i + 1;
                }
                assert(c@.take(c.len() as int) =~= c@);
                Some(out)
            },
        }
    }
}

impl<'a> ProfileChunk<'a> {
    /// The included nodes, in the profile's order.
    pub fn nodes(&self) -> (r: Vec<FilteredNode<'_>>)
        ensures
            r@.map_values(|f: FilteredNode| *f.node) == kept_nodes(self.profile.nodes@, self.included_view()),
            forall|j: int| 0 <= j < r@.len() ==> *(#[trigger] r@[j]).included == self.included,
    {
        let ghost inc = self.included_view();
        let ns = &self.profile.nodes;
        let mut out: Vec<FilteredNode<'_>> = Vec::new();
        let mut i: usize = 0;
        while i < ns.len()
            invariant
                i <= ns.len(),
                inc == self.included_view(),
                ns@ == self.profile.nodes@,
                out@.map_values(|f: FilteredNode| *f.node) == kept_nodes(ns@.take(i as int), inc),
                forall|j: int| 0 <= j < out@.len() ==> *(#[trigger] out@[j]).included == self.included,
            decreases ns.len() - i,
        {
            let n = &ns[i];
            assert(ns@.take(i + 1).drop_last() =~= ns@.take(i as int));
            if self.included.contains(n.id) {
                let ghost before = out@;
                out.push(FilteredNode { node: n, included: &self.included });
                assert(out@.map_values(|f: FilteredNode| *f.node) =~= before.map_values(|f: FilteredNode| *f.node).push(*n));
            }
            i = i + 1;
        }
        assert(ns@.take(ns.len() as int) =~= ns@);
        out
    }

    /// Whether the chunk includes the node with this id.
    pub fn includes(&self, id: u64) -> (r: bool)
        ensures
            r == self.included_view().contains(id),
    {
        self.included.contains(id)
    }

    /// The ids of the nodes this chunk includes.
    pub open spec fn included_view(&self) -> Set<u64> {
        set_contents(self.included)
    }

    /// Collects the nodes a range of samples needs.  For each sample whose
    /// node is new, walks up the parent links and stops at the first node
    /// already collected: everything above it is collected too.
    pub fn new(profile: &'a Profile, samples: &'a [Sample]) -> (r: ProfileChunk<'a>)
        requires
            profile.wf(),
            samples_in(profile, samples@),
        ensures
            r.profile == profile,
            r.samples@ == samples@,
            r.included_view() == closure(profile, samples@),
    {
        let mut included = IdSet::new();
        let mut i: usize = 0;
        while i < samples.len()
            invariant
                profile.wf(),
                samples_in(profile, samples@),
                i <= samples.len(),
                within(profile, set_contents(included)),
                upward_closed(profile, set_contents(included)),
                forall|j: int| 0 <= j < i ==> set_contents(included).contains(#[trigger] samples@[j].node_id),
                forall|x: u64| #[trigger] set_contents(included).contains(x) ==>
                    exists|k: int, d: nat| 0 <= k < i && profile.ancestor(samples@[k].node_id, d) == Some(x),
            decreases samples.len() - i,
        {
            let id = samples[i].node_id;
            assert(profile.has_node(samples@[i as int].node_id));
            if included.insert(id) {
                assert(profile.ancestor(id, 0) == Some(id));
                let mut cur = id;
                let ghost mut d: nat = 0;
                proof {
                    lemma_within_len(profile, set_contents(included));
                }
                loop
                    invariant
                        profile.wf(),
                        i < samples.len(),
                        id == samples@[i as int].node_id,
                        within(profile, set_contents(included)),
                        set_contents(included).len() <= profile.nodes@.len(),
                        set_contents(included).finite(),
                        set_contents(included).contains(cur),
                        set_contents(included).contains(id),
                        profile.ancestor(id, d) == Some(cur),
                        forall|x: u64| #[trigger] set_contents(included).contains(x) && x != cur
                            && profile.parent_of(x) is Some ==> set_contents(included).contains(profile.parent_of(x)->0),
                        forall|j: int| 0 <= j < i ==> set_contents(included).contains(#[trigger] samples@[j].node_id),
                        forall|x: u64| #[trigger] set_contents(included).contains(x) ==>
                            exists|k: int, e: nat| 0 <= k <= i && profile.ancestor(samples@[k].node_id, e) == Some(x),
                    ensures
                        upward_closed(profile, set_contents(included)),
                    decreases profile.nodes@.len() - set_contents(included).len(),
                {
                    let node = profile.index(cur);
                    match node.parent_id {
                        None => {
                            break;
                        },
                        Some(p) => {
                            assert(profile.parent_of(cur) == Some(p));
                            assert(profile.ancestor(id, d + 1) == Some(p));
                            let ghost before = set_contents(included);
                            if !included.insert(p) {
                                assert(set_contents(included) =~= before);
                                break;
                            }
                            proof {
                                lemma_within_len(profile, set_contents(included));
                                assert(set_contents(included).len() == before.len() + 1);
                                d = d + 1;
                            }
                            cur = p;
                        },
                    }
                }
            }
            i = i + 1;
        }
        proof {
            let s = set_contents(included);
            assert forall|a: u64| s.contains(a) <==> closure(profile, samples@).contains(a) by {
                if closure(profile, samples@).contains(a) {
                    let (k, d) = choose|k: int, d: nat| 0 <= k < samples@.len()
                        && profile.ancestor(samples@[k].node_id, d) == Some(a);
                    lemma_closed_ancestors(profile, s, samples@[k].node_id, d);
                }
            }
            assert(s =~= closure(profile, samples@));
        }
        ProfileChunk { profile, samples, included }
    }
}

/// How many samples each chunk takes when `len` samples go into `n` chunks.
pub open spec fn chunk_len(len: int, n: int) -> int {
    (len + n - 1) / n
}

/// The samples of the `i`-th chunk of size `sz`.
pub open spec fn chunk_range(ss: Seq<Sample>, sz: int, i: int) -> Seq<Sample> {
    let end = if i * sz + sz <= ss.len() { i * sz + sz } else { ss.len() as int };
    ss.subrange(i * sz, end)
}

/// Whether `v` is `p` split into chunks for a request of `n`: chunks of
/// `chunk_len` samples in order, the last one possibly shorter, none empty,
/// each with the closure of its samples.
pub open spec fn chunks_of(p: &Profile, n: int, v: Seq<ProfileChunk>) -> bool {
    let len = p.samples@.len() as int;
    let sz = chunk_len(len, n);
    &&& n > 0
    &&& forall|i: int| 0 <= i < v.len() ==> #[trigger] (i * sz) < len
    &&& v.len() * sz >= len
    &&& forall|i: int| 0 <= i < v.len() ==> (#[trigger] v[i]).profile == p
        && v[i].samples@ == chunk_range(p.samples@, sz, i)
        && v[i].included_view() == closure(p, v[i].samples@)
}

impl Profile {
    /// Splits the samples into at most `chunk_num` contiguous chunks of
    /// `ceil(len / chunk_num)` samples each; zero chunks is refused.
    pub fn chunks<'a>(&'a self, chunk_num: usize) -> (r: Result<Vec<ProfileChunk<'a>>, ProfileError>)
        requires
            self.wf(),
        ensures
            r is Err <==> chunk_num == 0,
            r is Err ==> r matches Err(ProfileError::InvalidArgument),
            r matches Ok(v) ==> chunks_of(self, chunk_num as int, v@),
    {
        if chunk_num == 0 {
            return Err(ProfileError::InvalidArgument);
        }
        let len = self.samples.len();
        let sz = div_ceil(len, chunk_num);
        proof {
            if len > 0 {
                assert(sz >= 1) by (nonlinear_arith)
                    requires sz == (len + chunk_num - 1) / (chunk_num as int), len >= 1, chunk_num >= 1;
            }
        }
        let mut v: Vec<ProfileChunk<'a>> = Vec::new();
        let mut start: usize = 0;
        assert(v.len() * sz == 0) by (nonlinear_arith)
            requires v.len() == 0;
        while start < len
            invariant
                self.wf(),
                chunk_num > 0,
                len == self.samples@.len(),
                sz == chunk_len(len as int, chunk_num as int),
                len > 0 ==> sz >= 1,
                start <= len,
                start < len ==> start == v.len() * sz,
                start == len ==> v.len() * sz >= len,
                forall|i: int| 0 <= i < v.len() ==> #[trigger] (i * sz) < len,
                forall|i: int| 0 <= i < v.len() ==> (#[trigger] v@[i]).profile == self
                    && v@[i].samples@ == chunk_range(self.samples@, sz as int, i)
                    && v@[i].included_view() == closure(self, v@[i].samples@),
            decreases len - start,
        {
            let end = if len - start > sz { start + sz } else { len };
            let part = vstd::slice::slice_subrange(self.samples.as_slice(), start, end);
            proof {
                assert forall|k: int| 0 <= k < part@.len() implies self.has_node(#[trigger] part@[k].node_id) by {
                    assert(part@[k] == self.samples@[start + k]);
                }
            }
            let c = ProfileChunk::new(self, part);
            let ghost i = v.len() as int;
            v.push(c);
            proof {
                assert(v@[i].samples@ == chunk_range(self.samples@, sz as int, i));
                assert((i + 1) * sz == i * sz + sz) by (nonlinear_arith);
            }
            start = end;
        }
        proof {
            if len == 0 {
                assert(v.len() * sz >= 0) by (nonlinear_arith)
                    requires sz >= 0;
            }
        }
        Ok(v)
    }
}

/// Every ancestor of a node sampled in a chunk is included in that chunk.
pub proof fn chunk_closure_complete(p: &Profile, n: int, v: Seq<ProfileChunk>, i: int, k: int, d: nat)
    requires
        p.wf(),
        chunks_of(p, n, v),
        0 <= i < v.len(),
        0 <= k < v[i].samples@.len(),
        p.ancestor(v[i].samples@[k].node_id, d) is Some,
    ensures
        v[i].included_view().contains(p.ancestor(v[i].samples@[k].node_id, d)->0),
{
    assert(v[i].included_view() == closure(p, v[i].samples@));
}

/// Every node a chunk includes is sampled in that chunk or is an ancestor of
/// a node sampled there.
pub proof fn chunk_closure_minimal(p: &Profile, n: int, v: Seq<ProfileChunk>, i: int, x: u64)
    requires
        p.wf(),
        chunks_of(p, n, v),
        0 <= i < v.len(),
        v[i].included_view().contains(x),
    ensures
        exists|k: int, d: nat| 0 <= k < v[i].samples@.len() && p.ancestor(v[i].samples@[k].node_id, d) == Some(x),
{
    assert(v[i].included_view() == closure(p, v[i].samples@));
}

/// A request for `n` chunks gives at most `n` chunks, and at least one when
/// the profile has a sample.
pub proof fn chunk_count_bound(p: &Profile, n: int, v: Seq<ProfileChunk>)
    requires
        p.wf(),
        chunks_of(p, n, v),
    ensures
        v.len() <= n,
        p.samples@.len() >= 1 ==> v.len() >= 1,
{
    let len = p.samples@.len() as int;
    let sz = chunk_len(len, n);
    if v.len() > 0 {
        let last = v.len() - 1;
        assert(last * sz < len);
        assert(n * sz >= len) by (nonlinear_arith)
            requires sz == (len + n - 1) / n, n > 0, len >= 0;
        assert(last < n) by (nonlinear_arith)
            requires last * sz < len, n * sz >= len, sz >= 0, last >= 0;
    }
    if len >= 1 && v.len() == 0 {
        assert(v.len() * sz == 0);
    }
}

/// The chunks' samples, concatenated in order, are the profile's samples.
pub proof fn chunks_cover_samples(p: &Profile, n: int, v: Seq<ProfileChunk>)
    requires
        p.wf(),
        chunks_of(p, n, v),
    ensures
        v.map_values(|c: ProfileChunk| c.samples@).flatten() == p.samples@,
{
    let len = p.samples@.len() as int;
    let sz = chunk_len(len, n);
    let cs = v.map_values(|c: ProfileChunk| c.samples@);
    if len == 0 {
        if v.len() > 0 {
            assert(0 * sz < len);
        }
        assert(cs.len() == 0);
        assert(p.samples@ =~= Seq::<Sample>::empty());
    } else {
        assert(sz >= 1) by (nonlinear_arith)
            requires sz == (len + n - 1) / n, len >= 1, n >= 1;
        if v.len() == 0 {
            assert(v.len() * sz == 0);
        }
        lemma_ranges_flatten(p.samples@, sz, cs, 0);
        assert(p.samples@.subrange(0, len) =~= p.samples@);
    }
}

proof fn lemma_ranges_flatten(s: Seq<Sample>, sz: int, cs: Seq<Seq<Sample>>, i0: int)
    requires
        sz >= 1,
        0 <= i0,
        i0 * sz < s.len(),
        cs.len() >= 1,
        forall|j: int| 0 <= j < cs.len() ==> #[trigger] cs[j] == chunk_range(s, sz, i0 + j),
        (i0 + cs.len()) * sz >= s.len(),
        (i0 + cs.len() - 1) * sz < s.len(),
    ensures
        cs.flatten() == s.subrange(i0 * sz, s.len() as int),
    decreases cs.len(),
{
    let len = s.len() as int;
    assert(cs[0] == chunk_range(s, sz, i0));
    assert((i0 + 1) * sz == i0 * sz + sz) by (nonlinear_arith);
    if cs.len() == 1 {
        assert(cs.drop_first() =~= Seq::<Seq<Sample>>::empty());
        assert(cs.drop_first().flatten() =~= Seq::<Sample>::empty());
        assert(cs.flatten() =~= cs[0]);
    } else {
        let rest = cs.drop_first();
        assert((i0 + 1 + rest.len()) == i0 + cs.len());
        assert((i0 + 1) * sz <= (i0 + cs.len() - 1) * sz) by (nonlinear_arith)
            requires cs.len() >= 2, sz >= 1;
        assert forall|j: int| 0 <= j < rest.len() implies #[trigger] rest[j] == chunk_range(s, sz, (i0 + 1) + j) by {
            assert(rest[j] == cs[j + 1]);
        }
        lemma_ranges_flatten(s, sz, rest, i0 + 1);
        assert(cs.flatten() == cs.first() + rest.flatten());
        assert(cs[0] + s.subrange(i0 * sz + sz, len) =~= s.subrange(i0 * sz, len));
    }
}

} // verus!
