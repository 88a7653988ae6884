//! Building a profile from decoded parts: the id index, parent links
//! derived from children lists, absolute sample times and their order.
use crate::collections::{index_entries, NodeIndex};
use crate::decode::ProfileError;
use crate::model::{offset_duration, sorted_by_ts, Node, Profile, Sample};
use vstd::prelude::*;

verus! {

/// Whether node `q`'s children list holds `c`.
pub open spec fn lists(ns: Seq<Node>, q: int, c: u64) -> bool {
    0 <= q < ns.len() && ns[q].children is Some && ns[q].children->0@.contains(c)
}

/// Whether some node carries this id.
pub open spec fn has_id(ns: Seq<Node>, id: u64) -> bool {
    exists|i: int| 0 <= i < ns.len() && ns[i].id == id
}

/// Whether no two nodes share an id.
pub open spec fn unique_ids(ns: Seq<Node>) -> bool {
    forall|i: int, j: int| 0 <= i < j < ns.len() ==> ns[i].id != ns[j].id
}

/// Whether the index maps exactly the nodes' ids to their positions.
pub open spec fn indexes(m: Map<u64, usize>, ns: Seq<Node>) -> bool {
    &&& forall|id: u64| #[trigger] m.contains_key(id) <==> has_id(ns, id)
    &&& forall|i: int| 0 <= i < ns.len() ==> #[trigger] m[ns[i].id] == i
}

/// A node with its parent link replaced.
pub open spec fn with_parent(n: Node, p: Option<u64>) -> Node {
    Node { parent_id: p, ..n }
}

/// Whether each child named in a children list is a node of the sequence.
pub open spec fn children_exist(ns: Seq<Node>) -> bool {
    forall|q: int, c: u64| #[trigger] lists(ns, q, c) ==> has_id(ns, c)
}

/// Whether a children list names `c` and no node has that id.
pub open spec fn dangling_child(ns: Seq<Node>, c: u64) -> bool {
    exists|q: int| lists(ns, q, c) && !has_id(ns, c)
}

/// Whether `linked` is `ns` with parent links derived from children lists:
/// a node listed by some node gets one of its listers as parent, a node
/// that no node lists gets none.
pub open spec fn parents_derived(ns: Seq<Node>, linked: Seq<Node>) -> bool {
    &&& linked.len() == ns.len()
    &&& forall|i: int| 0 <= i < ns.len() ==> #[trigger] linked[i] == with_parent(ns[i], linked[i].parent_id)
    &&& forall|i: int| 0 <= i < ns.len() && (#[trigger] linked[i]).parent_id is Some ==>
        exists|q: int| #[trigger] lists(ns, q, ns[i].id) && ns[q].id == linked[i].parent_id->0
    &&& forall|i: int, q: int| 0 <= i < ns.len() && (#[trigger] linked[i]).parent_id is None ==>
        !#[trigger] lists(ns, q, ns[i].id)
}

/// Builds the index from node id to position; fails on the first id that
/// occurs twice.
pub fn index_nodes(nodes: &Vec<Node>) -> (r: Result<NodeIndex, ProfileError>)
    ensures
        r is Ok <==> unique_ids(nodes@),
        r matches Ok(ix) ==> indexes(index_entries(ix), nodes@),
        r matches Err(e) ==> e matches ProfileError::DuplicateNode(x)
            && exists|i: int, j: int| 0 <= i < j < nodes@.len() && nodes@[i].id == x && nodes@[j].id == x,
{
    let mut ix = NodeIndex::new();
    let mut i: usize = 0;
    while i < nodes.len()
        invariant
            i <= nodes.len(),
            forall|id: u64| #[trigger] index_entries(ix).contains_key(id)
                <==> exists|j: int| 0 <= j < i && nodes@[j].id == id,
            forall|j: int| 0 <= j < i ==> #[trigger] index_entries(ix)[nodes@[j].id] == j,
            forall|a: int, b: int| 0 <= a < b < i ==> nodes@[a].id != nodes@[b].id,
        decreases nodes.len() - i,
    {
        let id = nodes[i].id;
        if ix.get(id).is_some() {
            proof {
                let j = choose|j: int| 0 <= j < i && nodes@[j].id == id;
                assert(!unique_ids(nodes@)) by {
                    assert(nodes@[j].id == nodes@[i as int].id);
                }
            }
            return Err(ProfileError::DuplicateNode(id));
        }
        ix.insert(id, i);
        proof {
            assert forall|id2: u64| #[trigger] index_entries(ix).contains_key(id2)
                <==> exists|j: int| 0 <= j < i + 1 && nodes@[j].id == id2 by {
                if id2 == id {
                    assert(nodes@[i as int].id == id2);
                }
            }
        }
        i = i + 1;
    }
    proof {
        assert forall|id: u64| #[trigger] index_entries(ix).contains_key(id) <==> has_id(nodes@, id) by {
            if has_id(nodes@, id) {
                let j = choose|j: int| 0 <= j < nodes@.len() && nodes@[j].id == id;
                assert(exists|j2: int| 0 <= j2 < i && nodes@[j2].id == id);
            }
        }
    }
    Ok(ix)
}

/// Sets each listed child's parent link to the node that lists it; fails
/// when a children list names an id that no node has.
pub fn link_parents(nodes: &mut Vec<Node>, ix: &NodeIndex) -> (r: Result<(), ProfileError>)
    requires
        indexes(index_entries(*ix), old(nodes)@),
        forall|i: int| 0 <= i < old(nodes)@.len() ==> (#[trigger] old(nodes)@[i]).parent_id is None,
    ensures
        r is Ok <==> children_exist(old(nodes)@),
        r is Ok ==> parents_derived(old(nodes)@, final(nodes)@),
        r is Err ==> r matches Err(ProfileError::DanglingReference(_)),
        r matches Err(ProfileError::DanglingReference(c)) ==> dangling_child(old(nodes)@, c),
{
    let ghost ns = nodes@;
    let n = nodes.len();
    let mut q: usize = 0;
    while q < n
        invariant
            n == ns.len(),
            ns == old(nodes)@,
            q <= n,
            indexes(index_entries(*ix), ns),
            nodes@.len() == n,
            forall|i: int| 0 <= i < n ==> #[trigger] nodes@[i] == with_parent(ns[i], nodes@[i].parent_id),
            forall|i: int| 0 <= i < n && (#[trigger] nodes@[i]).parent_id is Some ==>
                exists|q2: int| #[trigger] lists(ns, q2, ns[i].id) && ns[q2].id == nodes@[i].parent_id->0,
            forall|i: int, q2: int| 0 <= i < n && (#[trigger] nodes@[i]).parent_id is None && q2 < q ==>
                !#[trigger] lists(ns, q2, ns[i].id),
            forall|q2: int, c: u64| q2 < q && #[trigger] lists(ns, q2, c) ==> has_id(ns, c),
        decreases n - q,
    {
        let kids: Vec<u64> = match &nodes[q].children {
            Some(v) => v.clone(),
            None => Vec::new(),
        };
        let pid = nodes[q].id;
        assert(kids@ =~= (if ns[q as int].children is Some { ns[q as int].children->0@ } else { Seq::<u64>::empty() }));
        let mut k: usize = 0;
        while k < kids.len()
            invariant
                n == ns.len(),
                ns == old(nodes)@,
                q < n,
                k <= kids.len(),
                pid == ns[q as int].id,
                kids@ == (if ns[q as int].children is Some { ns[q as int].children->0@ } else { Seq::<u64>::empty() }),
                indexes(index_entries(*ix), ns),
                nodes@.len() == n,
                forall|i: int| 0 <= i < n ==> #[trigger] nodes@[i] == with_parent(ns[i], nodes@[i].parent_id),
                forall|i: int| 0 <= i < n && (#[trigger] nodes@[i]).parent_id is Some ==>
                    exists|q2: int| #[trigger] lists(ns, q2, ns[i].id) && ns[q2].id == nodes@[i].parent_id->0,
                forall|i: int, q2: int| 0 <= i < n && (#[trigger] nodes@[i]).parent_id is None && q2 < q ==>
                    !#[trigger] lists(ns, q2, ns[i].id),
                forall|i: int, k2: int| 0 <= i < n && (#[trigger] nodes@[i]).parent_id is None && 0 <= k2 < k ==>
                    #[trigger] kids@[k2] != ns[i].id,
                forall|q2: int, c: u64| q2 < q && #[trigger] lists(ns, q2, c) ==> has_id(ns, c),
                forall|k2: int| 0 <= k2 < k ==> has_id(ns, #[trigger] kids@[k2]),
            decreases kids.len() - k,
        {
            let c = kids[k];
            match ix.get(c) {
                None => {
                    proof {
                        assert(kids@.contains(c));
                        assert(lists(ns, q as int, c));
                        assert(!index_entries(*ix).contains_key(c));
                        assert(!has_id(ns, c));
                        assert(!children_exist(ns));
                        assert(dangling_child(ns, c));
                    }
                    return Err(ProfileError::DanglingReference(c));
                },
                Some(pos) => {
                    proof {
                        let j = choose|j: int| 0 <= j < ns.len() && ns[j].id == c;
                        assert(index_entries(*ix)[ns[j].id] == j);
                        assert(kids@.contains(c));
                        assert(lists(ns, q as int, c));
                    }
                    let ghost before = nodes@;
                    nodes[pos].parent_id = Some(pid);
                    proof {
                        assert forall|i: int| 0 <= i < n && (#[trigger] nodes@[i]).parent_id is Some implies
                            exists|q2: int| #[trigger] lists(ns, q2, ns[i].id) && ns[q2].id == nodes@[i].parent_id->0 by {
                            if i == pos as int {
                                assert(lists(ns, q as int, ns[i].id));
                            } else {
                                assert(nodes@[i] == before[i]);
                            }
                        }
                        assert forall|i: int| 0 <= i < n implies #[trigger] nodes@[i] == with_parent(ns[i], nodes@[i].parent_id) by {
                            if i != pos as int {
                                assert(nodes@[i] == before[i]);
                            }
                        }
                    }
                },
            }
            k = k + 1;
        }
        proof {
            assert forall|q2: int, c: u64| q2 < q + 1 && #[trigger] lists(ns, q2, c) implies has_id(ns, c) by {
                if q2 == q as int {
                    let k2 = choose|k2: int| 0 <= k2 < kids@.len() && kids@[k2] == c;
                    assert(has_id(ns, kids@[k2]));
                }
            }
            assert forall|i: int, q2: int| 0 <= i < n && (#[trigger] nodes@[i]).parent_id is None && q2 < q + 1 implies
                !#[trigger] lists(ns, q2, ns[i].id) by {
                if q2 == q as int && lists(ns, q2, ns[i].id) {
                    let k2 = choose|k2: int| 0 <= k2 < kids@.len() && kids@[k2] == ns[i].id;
                    assert(kids@[k2] != ns[i].id);
                }
            }
        }
        q = q + 1;
    }
    proof {
        assert forall|i: int, q2: int| 0 <= i < ns.len() && (#[trigger] nodes@[i]).parent_id is None implies
            !#[trigger] lists(ns, q2, ns[i].id) by {
            if q2 >= n as int || q2 < 0 {
                assert(!lists(ns, q2, ns[i].id));
            }
        }
        assert forall|q2: int, c: u64| #[trigger] lists(ns, q2, c) implies has_id(ns, c) by {
            assert(q2 < n);
        }
    }
    Ok(())
}

/// The running sum of the first `k` time deltas.
pub open spec fn time_at(d: Seq<i32>, k: int) -> int
    decreases k,
{
    if k <= 0 || k > d.len() {
        0
    } else {
        time_at(d, k - 1) + d[k - 1]
    }
}

/// Whether every running sum of the deltas fits in `0..=u64::MAX`.
pub open spec fn times_in_range(d: Seq<i32>) -> bool {
    forall|k: int| 0 <= k <= d.len() ==> 0 <= #[trigger] time_at(d, k) <= u64::MAX
}

/// The `k`-th sample in document order: its node id from `ids` and its time
/// from the deltas, each zero where its list is shorter.
pub open spec fn raw_sample(ids: Seq<u64>, d: Seq<i32>, k: int) -> Sample {
    Sample {
        node_id: if k < ids.len() { ids[k] } else { 0 },
        ts: if k < d.len() { time_at(d, k + 1) as u64 } else { 0 },
    }
}

/// The samples in document order, as many as the longer of the two lists.
pub open spec fn raw_samples(ids: Seq<u64>, d: Seq<i32>) -> Seq<Sample> {
    let n = if ids.len() >= d.len() { ids.len() } else { d.len() };
    Seq::new(n, |k: int| raw_sample(ids, d, k))
}

/// Pairs the node ids with absolute times accumulated from the deltas.
pub fn build_samples(ids: &Vec<u64>, deltas: &Vec<i32>) -> (r: Result<Vec<Sample>, ProfileError>)
    ensures
        r is Ok <==> times_in_range(deltas@),
        r matches Ok(v) ==> v@ == raw_samples(ids@, deltas@),
        r is Err ==> r matches Err(ProfileError::TimeOutOfRange),
{
    let n = if ids.len() >= deltas.len() { ids.len() } else { deltas.len() };
    let mut out: Vec<Sample> = Vec::new();
    let mut acc: u64 = 0;
    let mut k: usize = 0;
    while k < n
        invariant
            n == (if ids.len() >= deltas.len() { ids.len() } else { deltas.len() }),
            k <= n,
            out.len() == k,
            forall|j: int| 0 <= j < k ==> #[trigger] out@[j] == raw_sample(ids@, deltas@, j),
            forall|j: int| 0 <= j <= k && j <= deltas.len() ==> 0 <= #[trigger] time_at(deltas@, j) <= u64::MAX,
            acc == (if k <= deltas.len() { time_at(deltas@, k as int) } else { time_at(deltas@, deltas.len() as int) }),
        decreases n - k,
    {
        let node_id = if k < ids.len() { ids[k] } else { 0 };
        let ts = if k < deltas.len() {
            let d = deltas[k];
            let t: i128 = acc as i128 + d as i128;
            if t < 0 || t > u64::MAX as i128 {
                proof {
                    assert(time_at(deltas@, k + 1) == acc + d);
                }
                return Err(ProfileError::TimeOutOfRange);
            }
            acc = offset_duration(acc, d);
            acc
        } else {
            0
        };
        out.push(Sample { node_id, ts });
        k = k + 1;
    }
    proof {
        assert forall|j: int| 0 <= j <= deltas.len() implies 0 <= #[trigger] time_at(deltas@, j) <= u64::MAX by {
            assert(j <= k);
        }
    }
    assert(out@ =~= raw_samples(ids@, deltas@));
    Ok(out)
}

/// The samples of `s` taken at time `t`, in their order.
pub open spec fn at_time(s: Seq<Sample>, t: u64) -> Seq<Sample>
    decreases s.len(),
{
    if s.len() == 0 {
        Seq::empty()
    } else if s.last().ts == t {
        at_time(s.drop_last(), t).push(s.last())
    } else {
        at_time(s.drop_last(), t)
    }
}

proof fn lemma_at_time_concat(x: Seq<Sample>, y: Seq<Sample>, t: u64)
    ensures
        at_time(x + y, t) == at_time(x, t) + at_time(y, t),
    decreases y.len(),
{
    if y.len() == 0 {
        assert(x + y =~= x);
        assert(at_time(x, t) + at_time(y, t) =~= at_time(x, t));
    } else {
        assert((x + y).drop_last() =~= x + y.drop_last());
        assert((x + y).last() == y.last());
        lemma_at_time_concat(x, y.drop_last(), t);
        if y.last().ts == t {
            assert(at_time(x, t) + at_time(y.drop_last(), t).push(y.last())
                =~= (at_time(x, t) + at_time(y.drop_last(), t)).push(y.last()));
        }
    }
}

/// Merges two time-sorted runs; on equal times the first run goes first.
fn merge(a: &Vec<Sample>, b: &Vec<Sample>) -> (r: Vec<Sample>)
    requires
        sorted_by_ts(a@),
        sorted_by_ts(b@),
    ensures
        sorted_by_ts(r@),
        r@.to_multiset() == a@.to_multiset().add(b@.to_multiset()),
        forall|t: u64| #[trigger] at_time(r@, t) == at_time(a@, t) + at_time(b@, t),
{
    let mut out: Vec<Sample> = Vec::new();
    let mut i: usize = 0;
    let mut j: usize = 0;
    proof {
        assert(out@ =~= Seq::<Sample>::empty());
        assert(a@.subrange(0, 0) =~= Seq::<Sample>::empty());
        assert(b@.subrange(0, 0) =~= Seq::<Sample>::empty());
        vstd::seq_lib::lemma_multiset_commutative(Seq::<Sample>::empty(), Seq::<Sample>::empty());
        assert(Seq::<Sample>::empty() + Seq::<Sample>::empty() =~= Seq::<Sample>::empty());
        assert forall|t: u64| #[trigger] at_time(out@, t) == at_time(a@.subrange(0, 0), t) + at_time(b@.subrange(0, 0), t) by {
            assert(at_time(a@.subrange(0, 0), t) + at_time(b@.subrange(0, 0), t) =~= Seq::<Sample>::empty());
        }
    }
    while i < a.len() || j < b.len()
        invariant
            sorted_by_ts(a@),
            sorted_by_ts(b@),
            i <= a.len(),
            j <= b.len(),
            sorted_by_ts(out@),
            out@.len() > 0 && i < a.len() ==> out@.last().ts <= a@[i as int].ts,
            out@.len() > 0 && j < b.len() ==> out@.last().ts <= b@[j as int].ts,
            i < a.len() ==> forall|m: int| 0 <= m < j ==> #[trigger] b@[m].ts < a@[i as int].ts,
            out@.to_multiset() == a@.subrange(0, i as int).to_multiset().add(b@.subrange(0, j as int).to_multiset()),
            forall|t: u64| #[trigger] at_time(out@, t) == at_time(a@.subrange(0, i as int), t) + at_time(b@.subrange(0, j as int), t),
        decreases a.len() + b.len() - i - j,
    {
        let take_a = j >= b.len() || (i < a.len() && a[i].ts <= b[j].ts);
        let ghost before = out@;
        let ghost sa = a@.subrange(0, i as int);
        let ghost sb = b@.subrange(0, j as int);
        if take_a {
            let x = a[i];
            out.push(x);
            proof {
                vstd::seq_lib::to_multiset_build(before, x);
                vstd::seq_lib::to_multiset_build(sa, x);
                assert(a@.subrange(0, i + 1) =~= sa.push(x));
                assert(at_time(sb, x.ts) =~= Seq::<Sample>::empty()) by {
                    if at_time(sb, x.ts).len() > 0 {
                        lemma_at_time_member(sb, x.ts);
                        let m = choose|m: int| 0 <= m < sb.len() && sb[m].ts == x.ts;
                        assert(b@[m].ts < a@[i as int].ts);
                    }
                }
                assert forall|t: u64| #[trigger] at_time(out@, t) == at_time(a@.subrange(0, i + 1), t) + at_time(sb, t) by {
                    assert(out@.drop_last() =~= before);
                    assert(sa.push(x).drop_last() =~= sa);
                    assert(at_time(before, t) == at_time(sa, t) + at_time(sb, t));
                    if t == x.ts {
                        assert(at_time(out@, t) == at_time(before, t).push(x));
                        assert(at_time(a@.subrange(0, i + 1), t) == at_time(sa, t).push(x));
                        assert(at_time(out@, t) =~= at_time(sa, t).push(x) + at_time(sb, t));
                    } else {
                        assert(at_time(out@, t) == at_time(before, t));
                        assert(at_time(a@.subrange(0, i + 1), t) == at_time(sa, t));
                    }
                }
                assert forall|m: int| 0 <= m < j && i + 1 < a.len() implies #[trigger] b@[m].ts < a@[i + 1].ts by {
                    assert(a@[i as int].ts <= a@[i + 1].ts);
                }
            }
            i = i + 1;
        } else {
            let x = b[j];
            out.push(x);
            proof {
                vstd::seq_lib::to_multiset_build(before, x);
                vstd::seq_lib::to_multiset_build(sb, x);
                assert(b@.subrange(0, j + 1) =~= sb.push(x));
                assert forall|t: u64| #[trigger] at_time(out@, t) == at_time(sa, t) + at_time(b@.subrange(0, j + 1), t) by {
                    assert(out@.drop_last() =~= before);
                    assert(sb.push(x).drop_last() =~= sb);
                    assert(at_time(before, t) == at_time(sa, t) + at_time(sb, t));
                    if t == x.ts {
                        assert(at_time(out@, t) == at_time(before, t).push(x));
                        assert(at_time(b@.subrange(0, j + 1), t) == at_time(sb, t).push(x));
                        assert(at_time(out@, t) =~= at_time(sa, t) + at_time(sb, t).push(x));
                    } else {
                        assert(at_time(out@, t) == at_time(before, t));
                        assert(at_time(b@.subrange(0, j + 1), t) == at_time(sb, t));
                    }
                }
            }
            j = j + 1;
        }
        proof {
            assert forall|p: int, q: int| 0 <= p <= q < out@.len() implies out@[p].ts <= out@[q].ts by {
                if q == out@.len() - 1 && p < q {
                    assert(before[p].ts <= before.last().ts);
                }
            }
        }
    }
    proof {
        assert(a@.subrange(0, a.len() as int) =~= a@);
        assert(b@.subrange(0, b.len() as int) =~= b@);
    }
    out
}

/// Sorts a run of samples by time, keeping samples at one time in order.
fn merge_sort(v: &[Sample]) -> (r: Vec<Sample>)
    ensures
        sorted_by_ts(r@),
        r@.to_multiset() == v@.to_multiset(),
        forall|t: u64| #[trigger] at_time(r@, t) == at_time(v@, t),
    decreases v@.len(),
{
    if v.len() <= 1 {
        let r = vstd::slice::slice_to_vec(v);
        return r;
    }
    let mid = v.len() / 2;
    let left = merge_sort(vstd::slice::slice_subrange(v, 0, mid));
    let right = merge_sort(vstd::slice::slice_subrange(v, mid, v.len()));
    let r = merge(&left, &right);
    proof {
        let l = v@.subrange(0, mid as int);
        let h = v@.subrange(mid as int, v@.len() as int);
        assert(v@ =~= l + h);
        vstd::seq_lib::lemma_multiset_commutative(l, h);
        assert forall|t: u64| #[trigger] at_time(r@, t) == at_time(v@, t) by {
            lemma_at_time_concat(l, h, t);
        }
    }
    r
}

/// The samples sorted by time; samples with equal times keep their order.
pub fn sort_samples(v: Vec<Sample>) -> (r: Vec<Sample>)
    ensures
        sorted_by_ts(r@),
        r@.to_multiset() == v@.to_multiset(),
        forall|t: u64| #[trigger] at_time(r@, t) == at_time(v@, t),
{
    merge_sort(v.as_slice())
}

/// The fields of a profile document, decoded but not yet linked: nodes
/// without parent links, sample node ids and time deltas as they stood.
pub struct ProfileParts {
    pub nodes: Vec<Node>,
    pub start_time: u64,
    pub end_time: u64,
    pub samples: Vec<u64>,
    pub time_deltas: Vec<i32>,
}

/// Whether every sample names a node of the sequence.
pub open spec fn samples_resolve(ns: Seq<Node>, ss: Seq<Sample>) -> bool {
    forall|k: int| 0 <= k < ss.len() ==> has_id(ns, #[trigger] ss[k].node_id)
}

/// Whether a sample names `c` and no node has that id.
pub open spec fn dangling_sample(ns: Seq<Node>, ss: Seq<Sample>, c: u64) -> bool {
    exists|k: int| 0 <= k < ss.len() && ss[k].node_id == c && !has_id(ns, c)
}

/// Whether `p` is the profile built from `parts`.
pub open spec fn assembled(parts: ProfileParts, p: Profile) -> bool {
    let raw = raw_samples(parts.samples@, parts.time_deltas@);
    &&& p.wf()
    &&& parents_derived(parts.nodes@, p.nodes@)
    &&& sorted_by_ts(p.samples@)
    &&& p.samples@.to_multiset() == raw.to_multiset()
    &&& forall|t: u64| #[trigger] at_time(p.samples@, t) == at_time(raw, t)
    &&& p.start_time == parts.start_time
    &&& p.end_time == parts.end_time
}

/// Whether `parts` can be built into a profile.
pub open spec fn parts_valid(parts: ProfileParts) -> bool {
    &&& unique_ids(parts.nodes@)
    &&& children_exist(parts.nodes@)
    &&& times_in_range(parts.time_deltas@)
    &&& samples_resolve(parts.nodes@, raw_samples(parts.samples@, parts.time_deltas@))
}

/// Which error building `parts` gives, checked in this order: repeated
/// node ids, unknown children, times out of range, unknown sample nodes.
pub open spec fn parts_error(parts: ProfileParts, e: ProfileError) -> bool {
    let ns = parts.nodes@;
    let raw = raw_samples(parts.samples@, parts.time_deltas@);
    if !unique_ids(ns) {
        e is DuplicateNode && exists|i: int, j: int|
            0 <= i < j < ns.len() && ns[i].id == e->DuplicateNode_0 && ns[j].id == e->DuplicateNode_0
    } else if !children_exist(ns) {
        e is DanglingReference && dangling_child(ns, e->DanglingReference_0)
    } else if !times_in_range(parts.time_deltas@) {
        e is TimeOutOfRange
    } else {
        e is DanglingReference && dangling_sample(ns, raw, e->DanglingReference_0)
    }
}

/// Builds a profile: indexes the nodes by id, derives parent links from the
/// children lists, accumulates sample times and sorts the samples by time.
pub fn assemble(parts: ProfileParts) -> (r: Result<Profile, ProfileError>)
    requires
        forall|i: int| 0 <= i < parts.nodes@.len() ==> (#[trigger] parts.nodes@[i]).parent_id is None,
    ensures
        r is Ok <==> parts_valid(parts),
        r matches Ok(p) ==> assembled(parts, p),
        r matches Err(e) ==> parts_error(parts, e),
{
    let ghost ns = parts.nodes@;
    let ProfileParts { nodes, start_time, end_time, samples, time_deltas } = parts;
    let mut nodes = nodes;
    let ix = match index_nodes(&nodes) {
        Ok(ix) => ix,
        Err(e) => return Err(e),
    };
    match link_parents(&mut nodes, &ix) {
        Ok(()) => {},
        Err(e) => return Err(e),
    }
    let raw = match build_samples(&samples, &time_deltas) {
        Ok(v) => v,
        Err(e) => return Err(e),
    };
    let mut k: usize = 0;
    while k < raw.len()
        invariant
            k <= raw.len(),
            indexes(index_entries(ix), ns),
            ns == parts.nodes@,
            raw@ == raw_samples(parts.samples@, parts.time_deltas@),
            unique_ids(ns),
            children_exist(ns),
            times_in_range(parts.time_deltas@),
            forall|j: int| 0 <= j < k ==> has_id(ns, #[trigger] raw@[j].node_id),
        decreases raw.len() - k,
    {
        let c = raw[k].node_id;
        if ix.get(c).is_none() {
            assert(dangling_sample(ns, raw@, c));
            assert(!samples_resolve(ns, raw@));
            return Err(ProfileError::DanglingReference(c));
        }
        k = k + 1;
    }
    let sorted = sort_samples(raw);
    proof {
        assert forall|i: int| 0 <= i < sorted@.len() implies has_id(ns, (#[trigger] sorted@[i]).node_id) by {
            vstd::seq_lib::to_multiset_contains(sorted@, sorted@[i]);
            vstd::seq_lib::to_multiset_contains(raw@, sorted@[i]);
            let j = choose|j: int| 0 <= j < raw@.len() && raw@[j] == sorted@[i];
            assert(has_id(ns, raw@[j].node_id));
        }
        assert forall|id: u64| #[trigger] index_entries(ix).contains_key(id) <==> has_id(nodes@, id) by {
            if has_id(ns, id) {
                let j = choose|j: int| 0 <= j < ns.len() && ns[j].id == id;
                assert(nodes@[j] == with_parent(ns[j], nodes@[j].parent_id));
            }
            if has_id(nodes@, id) {
                let j = choose|j: int| 0 <= j < nodes@.len() && nodes@[j].id == id;
                assert(nodes@[j] == with_parent(ns[j], nodes@[j].parent_id));
            }
        }
        assert forall|i: int| 0 <= i < nodes@.len() implies #[trigger] index_entries(ix)[nodes@[i].id] == i by {
            assert(nodes@[i] == with_parent(ns[i], nodes@[i].parent_id));
        }
    }
    let p = Profile { nodes, start_time, end_time, samples: sorted, node_index: ix };
    proof {
        assert forall|id: u64| #[trigger] p.has_node(id) && p.parent_of(id) is Some implies p.has_node(p.parent_of(id)->0) by {
            let j = choose|j: int| 0 <= j < p.nodes@.len() && p.nodes@[j].id == id;
            assert(p.position(id) == j);
            let q = choose|q: int| #[trigger] lists(ns, q, ns[j].id) && ns[q].id == p.nodes@[j].parent_id->0;
            assert(has_id(ns, ns[q].id));
        }
        assert forall|id: u64| #[trigger] p.has_node(id) implies 0 <= p.position(id) < p.nodes.len()
            && p.nodes@[p.position(id)].id == id by {
            let j = choose|j: int| 0 <= j < p.nodes@.len() && p.nodes@[j].id == id;
            assert(index_entries(ix)[p.nodes@[j].id] == j);
        }
        assert forall|i: int| 0 <= i < p.samples.len() implies #[trigger] p.has_node(p.samples@[i].node_id) by {
            assert(has_id(ns, sorted@[i].node_id));
        }
    }
    Ok(p)
}

/// A node listed in exactly one children list gets the lister as parent.
pub proof fn parent_from_children(parts: ProfileParts, p: Profile, q: int, c: u64)
    requires
        parts_valid(parts),
        assembled(parts, p),
        lists(parts.nodes@, q, c),
        forall|q2: int| q2 != q ==> !#[trigger] lists(parts.nodes@, q2, c),
    ensures
        p.has_node(c),
        p.parent_of(c) == Some(parts.nodes@[q].id),
{
    let ns = parts.nodes@;
    assert(has_id(ns, c));
    let i = choose|i: int| 0 <= i < ns.len() && ns[i].id == c;
    assert(p.nodes@[i] == with_parent(ns[i], p.nodes@[i].parent_id));
    assert(p.has_node(p.nodes@[i].id));
    assert(p.position(c) == i);
    if p.nodes@[i].parent_id is None {
        assert(!lists(ns, q, ns[i].id));
    } else {
        let q2 = choose|q2: int| #[trigger] lists(ns, q2, ns[i].id) && ns[q2].id == p.nodes@[i].parent_id->0;
        assert(q2 == q);
    }
}

/// The decoded samples are sorted by time, samples at one time keep their
/// document order, and they are the document's samples, the `k`-th timed at
/// the sum of the first `k + 1` deltas.
pub proof fn samples_sorted_running_sums(parts: ProfileParts, p: Profile)
    requires
        parts_valid(parts),
        assembled(parts, p),
    ensures
        sorted_by_ts(p.samples@),
        p.samples@.to_multiset() == raw_samples(parts.samples@, parts.time_deltas@).to_multiset(),
        forall|t: u64| #[trigger] at_time(p.samples@, t) == at_time(raw_samples(parts.samples@, parts.time_deltas@), t),
        forall|k: int| 0 <= k < parts.time_deltas@.len() ==>
            (#[trigger] raw_samples(parts.samples@, parts.time_deltas@)[k]).ts == time_at(parts.time_deltas@, k + 1),
        forall|k: int| 0 < k < parts.time_deltas@.len() ==>
            time_at(parts.time_deltas@, k + 1) == time_at(parts.time_deltas@, k) + #[trigger] parts.time_deltas@[k],
{
    assert forall|k: int| 0 <= k < parts.time_deltas@.len() implies
        (#[trigger] raw_samples(parts.samples@, parts.time_deltas@)[k]).ts == time_at(parts.time_deltas@, k + 1) by {
        assert(0 <= time_at(parts.time_deltas@, k + 1) <= u64::MAX);
    }
}

proof fn lemma_time_monotone(d: Seq<i32>, a: int, b: int)
    requires
        forall|k: int| 0 <= k < d.len() ==> d[k] >= 0,
        0 <= a <= b <= d.len(),
    ensures
        time_at(d, a) <= time_at(d, b),
    decreases b - a,
{
    if a < b {
        lemma_time_monotone(d, a, b - 1);
    }
}

proof fn lemma_at_time_member(s: Seq<Sample>, t: u64)
    requires
        at_time(s, t).len() > 0,
    ensures
        exists|k: int| 0 <= k < s.len() && s[k].ts == t,
    decreases s.len(),
{
    if s.last().ts != t {
        lemma_at_time_member(s.drop_last(), t);
        let k = choose|k: int| 0 <= k < s.drop_last().len() && s.drop_last()[k].ts == t;
        assert(s[k].ts == t);
    }
}

/// Two time-sorted sequences with the same samples at every time are equal.
proof fn lemma_sorted_unique(a: Seq<Sample>, b: Seq<Sample>)
    requires
        sorted_by_ts(a),
        sorted_by_ts(b),
        forall|t: u64| #[trigger] at_time(a, t) == at_time(b, t),
    ensures
        a == b,
    decreases a.len() + b.len(),
{
    if a.len() == 0 && b.len() == 0 {
        assert(a =~= b);
    } else if a.len() == 0 {
        assert(at_time(b, b.last().ts).len() > 0);
        assert(at_time(a, b.last().ts).len() == 0);
    } else if b.len() == 0 {
        assert(at_time(a, a.last().ts).len() > 0);
        assert(at_time(b, a.last().ts).len() == 0);
    } else {
        let ta = a.last().ts;
        let tb = b.last().ts;
        assert(at_time(a, ta).len() > 0);
        lemma_at_time_member(b, ta);
        assert(at_time(b, tb).len() > 0);
        lemma_at_time_member(a, tb);
        assert(ta == tb) by {
            let kb = choose|k: int| 0 <= k < b.len() && b[k].ts == ta;
            let ka = choose|k: int| 0 <= k < a.len() && a[k].ts == tb;
            assert(b[kb].ts <= b[b.len() - 1].ts);
            assert(a[ka].ts <= a[a.len() - 1].ts);
        }
        assert(a.last() == at_time(a, ta).last());
        assert(b.last() == at_time(b, ta).last());
        let a2 = a.drop_last();
        let b2 = b.drop_last();
        assert forall|t: u64| #[trigger] at_time(a2, t) == at_time(b2, t) by {
            if t == ta {
                assert(at_time(a2, t) =~= at_time(a, t).drop_last());
                assert(at_time(b2, t) =~= at_time(b, t).drop_last());
            } else {
                assert(at_time(a, t) == at_time(b, t));
            }
        }
        lemma_sorted_unique(a2, b2);
        assert(a =~= a2.push(a.last()));
        assert(b =~= b2.push(b.last()));
    }
}

/// Where no time delta is negative and each sample has its delta, the
/// decoded samples are the document's samples in document order.
pub proof fn samples_keep_document_order(parts: ProfileParts, p: Profile)
    requires
        parts_valid(parts),
        assembled(parts, p),
        parts.samples@.len() == parts.time_deltas@.len(),
        forall|k: int| 0 <= k < parts.time_deltas@.len() ==> #[trigger] parts.time_deltas@[k] >= 0,
    ensures
        p.samples@ == raw_samples(parts.samples@, parts.time_deltas@),
        forall|k: int| 0 <= k < p.samples@.len() ==> (#[trigger] p.samples@[k]).node_id == parts.samples@[k]
            && p.samples@[k].ts == time_at(parts.time_deltas@, k + 1),
{
    let d = parts.time_deltas@;
    let raw = raw_samples(parts.samples@, d);
    assert forall|a: int, b: int| 0 <= a <= b < raw.len() implies raw[a].ts <= raw[b].ts by {
        lemma_time_monotone(d, a + 1, b + 1);
        assert(0 <= time_at(d, a + 1) <= u64::MAX);
        assert(0 <= time_at(d, b + 1) <= u64::MAX);
    }
    lemma_sorted_unique(p.samples@, raw);
    assert forall|k: int| 0 <= k < p.samples@.len() implies (#[trigger] p.samples@[k]).node_id == parts.samples@[k]
        && p.samples@[k].ts == time_at(d, k + 1) by {
        assert(0 <= time_at(d, k + 1) <= u64::MAX);
    }
}

} // verus!
