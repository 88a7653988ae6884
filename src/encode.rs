//! Writing a profile, or one chunk of it, in the wire format: compact JSON
//! with the fields in a fixed order, times as integer microseconds and
//! sample times as deltas.
use crate::chunk::{kept_nodes, FilteredNode, ProfileChunk};
use crate::collections::set_contents;
use crate::model::{opt_ids, opt_text, Node, Profile, Sample};
use vstd::prelude::*;

verus! {

/// The character of a decimal digit.
pub open spec fn digit(d: nat) -> char {
    if d == 0 { '0' } else if d == 1 { '1' } else if d == 2 { '2' } else if d == 3 { '3' }
    else if d == 4 { '4' } else if d == 5 { '5' } else if d == 6 { '6' } else if d == 7 { '7' }
    else if d == 8 { '8' } else { '9' }
}

/// The decimal text of a natural number.
pub open spec fn dec(n: nat) -> Seq<char>
    decreases n,
{
    if n < 10 {
        seq![digit(n)]
    } else {
        dec(n / 10).push(digit(n % 10))
    }
}

/// The decimal text of an integer, with a minus sign when negative.
pub open spec fn int_text(x: int) -> Seq<char> {
    if x < 0 { seq!['-'] + dec((-x) as nat) } else { dec(x as nat) }
}

/// The texts joined with commas between them.
pub open spec fn join(parts: Seq<Seq<char>>) -> Seq<char>
    decreases parts.len(),
{
    if parts.len() == 0 {
        Seq::empty()
    } else if parts.len() == 1 {
        parts[0]
    } else {
        join(parts.drop_last()) + seq![','] + parts.last()
    }
}

/// A list of ids as the inside of a JSON array.
pub open spec fn ids_text(ids: Seq<u64>) -> Seq<char> {
    join(ids.map_values(|x: u64| dec(x as nat)))
}

/// An optional member: nothing where the value is absent.
pub open spec fn opt_member(prefix: Seq<char>, v: Option<Seq<char>>) -> Seq<char> {
    match v {
        Some(t) => prefix + t,
        None => Seq::empty(),
    }
}

/// The JSON text of a node object with the given children list.
pub open spec fn node_text(n: Node, children: Option<Seq<u64>>) -> Seq<char> {
    "{\"id\":"@ + dec(n.id as nat) + ",\"callFrame\":"@ + n.call_frame@ + ",\"hitCount\":"@
        + dec(n.hit_count as nat)
        + opt_member(",\"children\":"@, match children { Some(c) => Some(seq!['['] + ids_text(c) + seq![']']), None => None })
        + opt_member(",\"deoptReason\":"@, opt_text(n.deopt_reason))
        + opt_member(",\"positionTicks\":"@, opt_text(n.position_ticks)) + seq!['}']
}

/// The microseconds between a sample and the one before it (zero before
/// the first).
pub open spec fn delta(ss: Seq<Sample>, k: int) -> int {
    if k == 0 { ss[k].ts as int } else { ss[k].ts - ss[k - 1].ts }
}

/// The JSON text of a profile from its node texts, times and samples.
pub open spec fn profile_text(nodes: Seq<Seq<char>>, start: u64, end: u64, ss: Seq<Sample>) -> Seq<char> {
    "{\"nodes\":["@ + join(nodes) + "],\"startTime\":"@ + dec(start as nat) + ",\"endTime\":"@ + dec(end as nat)
        + ",\"samples\":["@ + join(ss.map_values(|s: Sample| dec(s.node_id as nat))) + "],\"timeDeltas\":["@
        + join(Seq::new(ss.len(), |k: int| int_text(delta(ss, k)))) + "]}"@
}

/// The text of a whole profile.
pub open spec fn encoded_profile(p: &Profile) -> Seq<char> {
    profile_text(p.nodes@.map_values(|n: Node| node_text(n, opt_ids(n.children))), p.start_time, p.end_time, p.samples@)
}

/// The text of a chunk: its included nodes with their children lists
/// filtered to included ids, the profile's times, and its samples.
pub open spec fn encoded_chunk(c: &ProfileChunk) -> Seq<char> {
    let inc = set_contents(c.included);
    profile_text(
        kept_nodes(c.profile.nodes@, inc).map_values(|n: Node| node_text(n, match n.children {
            Some(v) => Some(crate::chunk::kept_ids(v@, inc)),
            None => None,
        })),
        c.profile.start_time,
        c.profile.end_time,
        c.samples@,
    )
}

fn digit_str(d: u64) -> (r: &'static str)
    requires
        d < 10,
    ensures
        r@ == seq![digit(d as nat)],
{
    proof {
        reveal_strlit("0");
        reveal_strlit("1");
        reveal_strlit("2");
        reveal_strlit("3");
        reveal_strlit("4");
        reveal_strlit("5");
        reveal_strlit("6");
        reveal_strlit("7");
        reveal_strlit("8");
        reveal_strlit("9");
    }
    if d == 0 { "0" } else if d == 1 { "1" } else if d == 2 { "2" } else if d == 3 { "3" }
    else if d == 4 { "4" } else if d == 5 { "5" } else if d == 6 { "6" } else if d == 7 { "7" }
    else if d == 8 { "8" } else {
        assert(d == 9);
        "9"
    }
}

/// Appends the decimal text of `n`.
fn push_dec(out: &mut String, n: u64)
    ensures
        final(out)@ == old(out)@ + dec(n as nat),
    decreases n,
{
    if n >= 10 {
        push_dec(out, n / 10);
    }
    out.append(digit_str(n % 10));
    assert(out@ =~= old(out)@ + dec(n as nat)) by {
        if n >= 10 {
            assert(dec(n as nat) == dec((n / 10) as nat).push(digit((n % 10) as nat)));
        }
    };
}

proof fn lemma_join_step(parts: Seq<Seq<char>>, i: int)
    requires
        0 <= i < parts.len(),
    ensures
        join(parts.take(i + 1)) == join(parts.take(i)) + (if i == 0 { Seq::<char>::empty() } else { seq![','] })
            + parts[i],
{
    assert(parts.take(i + 1).drop_last() =~= parts.take(i));
    if i == 0 {
        assert(parts.take(0) =~= Seq::<Seq<char>>::empty());
        assert(join(parts.take(1)) == parts[0]);
        assert(join(parts.take(0)) + Seq::<char>::empty() + parts[0] =~= parts[0]);
    }
}

/// Appends a comma unless this is the first element.
fn push_sep(out: &mut String, i: usize)
    ensures
        final(out)@ == old(out)@ + (if i == 0 { Seq::<char>::empty() } else { seq![','] }),
{
    if i > 0 {
        proof {
            reveal_strlit(",");
        }
        out.append(",");
    } else {
        assert(out@ =~= out@ + Seq::<char>::empty());
    }
}

/// Appends a list of ids, comma separated.
fn push_ids(out: &mut String, ids: &Vec<u64>)
    ensures
        final(out)@ == old(out)@ + ids_text(ids@),
{
    let ghost parts = ids@.map_values(|x: u64| dec(x as nat));
    let ghost start = out@;
    let mut i: usize = 0;
    assert(parts.take(0) =~= Seq::<Seq<char>>::empty());
    assert(out@ =~= start + join(parts.take(0)));
    while i < ids.len()
        invariant
            i <= ids.len(),
            parts == ids@.map_values(|x: u64| dec(x as nat)),
            out@ == start + join(parts.take(i as int)),
        decreases ids.len() - i,
    {
        proof {
            lemma_join_step(parts, i as int);
        }
        push_sep(out, i);
        push_dec(out, ids[i]);
        assert(out@ =~= start + join(parts.take(i + 1)));
        i = i + 1;
    }
    assert(parts.take(ids.len() as int) =~= parts);
}

/// Appends the JSON text of a node with the given children list.
#[verifier::rlimit(40)]
fn push_node(out: &mut String, n: &Node, children: &Option<Vec<u64>>)
    ensures
        final(out)@ == old(out)@ + node_text(*n, opt_ids(*children)),
{
    let ghost start = out@;
    out.append("{\"id\":");
    push_dec(out, n.id);
    out.append(",\"callFrame\":");
    out.append(n.call_frame.as_str());
    out.append(",\"hitCount\":");
    push_dec(out, n.hit_count as u64);
    let ghost mid = out@;
    match children {
        Some(c) => {
            proof {
                reveal_strlit("[");
            }
            out.append(",\"children\":");
            out.append("[");
            push_ids(out, c);
            proof {
                reveal_strlit("]");
            }
            out.append("]");
        },
        None => {},
    }
    assert(out@ =~= mid + opt_member(",\"children\":"@, match opt_ids(*children) {
        Some(c) => Some(seq!['['] + ids_text(c) + seq![']']),
        None => None,
    }));
    let ghost mid2 = out@;
    match &n.deopt_reason {
        Some(d) => {
            out.append(",\"deoptReason\":");
            out.append(d.as_str());
        },
        None => {},
    }
    assert(out@ =~= mid2 + opt_member(",\"deoptReason\":"@, opt_text(n.deopt_reason)));
    let ghost mid3 = out@;
    match &n.position_ticks {
        Some(t) => {
            out.append(",\"positionTicks\":");
            out.append(t.as_str());
        },
        None => {},
    }
    assert(out@ =~= mid3 + opt_member(",\"positionTicks\":"@, opt_text(n.position_ticks)));
    proof {
        reveal_strlit("}");
    }
    out.append("}");
    assert(out@ =~= start + node_text(*n, opt_ids(*children)));
}

/// Appends the node ids of the samples, comma separated.
fn push_sample_ids(out: &mut String, ss: &[Sample])
    ensures
        final(out)@ == old(out)@ + join(ss@.map_values(|s: Sample| dec(s.node_id as nat))),
{
    let ghost parts = ss@.map_values(|s: Sample| dec(s.node_id as nat));
    let ghost start = out@;
    let mut i: usize = 0;
    assert(parts.take(0) =~= Seq::<Seq<char>>::empty());
    assert(out@ =~= start + join(parts.take(0)));
    while i < ss.len()
        invariant
            i <= ss.len(),
            parts == ss@.map_values(|s: Sample| dec(s.node_id as nat)),
            out@ == start + join(parts.take(i as int)),
        decreases ss.len() - i,
    {
        proof {
            lemma_join_step(parts, i as int);
        }
        push_sep(out, i);
        push_dec(out, ss[i].node_id);
        assert(out@ =~= start + join(parts.take(i + 1)));
        i = i + 1;
    }
    assert(parts.take(ss.len() as int) =~= parts);
}

/// Appends the time deltas of the samples, comma separated.
fn push_deltas(out: &mut String, ss: &[Sample])
    ensures
        final(out)@ == old(out)@ + join(Seq::new(ss@.len(), |k: int| int_text(delta(ss@, k)))),
{
    let ghost parts = Seq::new(ss@.len(), |k: int| int_text(delta(ss@, k)));
    let ghost start = out@;
    let mut i: usize = 0;
    let mut last: u64 = 0;
    assert(parts.take(0) =~= Seq::<Seq<char>>::empty());
    assert(out@ =~= start + join(parts.take(0)));
    while i < ss.len()
        invariant
            i <= ss.len(),
            parts == Seq::new(ss@.len(), |k: int| int_text(delta(ss@, k))),
            out@ == start + join(parts.take(i as int)),
            last == (if i == 0 { 0 } else { ss@[i - 1].ts }),
        decreases ss.len() - i,
    {
        proof {
            lemma_join_step(parts, i as int);
            reveal_strlit("-");
        }
        push_sep(out, i);
        let ts = ss[i].ts;
        if ts >= last {
            push_dec(out, ts - last);
        } else {
            out.append("-");
            push_dec(out, last - ts);
        }
        assert(out@ =~= start + join(parts.take(i + 1)));
        last = ts;
        i = i + 1;
    }
    assert(parts.take(ss.len() as int) =~= parts);
}

/// Appends the profile fields that follow the node list.
fn push_tail(out: &mut String, start_time: u64, end_time: u64, ss: &[Sample])
    ensures
        final(out)@ == old(out)@ + "],\"startTime\":"@ + dec(start_time as nat) + ",\"endTime\":"@
            + dec(end_time as nat) + ",\"samples\":["@ + join(ss@.map_values(|s: Sample| dec(s.node_id as nat)))
            + "],\"timeDeltas\":["@ + join(Seq::new(ss@.len(), |k: int| int_text(delta(ss@, k)))) + "]}"@,
{
    let ghost start = out@;
    out.append("],\"startTime\":");
    push_dec(out, start_time);
    out.append(",\"endTime\":");
    push_dec(out, end_time);
    out.append(",\"samples\":[");
    push_sample_ids(out, ss);
    out.append("],\"timeDeltas\":[");
    push_deltas(out, ss);
    out.append("]}");
    assert(out@ =~= start + "],\"startTime\":"@ + dec(start_time as nat) + ",\"endTime\":"@
            + dec(end_time as nat) + ",\"samples\":["@ + join(ss@.map_values(|s: Sample| dec(s.node_id as nat)))
            + "],\"timeDeltas\":["@ + join(Seq::new(ss@.len(), |k: int| int_text(delta(ss@, k)))) + "]}"@);
}

/// The wire text of a whole profile.
pub fn encode_profile(p: &Profile) -> (r: String)
    ensures
        r@ == encoded_profile(p),
{
    let ghost parts = p.nodes@.map_values(|n: Node| node_text(n, opt_ids(n.children)));
    let mut out = String::new();
    out.append("{\"nodes\":[");
    let ghost start = out@;
    let mut i: usize = 0;
    assert(parts.take(0) =~= Seq::<Seq<char>>::empty());
    assert(out@ =~= start + join(parts.take(0)));
    while i < p.nodes.len()
        invariant
            i <= p.nodes.len(),
            parts == p.nodes@.map_values(|n: Node| node_text(n, opt_ids(n.children))),
            out@ == start + join(parts.take(i as int)),
        decreases p.nodes.len() - i,
    {
        proof {
            lemma_join_step(parts, i as int);
        }
        push_sep(&mut out, i);
        push_node(&mut out, &p.nodes[i], &p.nodes[i].children);
        assert(out@ =~= start + join(parts.take(i + 1)));
        i = i + 1;
    }
    assert(parts.take(p.nodes.len() as int) =~= parts);
    push_tail(&mut out, p.start_time, p.end_time, p.samples.as_slice());
    assert(out@ =~= encoded_profile(p));
    out
}

/// The wire text of one chunk.
pub fn encode_chunk(c: &ProfileChunk) -> (r: String)
    ensures
        r@ == encoded_chunk(c),
{
    let ghost inc = set_contents(c.included);
    let ghost kept = kept_nodes(c.profile.nodes@, inc);
    let ghost parts = kept.map_values(|n: Node| node_text(n, match n.children {
        Some(v) => Some(crate::chunk::kept_ids(v@, inc)),
        None => None,
    }));
    let fs = c.nodes();
    assert(fs@.len() == kept.len()) by {
        assert(fs@.map_values(|f: FilteredNode| *f.node).len() == fs@.len());
    }
    let mut out = String::new();
    out.append("{\"nodes\":[");
    let ghost start = out@;
    let mut i: usize = 0;
    assert(parts.take(0) =~= Seq::<Seq<char>>::empty());
    assert(out@ =~= start + join(parts.take(0)));
    while i < fs.len()
        invariant
            i <= fs.len(),
            fs@.len() == kept.len(),
            inc == set_contents(c.included),
            kept == kept_nodes(c.profile.nodes@, inc),
            fs@.map_values(|f: FilteredNode| *f.node) == kept,
            forall|j: int| 0 <= j < fs@.len() ==> *(#[trigger] fs@[j]).included == c.included,
            parts == kept.map_values(|n: Node| node_text(n, match n.children {
                Some(v) => Some(crate::chunk::kept_ids(v@, inc)),
                None => None,
            })),
            out@ == start + join(parts.take(i as int)),
        decreases fs.len() - i,
    {
        proof {
            lemma_join_step(parts, i as int);
        }
        push_sep(&mut out, i);
        let f = &fs[i];
        assert(*f.node == kept[i as int]);
        let kids = f.children();
        assert(opt_ids(kids) == (match f.node.children {
            Some(v) => Some(crate::chunk::kept_ids(v@, inc)),
            None => None::<Seq<u64>>,
        }));
        push_node(&mut out, f.node, &kids);
        assert(out@ =~= start + join(parts.take(i + 1)));
        i = i + 1;
    }
    assert(parts.take(fs.len() as int) =~= parts);
    push_tail(&mut out, c.profile.start_time, c.profile.end_time, c.samples);
    assert(out@ =~= encoded_chunk(c));
    out
}

} // verus!
