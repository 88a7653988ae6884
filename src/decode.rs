//! Decoding a profile from its JSON text.
//!
//! The JSON layer hands over raw members; this module checks them against
//! the closed schema, derives parent links from the children lists, turns
//! time deltas into absolute times and sorts the samples.
use crate::assemble::{assemble, assembled, parts_error, parts_valid, ProfileParts};
use crate::json::{
    array_items, entries_view, json_array, json_i64, json_object, json_u64, object_entries,
    parse_i64, parse_u64, strings_view,
};
use crate::model::{Node, NodeView, Profile};
use vstd::prelude::*;

verus! {

/// Why a document could not be decoded, or a request could not be served.
#[derive(Debug)]
pub enum ProfileError {
    /// The text is not JSON of the expected shape.
    Syntax,
    /// A required field is absent; it carries the field's name.
    MissingField(String),
    /// A field outside the schema; it carries the field's name.
    UnknownField(String),
    /// A sample or a children list names a node id that no node has.
    DanglingReference(u64),
    /// Two nodes carry the same id.
    DuplicateNode(u64),
    /// The running sum of time deltas leaves the range `0..=u64::MAX`.
    TimeOutOfRange,
    /// A request that cannot be served, such as zero chunks.
    InvalidArgument,
}

/// [`ProfileError`] as mathematical values.
pub enum ErrorView {
    Syntax,
    MissingField(Seq<char>),
    UnknownField(Seq<char>),
    DanglingReference(u64),
    DuplicateNode(u64),
    TimeOutOfRange,
    InvalidArgument,
}

impl View for ProfileError {
    type V = ErrorView;

    open spec fn view(&self) -> ErrorView {
        match self {
            ProfileError::Syntax => ErrorView::Syntax,
            ProfileError::MissingField(s) => ErrorView::MissingField(s@),
            ProfileError::UnknownField(s) => ErrorView::UnknownField(s@),
            ProfileError::DanglingReference(id) => ErrorView::DanglingReference(*id),
            ProfileError::DuplicateNode(id) => ErrorView::DuplicateNode(*id),
            ProfileError::TimeOutOfRange => ErrorView::TimeOutOfRange,
            ProfileError::InvalidArgument => ErrorView::InvalidArgument,
        }
    }
}

/// The view of a result whose error is a [`ProfileError`].
pub open spec fn err_of<T>(r: Result<T, ProfileError>) -> Option<ErrorView> {
    match r {
        Ok(_) => None,
        Err(e) => Some(e@),
    }
}

/// The field names a node object may have.
pub open spec fn node_field(k: Seq<char>) -> bool {
    k == "id"@ || k == "callFrame"@ || k == "hitCount"@ || k == "children"@ || k == "deoptReason"@
        || k == "positionTicks"@
}

/// The field names a profile object may have.
pub open spec fn profile_field(k: Seq<char>) -> bool {
    k == "nodes"@ || k == "startTime"@ || k == "endTime"@ || k == "samples"@ || k == "timeDeltas"@
}

/// The field names of a profile object (`top`) or of a node object.
pub open spec fn known_field(top: bool, k: Seq<char>) -> bool {
    if top { profile_field(k) } else { node_field(k) }
}

/// The position of the first member whose key is not a field name, if any.
pub open spec fn first_unknown(es: Seq<(Seq<char>, Seq<char>)>, top: bool) -> Option<int> {
    if exists|i: int| 0 <= i < es.len() && !known_field(top, es[i].0) {
        Some(choose|i: int| 0 <= i < es.len() && !known_field(top, es[i].0)
            && forall|j: int| 0 <= j < i ==> known_field(top, #[trigger] es[j].0))
    } else {
        None
    }
}

/// The view of an optional position.
pub open spec fn opt_pos(r: Option<usize>) -> Option<int> {
    match r {
        Some(i) => Some(i as int),
        None => None,
    }
}

/// The raw value under a key, if a member has that key.
pub open spec fn member(es: Seq<(Seq<char>, Seq<char>)>, key: Seq<char>) -> Option<Seq<char>> {
    if exists|i: int| 0 <= i < es.len() && es[i].0 == key {
        Some(es[choose|i: int| 0 <= i < es.len() && es[i].0 == key].1)
    } else {
        None
    }
}

/// The raw value under a key, where a JSON `null` counts as absent.
pub open spec fn present(es: Seq<(Seq<char>, Seq<char>)>, key: Seq<char>) -> Option<Seq<char>> {
    match member(es, key) {
        Some(v) => if v == "null"@ { None } else { Some(v) },
        None => None,
    }
}

/// The integers of a list of raw JSON values, when each is a `u64`.
pub open spec fn u64_items(items: Seq<Seq<char>>) -> Option<Seq<u64>> {
    if forall|i: int| 0 <= i < items.len() ==> (#[trigger] json_u64(items[i])) is Some {
        Some(Seq::new(items.len(), |i: int| json_u64(items[i])->0))
    } else {
        None
    }
}

/// The ids of a raw JSON array of `u64`s.
pub open spec fn id_list(text: Seq<char>) -> Option<Seq<u64>> {
    match json_array(text) {
        Some(items) => u64_items(items),
        None => None,
    }
}

/// A node decoded from the members of its object: the members' keys must
/// be node fields, `id`, `callFrame` and `hitCount` must be present.
#[verifier::opaque]
pub open spec fn node_spec(es: Seq<(Seq<char>, Seq<char>)>) -> Result<NodeView, ErrorView> {
    if let Some(i) = first_unknown(es, false) {
        Err(ErrorView::UnknownField(es[i].0))
    } else if present(es, "id"@) is None {
        Err(ErrorView::MissingField("id"@))
    } else if present(es, "callFrame"@) is None {
        Err(ErrorView::MissingField("callFrame"@))
    } else if present(es, "hitCount"@) is None {
        Err(ErrorView::MissingField("hitCount"@))
    } else {
        let id = json_u64(present(es, "id"@)->0);
        let hits = json_u64(present(es, "hitCount"@)->0);
        let children = match present(es, "children"@) {
            Some(t) => match id_list(t) {
                Some(ids) => Ok(Some(ids)),
                None => Err(()),
            },
            None => Ok(None),
        };
        if id is None || hits is None || hits->0 > u32::MAX || children is Err {
            Err(ErrorView::Syntax)
        } else {
            Ok(NodeView {
                id: id->0,
                parent_id: None,
                call_frame: present(es, "callFrame"@)->0,
                hit_count: hits->0 as u32,
                children: children->Ok_0,
                deopt_reason: present(es, "deoptReason"@),
                position_ticks: present(es, "positionTicks"@),
            })
        }
    }
}

/// A node decoded from JSON text.
pub open spec fn node_text_spec(text: Seq<char>) -> Result<NodeView, ErrorView> {
    match json_object(text) {
        Some(es) => node_spec(es),
        None => Err(ErrorView::Syntax),
    }
}

/// Whether a string equals a literal.
fn text_is(s: &String, lit: &str) -> (r: bool)
    ensures
        r == (s@ == lit@),
{
    let l = String::from_str(lit);
    *s == l
}

/// A string with the text of a literal.
fn owned(lit: &str) -> (r: String)
    ensures
        r@ == lit@,
{
    String::from_str(lit)
}

/// The position of the first entry whose key fails `known`.
fn find_unknown(es: &Vec<(String, String)>, profile_level: bool) -> (r: Option<usize>)
    ensures
        opt_pos(r) == first_unknown(entries_view(es@), profile_level),
        r matches Some(i) ==> i < es.len(),
{
    let ghost ev = entries_view(es@);
    let mut i: usize = 0;
    while i < es.len()
        invariant
            i <= es.len(),
            ev == entries_view(es@),
            forall|j: int| 0 <= j < i ==> known_field(profile_level, #[trigger] ev[j].0),
        decreases es.len() - i,
    {
        let k = &es[i].0;
        assert(ev[i as int].0 == k@);
        let ok = if profile_level {
            text_is(k, "nodes") || text_is(k, "startTime") || text_is(k, "endTime") || text_is(k, "samples")
                || text_is(k, "timeDeltas")
        } else {
            text_is(k, "id") || text_is(k, "callFrame") || text_is(k, "hitCount") || text_is(k, "children")
                || text_is(k, "deoptReason") || text_is(k, "positionTicks")
        };
        if !ok {
            proof {
                assert(!known_field(profile_level, ev[i as int].0));
                let c = choose|c: int| 0 <= c < ev.len() && !known_field(profile_level, ev[c].0)
                    && forall|j: int| 0 <= j < c ==> known_field(profile_level, #[trigger] ev[j].0);
                assert(c == i) by {
                    if c < i {
                        assert(known_field(profile_level, ev[c].0));
                    }
                    if c > i {
                        assert(known_field(profile_level, ev[i as int].0));
                    }
                }
            }
            return Some(i);
        }
        i = i + 1;
    }
    None
}

/// The raw value under a key, with `null` read as absent.
fn find_present<'a>(es: &'a Vec<(String, String)>, key: &str) -> (r: Option<&'a String>)
    requires
        forall|i: int, j: int| 0 <= i < j < es@.len() ==> es@[i].0@ != es@[j].0@,
    ensures
        opt_ref_text(r) == present(entries_view(es@), key@),
{
    let ghost ev = entries_view(es@);
    let mut i: usize = 0;
    while i < es.len()
        invariant
            i <= es.len(),
            ev == entries_view(es@),
            forall|j: int| 0 <= j < i ==> ev[j].0 != key@,
            forall|a: int, b: int| 0 <= a < b < es@.len() ==> es@[a].0@ != es@[b].0@,
        decreases es.len() - i,
    {
        assert(ev[i as int] == (es@[i as int].0@, es@[i as int].1@));
        if text_is(&es[i].0, key) {
            proof {
                assert(ev[i as int].0 == key@);
                let c = choose|c: int| 0 <= c < ev.len() && ev[c].0 == key@;
                assert(ev.len() == es@.len());
                assert(ev[c] == (es@[c].0@, es@[c].1@));
                assert(c == i) by {
                    if c < i {
                        assert(es@[c].0@ != es@[i as int].0@);
                    } else if c > i {
                        assert(es@[i as int].0@ != es@[c].0@);
                    }
                }
            }
            if text_is(&es[i].1, "null") {
                return None;
            }
            return Some(&es[i].1);
        }
        i = i + 1;
    }
    None
}

/// The view of an optional borrowed string.
pub open spec fn opt_ref_text(s: Option<&String>) -> Option<Seq<char>> {
    match s {
        Some(t) => Some(t@),
        None => None,
    }
}

/// The `u64`s of a list of raw JSON values.
fn parse_u64_items(items: &Vec<String>) -> (r: Option<Vec<u64>>)
    ensures
        opt_ids_view(r) == u64_items(strings_view(items@)),
{
    let ghost sv = strings_view(items@);
    let mut out: Vec<u64> = Vec::new();
    let mut i: usize = 0;
    while i < items.len()
        invariant
            i <= items.len(),
            sv == strings_view(items@),
            out.len() == i,
            forall|j: int| 0 <= j < i ==> json_u64(sv[j]) == Some(#[trigger] out@[j]),
        decreases items.len() - i,
    {
        assert(sv[i as int] == items@[i as int]@);
        match parse_u64(items[i].as_str()) {
            Some(x) => out.push(x),
            None => {
                assert(sv[i as int] == items@[i as int]@);
                assert(json_u64(sv[i as int]) is None);
                return None;
            },
        }
        i = i + 1;
    }
    assert forall|j: int| 0 <= j < sv.len() implies (#[trigger] json_u64(sv[j])) is Some by {
        assert(json_u64(sv[j]) == Some(out@[j]));
    }
    assert(out@ =~= Seq::new(sv.len(), |j: int| json_u64(sv[j])->0));
    Some(out)
}

/// The view of an optional list of ids.
pub open spec fn opt_ids_view(c: Option<Vec<u64>>) -> Option<Seq<u64>> {
    match c {
        Some(v) => Some(v@),
        None => None,
    }
}

/// The ids of a raw JSON array.
fn parse_id_list(text: &String) -> (r: Option<Vec<u64>>)
    ensures
        opt_ids_view(r) == id_list(text@),
{
    match array_items(text.as_str()) {
        Some(items) => parse_u64_items(&items),
        None => None,
    }
}

/// Decodes one node object from its JSON text.  Its parent link is left
/// empty: the profile derives it from the children lists.
#[verifier::rlimit(40)]
pub fn decode_node(text: &str) -> (r: Result<Node, ProfileError>)
    ensures
        r matches Ok(n) ==> n.parent_id is None,
        match r {
            Ok(n) => node_text_spec(text@) == Ok::<NodeView, ErrorView>(n@),
            Err(e) => node_text_spec(text@) == Err::<NodeView, ErrorView>(e@),
        },
{
    reveal(node_spec);
    let es = match object_entries(text) {
        Some(es) => es,
        None => return Err(ProfileError::Syntax),
    };
    let ghost ev = entries_view(es@);
    if let Some(i) = find_unknown(&es, false) {
        return Err(ProfileError::UnknownField(es[i].0.clone()));
    }
    let id_text = match find_present(&es, "id") {
        Some(t) => t,
        None => return Err(ProfileError::MissingField(owned("id"))),
    };
    let call_frame = match find_present(&es, "callFrame") {
        Some(t) => t.clone(),
        None => return Err(ProfileError::MissingField(owned("callFrame"))),
    };
    let hits_text = match find_present(&es, "hitCount") {
        Some(t) => t,
        None => return Err(ProfileError::MissingField(owned("hitCount"))),
    };
    let id = match parse_u64(id_text.as_str()) {
        Some(x) => x,
        None => return Err(ProfileError::Syntax),
    };
    let hits = match parse_u64(hits_text.as_str()) {
        Some(x) => x,
        None => return Err(ProfileError::Syntax),
    };
    if hits > u32::MAX as u64 {
        return Err(ProfileError::Syntax);
    }
    let children = match find_present(&es, "children") {
        Some(t) => match parse_id_list(t) {
            Some(ids) => Some(ids),
            None => return Err(ProfileError::Syntax),
        },
        None => None,
    };
    let deopt_reason = match find_present(&es, "deoptReason") {
        Some(t) => Some(t.clone()),
        None => None,
    };
    let position_ticks = match find_present(&es, "positionTicks") {
        Some(t) => Some(t.clone()),
        None => None,
    };
    Ok(Node { id, parent_id: None, call_frame, hit_count: hits as u32, children, deopt_reason, position_ticks })
}

/// The nodes of a list of raw node objects, or the error of the first one
/// that fails.
#[verifier::opaque]
pub open spec fn nodes_spec(items: Seq<Seq<char>>) -> Result<Seq<NodeView>, ErrorView> {
    if exists|i: int| 0 <= i < items.len() && node_text_spec(items[i]) is Err {
        let i = choose|i: int| 0 <= i < items.len() && node_text_spec(items[i]) is Err
            && forall|j: int| 0 <= j < i ==> (#[trigger] node_text_spec(items[j])) is Ok;
        Err(node_text_spec(items[i])->Err_0)
    } else {
        Ok(Seq::new(items.len(), |i: int| node_text_spec(items[i])->Ok_0))
    }
}

/// The deltas of a raw JSON array, when each is an integer that fits in `i32`.
pub open spec fn delta_list(text: Seq<char>) -> Option<Seq<i32>> {
    match json_array(text) {
        Some(items) => if forall|i: int| 0 <= i < items.len() ==> (#[trigger] json_i64(items[i])) is Some
            && i32::MIN <= json_i64(items[i])->0 <= i32::MAX {
            Some(Seq::new(items.len(), |i: int| json_i64(items[i])->0 as i32))
        } else {
            None
        },
        None => None,
    }
}

/// [`ProfileParts`] as mathematical values.
pub struct PartsView {
    pub nodes: Seq<NodeView>,
    pub start_time: u64,
    pub end_time: u64,
    pub samples: Seq<u64>,
    pub time_deltas: Seq<i32>,
}

/// The view of decoded parts.
pub open spec fn parts_view(p: ProfileParts) -> PartsView {
    PartsView {
        nodes: p.nodes@.map_values(|n: Node| n@),
        start_time: p.start_time,
        end_time: p.end_time,
        samples: p.samples@,
        time_deltas: p.time_deltas@,
    }
}

/// An integer field that must be present.
pub open spec fn required_u64(es: Seq<(Seq<char>, Seq<char>)>, key: Seq<char>) -> Result<u64, ErrorView> {
    match present(es, key) {
        None => Err(ErrorView::MissingField(key)),
        Some(t) => match json_u64(t) {
            Some(x) => Ok(x),
            None => Err(ErrorView::Syntax),
        },
    }
}

/// The fields of a profile document: its members' keys must be profile
/// fields and all five must be present.
pub open spec fn parts_spec(text: Seq<char>) -> Result<PartsView, ErrorView> {
    match json_object(text) {
        None => Err(ErrorView::Syntax),
        Some(es) => if let Some(i) = first_unknown(es, true) {
            Err(ErrorView::UnknownField(es[i].0))
        } else if present(es, "nodes"@) is None {
            Err(ErrorView::MissingField("nodes"@))
        } else if json_array(present(es, "nodes"@)->0) is None {
            Err(ErrorView::Syntax)
        } else if nodes_spec(json_array(present(es, "nodes"@)->0)->0) is Err {
            Err(nodes_spec(json_array(present(es, "nodes"@)->0)->0)->Err_0)
        } else if required_u64(es, "startTime"@) is Err {
            Err(required_u64(es, "startTime"@)->Err_0)
        } else if required_u64(es, "endTime"@) is Err {
            Err(required_u64(es, "endTime"@)->Err_0)
        } else if present(es, "samples"@) is None {
            Err(ErrorView::MissingField("samples"@))
        } else if id_list(present(es, "samples"@)->0) is None {
            Err(ErrorView::Syntax)
        } else if present(es, "timeDeltas"@) is None {
            Err(ErrorView::MissingField("timeDeltas"@))
        } else if delta_list(present(es, "timeDeltas"@)->0) is None {
            Err(ErrorView::Syntax)
        } else {
            Ok(PartsView {
                nodes: nodes_spec(json_array(present(es, "nodes"@)->0)->0)->Ok_0,
                start_time: required_u64(es, "startTime"@)->Ok_0,
                end_time: required_u64(es, "endTime"@)->Ok_0,
                samples: id_list(present(es, "samples"@)->0)->0,
                time_deltas: delta_list(present(es, "timeDeltas"@)->0)->0,
            })
        },
    }
}

proof fn lemma_first_failing(sv: Seq<Seq<char>>, i: int)
    requires
        0 <= i < sv.len(),
        node_text_spec(sv[i]) is Err,
        forall|j: int| 0 <= j < i ==> (#[trigger] node_text_spec(sv[j])) is Ok,
    ensures
        nodes_spec(sv) == Err::<Seq<NodeView>, ErrorView>(node_text_spec(sv[i])->Err_0),
{
    reveal(nodes_spec);
    let c = choose|c: int| 0 <= c < sv.len() && node_text_spec(sv[c]) is Err
        && forall|j: int| 0 <= j < c ==> (#[trigger] node_text_spec(sv[j])) is Ok;
    assert(c == i) by {
        if c < i {
            assert(node_text_spec(sv[c]) is Ok);
        }
        if c > i {
            assert(node_text_spec(sv[i]) is Ok);
        }
    }
}

/// Decodes each raw node object, stopping at the first that fails.
fn decode_nodes(items: &Vec<String>) -> (r: Result<Vec<Node>, ProfileError>)
    ensures
        match r {
            Ok(v) => nodes_spec(strings_view(items@)) == Ok::<Seq<NodeView>, ErrorView>(v@.map_values(|n: Node| n@))
                && forall|i: int| 0 <= i < v@.len() ==> (#[trigger] v@[i]).parent_id is None,
            Err(e) => nodes_spec(strings_view(items@)) == Err::<Seq<NodeView>, ErrorView>(e@),
        },
{
    let ghost sv = strings_view(items@);
    let mut out: Vec<Node> = Vec::new();
    let mut i: usize = 0;
    while i < items.len()
        invariant
            i <= items.len(),
            sv == strings_view(items@),
            out.len() == i,
            forall|j: int| 0 <= j < i ==> node_text_spec(sv[j]) == Ok::<NodeView, ErrorView>((#[trigger] out@[j])@),
            forall|j: int| 0 <= j < i ==> (#[trigger] out@[j]).parent_id is None,
        decreases items.len() - i,
    {
        assert(sv[i as int] == items@[i as int]@);
        match decode_node(items[i].as_str()) {
            Ok(n) => {
                assert(n@.parent_id is None);
                out.push(n);
            },
            Err(e) => {
                proof {
                    assert forall|j: int| 0 <= j < i implies (#[trigger] node_text_spec(sv[j])) is Ok by {
                        assert(node_text_spec(sv[j]) == Ok::<NodeView, ErrorView>(out@[j]@));
                    }
                    lemma_first_failing(sv, i as int);
                }
                return Err(e);
            },
        }
        i = i + 1;
    }
    proof {
        reveal(nodes_spec);
        assert forall|j: int| 0 <= j < sv.len() implies !(node_text_spec(sv[j]) is Err) by {
            assert(node_text_spec(sv[j]) == Ok::<NodeView, ErrorView>(out@[j]@));
        }
        assert(out@.map_values(|n: Node| n@) =~= Seq::new(sv.len(), |j: int| node_text_spec(sv[j])->Ok_0));
    }
    Ok(out)
}

/// The deltas of a raw JSON array.
fn parse_deltas(text: &String) -> (r: Option<Vec<i32>>)
    ensures
        match r {
            Some(v) => delta_list(text@) == Some(v@),
            None => delta_list(text@) is None,
        },
{
    let items = match array_items(text.as_str()) {
        Some(items) => items,
        None => return None,
    };
    let ghost sv = strings_view(items@);
    let mut out: Vec<i32> = Vec::new();
    let mut i: usize = 0;
    while i < items.len()
        invariant
            i <= items.len(),
            sv == strings_view(items@),
            json_array(text@) == Some(sv),
            out.len() == i,
            forall|j: int| 0 <= j < i ==> (#[trigger] json_i64(sv[j])) is Some
                && i32::MIN <= json_i64(sv[j])->0 <= i32::MAX && out@[j] == json_i64(sv[j])->0 as i32,
        decreases items.len() - i,
    {
        assert(sv[i as int] == items@[i as int]@);
        match parse_i64(items[i].as_str()) {
            Some(x) => {
                if x < i32::MIN as i64 || x > i32::MAX as i64 {
                    return None;
                }
                out.push(x as i32);
            },
            None => return None,
        }
        i = i + 1;
    }
    assert(out@ =~= Seq::new(sv.len(), |j: int| json_i64(sv[j])->0 as i32));
    Some(out)
}

/// Reads the five fields of a profile document without linking them.
pub fn decode_parts(text: &str) -> (r: Result<ProfileParts, ProfileError>)
    ensures
        match r {
            Ok(p) => parts_spec(text@) == Ok::<PartsView, ErrorView>(parts_view(p))
                && forall|i: int| 0 <= i < p.nodes@.len() ==> (#[trigger] p.nodes@[i]).parent_id is None,
            Err(e) => parts_spec(text@) == Err::<PartsView, ErrorView>(e@),
        },
{
    let es = match object_entries(text) {
        Some(es) => es,
        None => return Err(ProfileError::Syntax),
    };
    if let Some(i) = find_unknown(&es, true) {
        return Err(ProfileError::UnknownField(es[i].0.clone()));
    }
    let nodes_text = match find_present(&es, "nodes") {
        Some(t) => t,
        None => return Err(ProfileError::MissingField(owned("nodes"))),
    };
    let items = match array_items(nodes_text.as_str()) {
        Some(items) => items,
        None => return Err(ProfileError::Syntax),
    };
    let nodes = match decode_nodes(&items) {
        Ok(v) => v,
        Err(e) => return Err(e),
    };
    let start_time = match find_present(&es, "startTime") {
        Some(t) => match parse_u64(t.as_str()) {
            Some(x) => x,
            None => return Err(ProfileError::Syntax),
        },
        None => return Err(ProfileError::MissingField(owned("startTime"))),
    };
    let end_time = match find_present(&es, "endTime") {
        Some(t) => match parse_u64(t.as_str()) {
            Some(x) => x,
            None => return Err(ProfileError::Syntax),
        },
        None => return Err(ProfileError::MissingField(owned("endTime"))),
    };
    let samples = match find_present(&es, "samples") {
        Some(t) => match parse_id_list(t) {
            Some(v) => v,
            None => return Err(ProfileError::Syntax),
        },
        None => return Err(ProfileError::MissingField(owned("samples"))),
    };
    let time_deltas = match find_present(&es, "timeDeltas") {
        Some(t) => match parse_deltas(t) {
            Some(v) => v,
            None => return Err(ProfileError::Syntax),
        },
        None => return Err(ProfileError::MissingField(owned("timeDeltas"))),
    };
    Ok(ProfileParts { nodes, start_time, end_time, samples, time_deltas })
}

/// Decodes a profile from its JSON text: reads the fields, then builds the
/// profile from them.
pub fn decode(text: &str) -> (r: Result<Profile, ProfileError>)
    ensures
        match parts_spec(text@) {
            Err(e) => r matches Err(x) && x@ == e,
            Ok(pv) => exists|parts: ProfileParts| parts_view(parts) == pv
                && (r is Ok <==> parts_valid(parts))
                && (r matches Ok(p) ==> assembled(parts, p))
                && (r matches Err(e) ==> parts_error(parts, e)),
        },
{
    let parts = match decode_parts(text) {
        Ok(p) => p,
        Err(e) => return Err(e),
    };
    let ghost g = parts;
    let r = assemble(parts);
    assert(parts_view(g) == parts_spec(text@)->Ok_0);
    r
}

} // verus!
