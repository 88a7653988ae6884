use v8_cpuprofile::{decode, div_ceil, encode_chunk, encode_profile, offset_duration, Profile, ProfileError, Sample};

const FIXTURE: &str = r#"{"nodes":[{"id":1,"callFrame":{"functionName":"(root)","scriptId":"0","url":"","lineNumber":-1,"columnNumber":-1},"hitCount":0,"children":[2,3,5]},{"id":2,"callFrame":{"functionName":"(program)","scriptId":"0","url":"","lineNumber":-1,"columnNumber":-1},"hitCount":14},{"id":3,"callFrame":{"functionName":"main","scriptId":"12","url":"file:///app/main.js","lineNumber":2,"columnNumber":13},"hitCount":3,"children":[4],"positionTicks":[{"line":4,"ticks":3}]},{"id":4,"callFrame":{"functionName":"work","scriptId":"12","url":"file:///app/main.js","lineNumber":9,"columnNumber":14},"hitCount":9,"deoptReason":"Insufficient type feedback","positionTicks":[{"line":11,"ticks":9}]},{"id":5,"callFrame":{"functionName":"(garbage collector)","scriptId":"0","url":"","lineNumber":-1,"columnNumber":-1},"hitCount":2}],"startTime":5017203125,"endTime":5017210000,"samples":[2,2,3,4,4,4,2,2,3,4,4,5,2,2,3,4,4,4,2,2,3,2,2,5,2,2,2,4],"timeDeltas":[1203,125,131,127,126,128,0,133,125,129,126,124,131,127,126,128,125,130,124,126,128,127,125,129,126,124,131,127]}"#;

fn three_nodes() -> String {
    String::from(
        r#"{"nodes":[{"id":1,"callFrame":{"functionName":"(root)"},"hitCount":0,"children":[2]},{"id":2,"callFrame":{"functionName":"a"},"hitCount":1,"children":[3]},{"id":3,"callFrame":{"functionName":"b"},"hitCount":1}],"startTime":0,"endTime":200,"samples":[3,2,1],"timeDeltas":[100,50,25]}"#,
    )
}

fn included(p: &Profile, chunk: usize, n: usize) -> Vec<u64> {
    let chunks = p.chunks(n).unwrap();
    let mut ids = Vec::new();
    for node in &p.nodes {
        if chunks[chunk].includes(node.id) {
            ids.push(node.id);
        }
    }
    ids
}

#[test]
fn round_trip_serialization() {
    let profile = decode(FIXTURE).unwrap();
    let json = encode_profile(&profile);
    assert_eq!(profile.samples.len(), 28);
    let node = profile.index(profile.samples[0].node_id);
    assert_eq!(node.parent_id, Some(1));
    let parent_ids = profile.parent_ids_iter(node.id);
    assert_eq!(parent_ids, [1]);
    assert_eq!(json, FIXTURE);
}

#[test]
fn three_node_scenario() {
    let p = decode(&three_nodes()).unwrap();
    let ts: Vec<u64> = p.samples.iter().map(|s| s.ts).collect();
    assert_eq!(ts, [100, 150, 175]);
    let ids: Vec<u64> = p.samples.iter().map(|s| s.node_id).collect();
    assert_eq!(ids, [3, 2, 1]);
    let chunks = p.chunks(2).unwrap();
    assert_eq!(chunks.len(), 2);
    assert_eq!(chunks[0].samples.len(), 2);
    assert_eq!(chunks[1].samples.len(), 1);
    assert_eq!(included(&p, 0, 2), [1, 2, 3]);
    assert_eq!(included(&p, 1, 2), [1]);
}

#[test]
fn missing_hit_count_is_reported() {
    let doc = r#"{"nodes":[{"id":1,"callFrame":{}}],"startTime":0,"endTime":0,"samples":[],"timeDeltas":[]}"#;
    match decode(doc) {
        Err(ProfileError::MissingField(name)) => assert_eq!(name, "hitCount"),
        other => panic!("unexpected {:?}", other.err()),
    }
}

#[test]
fn unknown_node_field_is_reported() {
    let doc = r#"{"nodes":[{"id":1,"callFrame":{},"hitCount":0,"foo":1}],"startTime":0,"endTime":0,"samples":[],"timeDeltas":[]}"#;
    match decode(doc) {
        Err(ProfileError::UnknownField(name)) => assert_eq!(name, "foo"),
        other => panic!("unexpected {:?}", other.err()),
    }
}

#[test]
fn unknown_profile_field_is_reported() {
    let doc = r#"{"nodes":[],"startTime":0,"endTime":0,"samples":[],"timeDeltas":[],"title":"x"}"#;
    match decode(doc) {
        Err(ProfileError::UnknownField(name)) => assert_eq!(name, "title"),
        other => panic!("unexpected {:?}", other.err()),
    }
}

#[test]
fn missing_profile_fields_are_named() {
    let cases = [
        (r#"{"startTime":0,"endTime":0,"samples":[],"timeDeltas":[]}"#, "nodes"),
        (r#"{"nodes":[],"endTime":0,"samples":[],"timeDeltas":[]}"#, "startTime"),
        (r#"{"nodes":[],"startTime":0,"samples":[],"timeDeltas":[]}"#, "endTime"),
        (r#"{"nodes":[],"startTime":0,"endTime":0,"timeDeltas":[]}"#, "samples"),
        (r#"{"nodes":[],"startTime":0,"endTime":0,"samples":[]}"#, "timeDeltas"),
        (r#"{"nodes":[{"callFrame":{},"hitCount":0}],"startTime":0,"endTime":0,"samples":[],"timeDeltas":[]}"#, "id"),
        (r#"{"nodes":[{"id":1,"hitCount":0}],"startTime":0,"endTime":0,"samples":[],"timeDeltas":[]}"#, "callFrame"),
    ];
    for (doc, field) in cases {
        match decode(doc) {
            Err(ProfileError::MissingField(name)) => assert_eq!(name, field),
            other => panic!("unexpected {:?}", other.err()),
        }
    }
}

#[test]
fn malformed_json_is_a_syntax_error() {
    assert!(matches!(decode("{\"nodes\":["), Err(ProfileError::Syntax)));
    assert!(matches!(decode("[]"), Err(ProfileError::Syntax)));
    let doc = r#"{"nodes":[],"startTime":"soon","endTime":0,"samples":[],"timeDeltas":[]}"#;
    assert!(matches!(decode(doc), Err(ProfileError::Syntax)));
    let doc = r#"{"nodes":[{"id":1,"callFrame":{},"hitCount":4294967296}],"startTime":0,"endTime":0,"samples":[],"timeDeltas":[]}"#;
    assert!(matches!(decode(doc), Err(ProfileError::Syntax)));
    let doc = r#"{"nodes":[],"startTime":0,"endTime":0,"samples":[],"timeDeltas":[2147483648]}"#;
    assert!(matches!(decode(doc), Err(ProfileError::Syntax)));
}

#[test]
fn dangling_references_are_reported() {
    let doc = r#"{"nodes":[{"id":1,"callFrame":{},"hitCount":0,"children":[9]}],"startTime":0,"endTime":0,"samples":[],"timeDeltas":[]}"#;
    assert!(matches!(decode(doc), Err(ProfileError::DanglingReference(9))));
    let doc = r#"{"nodes":[{"id":1,"callFrame":{},"hitCount":0}],"startTime":0,"endTime":0,"samples":[1,7],"timeDeltas":[1,1]}"#;
    assert!(matches!(decode(doc), Err(ProfileError::DanglingReference(7))));
}

#[test]
fn duplicate_node_ids_are_reported() {
    let doc = r#"{"nodes":[{"id":1,"callFrame":{},"hitCount":0},{"id":1,"callFrame":{},"hitCount":0}],"startTime":0,"endTime":0,"samples":[],"timeDeltas":[]}"#;
    assert!(matches!(decode(doc), Err(ProfileError::DuplicateNode(1))));
}

#[test]
fn negative_running_time_is_reported() {
    let doc = r#"{"nodes":[{"id":1,"callFrame":{},"hitCount":0}],"startTime":0,"endTime":0,"samples":[1,1],"timeDeltas":[5,-6]}"#;
    assert!(matches!(decode(doc), Err(ProfileError::TimeOutOfRange)));
}

#[test]
fn zero_chunks_is_invalid() {
    let p = decode(&three_nodes()).unwrap();
    assert!(matches!(p.chunks(0), Err(ProfileError::InvalidArgument)));
}

#[test]
fn chunk_count_and_sizes() {
    let p = decode(FIXTURE).unwrap();
    let chunks = p.chunks(3).unwrap();
    let sizes: Vec<usize> = chunks.iter().map(|c| c.samples.len()).collect();
    assert_eq!(sizes, [10, 10, 8]);
    let chunks = p.chunks(100).unwrap();
    assert_eq!(chunks.len(), 28);
    let p = decode(&three_nodes()).unwrap();
    assert_eq!(p.chunks(5).unwrap().len(), 3);
    assert_eq!(p.chunks(1).unwrap().len(), 1);
}

#[test]
fn chunks_cover_all_samples_in_order() {
    let p = decode(FIXTURE).unwrap();
    for n in 1..30 {
        let chunks = p.chunks(n).unwrap();
        assert!(chunks.len() <= n && !chunks.is_empty());
        let mut all: Vec<(u64, u64)> = Vec::new();
        for c in &chunks {
            assert!(!c.samples.is_empty());
            all.extend(c.samples.iter().map(|s| (s.node_id, s.ts)));
        }
        let whole: Vec<(u64, u64)> = p.samples.iter().map(|s| (s.node_id, s.ts)).collect();
        assert_eq!(all, whole);
    }
}

#[test]
fn empty_profile_has_no_chunks() {
    let doc = r#"{"nodes":[],"startTime":3,"endTime":4,"samples":[],"timeDeltas":[]}"#;
    let p = decode(doc).unwrap();
    assert!(p.chunks(4).unwrap().is_empty());
    assert_eq!(encode_profile(&p), doc);
}

#[test]
fn chunk_closure_is_complete_and_minimal() {
    let p = decode(FIXTURE).unwrap();
    let chunks = p.chunks(28).unwrap();
    // the fourth sample is at node 4, under 3 and the root
    assert_eq!(chunks[3].samples[0].node_id, 4);
    assert_eq!(included(&p, 3, 28), [1, 3, 4]);
    // the first sample is at node 2, directly under the root
    assert_eq!(included(&p, 0, 28), [1, 2]);
}

#[test]
fn encoded_chunk_keeps_only_included_nodes() {
    let p = decode(FIXTURE).unwrap();
    let chunks = p.chunks(28).unwrap();
    let text = encode_chunk(&chunks[0]);
    let expected = r#"{"nodes":[{"id":1,"callFrame":{"functionName":"(root)","scriptId":"0","url":"","lineNumber":-1,"columnNumber":-1},"hitCount":0,"children":[2]},{"id":2,"callFrame":{"functionName":"(program)","scriptId":"0","url":"","lineNumber":-1,"columnNumber":-1},"hitCount":14}],"startTime":5017203125,"endTime":5017210000,"samples":[2],"timeDeltas":[1203]}"#;
    assert_eq!(text, expected);
    let nodes = chunks[0].nodes();
    assert_eq!(nodes.len(), 2);
    assert_eq!(nodes[0].children(), Some(vec![2]));
    assert_eq!(nodes[1].children(), None);
    let later = encode_chunk(&chunks[1]);
    assert!(later.ends_with(r#""samples":[2],"timeDeltas":[1328]}"#));
}

#[test]
fn chunks_decode_again() {
    let p = decode(FIXTURE).unwrap();
    for c in p.chunks(4).unwrap() {
        let again = decode(&encode_chunk(&c)).unwrap();
        assert_eq!(again.samples.len(), c.samples.len());
        let first = again.samples[0].ts;
        assert_eq!(first, c.samples[0].ts);
    }
}

#[test]
fn samples_are_sorted_by_time() {
    let doc = r#"{"nodes":[{"id":1,"callFrame":{},"hitCount":0,"children":[2]},{"id":2,"callFrame":{},"hitCount":0}],"startTime":0,"endTime":0,"samples":[1,2,1],"timeDeltas":[100,-50,10]}"#;
    let p = decode(doc).unwrap();
    let got: Vec<(u64, u64)> = p.samples.iter().map(|s| (s.node_id, s.ts)).collect();
    assert_eq!(got, [(2, 50), (1, 60), (1, 100)]);
    assert_eq!(
        encode_profile(&p),
        r#"{"nodes":[{"id":1,"callFrame":{},"hitCount":0,"children":[2]},{"id":2,"callFrame":{},"hitCount":0}],"startTime":0,"endTime":0,"samples":[2,1,1],"timeDeltas":[50,10,40]}"#
    );
}

#[test]
fn parents_come_from_children_in_any_order() {
    let doc = r#"{"nodes":[{"id":3,"callFrame":{},"hitCount":0},{"id":2,"callFrame":{},"hitCount":0,"children":[3]},{"id":1,"callFrame":{},"hitCount":0,"children":[2]}],"startTime":0,"endTime":0,"samples":[3],"timeDeltas":[1]}"#;
    let p = decode(doc).unwrap();
    assert_eq!(p.index(3).parent_id, Some(2));
    assert_eq!(p.index(2).parent_id, Some(1));
    assert_eq!(p.index(1).parent_id, None);
    assert_eq!(p.parent_ids_iter(3), [2, 1]);
    assert_eq!(p.parent_ids_iter(1), Vec::<u64>::new());
}

#[test]
fn null_optional_fields_are_absent() {
    let doc = r#"{"nodes":[{"id":1,"callFrame":{},"hitCount":0,"children":null,"deoptReason":null}],"startTime":0,"endTime":0,"samples":[],"timeDeltas":[]}"#;
    let p = decode(doc).unwrap();
    assert_eq!(p.nodes[0].children, None);
    assert_eq!(p.nodes[0].deopt_reason, None);
}

#[test]
fn fields_may_come_in_any_order() {
    let doc = r#"{"timeDeltas":[5,5],"samples":[1,1],"endTime":9,"startTime":1,"nodes":[{"hitCount":2,"callFrame":{"a":1},"id":1}]}"#;
    let p = decode(doc).unwrap();
    assert_eq!(p.start_time, 1);
    assert_eq!(p.end_time, 9);
    assert_eq!(p.nodes[0].hit_count, 2);
    assert_eq!(p.nodes[0].call_frame, r#"{"a":1}"#);
    let ts: Vec<u64> = p.samples.iter().map(|s| s.ts).collect();
    assert_eq!(ts, [5, 10]);
}

#[test]
fn sample_equality_is_by_time() {
    let a = Sample { node_id: 1, ts: 5 };
    let b = Sample { node_id: 2, ts: 5 };
    let c = Sample { node_id: 1, ts: 6 };
    assert!(a == b);
    assert!(a != c);
    assert!(a < c);
    assert_eq!(a.partial_cmp(&b), Some(std::cmp::Ordering::Equal));
}

#[test]
fn helper_arithmetic() {
    assert_eq!(div_ceil(10, 3), 4);
    assert_eq!(div_ceil(9, 3), 3);
    assert_eq!(div_ceil(0, 3), 0);
    assert_eq!(div_ceil(1, 5), 1);
    assert_eq!(offset_duration(100, -40), 60);
    assert_eq!(offset_duration(100, 25), 125);
    assert_eq!(offset_duration(0, 0), 0);
}

#[test]
fn parent_walk_stops_on_a_cycle() {
    let doc = r#"{"nodes":[{"id":1,"callFrame":{},"hitCount":0,"children":[2]},{"id":2,"callFrame":{},"hitCount":0,"children":[1]}],"startTime":0,"endTime":0,"samples":[1],"timeDeltas":[1]}"#;
    let p = decode(doc).unwrap();
    assert_eq!(p.parent_ids_iter(1), [2]);
    assert_eq!(p.parent_ids_iter(2), [1]);
}

#[test]
fn equal_times_keep_document_order() {
    let doc = r#"{"nodes":[{"id":1,"callFrame":{},"hitCount":0,"children":[2,3]},{"id":2,"callFrame":{},"hitCount":0},{"id":3,"callFrame":{},"hitCount":0}],"startTime":0,"endTime":0,"samples":[3,2,1,3,2],"timeDeltas":[10,0,0,-5,0]}"#;
    let p = decode(doc).unwrap();
    let got: Vec<(u64, u64)> = p.samples.iter().map(|s| (s.node_id, s.ts)).collect();
    assert_eq!(got, [(3, 5), (2, 5), (3, 10), (2, 10), (1, 10)]);
}
