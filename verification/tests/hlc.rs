use zdb_core::hlc::{append_hlc_trailer, extract_hlc, Hlc};

#[test]
fn tick_increments_from_none() {
    let hlc = Hlc::now("abcdefgh-1234", &None);
    assert!(hlc.wall_ms > 0);
    assert_eq!(hlc.counter, 0);
    assert_eq!(hlc.node, "abcdefgh");
}

#[test]
fn tick_increments_counter_when_wall_equal() {
    let last = Hlc {
        wall_ms: u64::MAX - 1, // far future, wall clock won't exceed
        counter: 5,
        node: "abcdefgh".into(),
    };
    let next = Hlc::now("abcdefgh-1234", &Some(last));
    assert_eq!(next.wall_ms, u64::MAX - 1);
    assert_eq!(next.counter, 6);
}

#[test]
fn recv_merges_correctly() {
    let local = Hlc { wall_ms: 100, counter: 3, node: "aaaaaaaa".into() };
    let remote = Hlc { wall_ms: 100, counter: 5, node: "bbbbbbbb".into() };
    let merged = Hlc::recv("aaaaaaaa", &Some(local), &remote);
    // max(wall_clock, 100, 100) — if wall_clock <= 100, counter = max(3,5)+1 = 6
    assert!(merged.counter >= 6 || merged.wall_ms > 100);
    assert_eq!(merged.node, "aaaaaaaa");
}

#[test]
fn string_round_trip() {
    let hlc = Hlc { wall_ms: 1709000000000, counter: 42, node: "abcd1234".into() };
    let s = hlc.to_text();
    assert_eq!(s, "1709000000000-0042-abcd1234");
    let parsed = Hlc::parse(&s).unwrap();
    assert_eq!(parsed, hlc);
}

#[test]
fn ordering_wall_ms_first() {
    let a = Hlc { wall_ms: 100, counter: 99, node: "zzzzzzzz".into() };
    let b = Hlc { wall_ms: 200, counter: 0, node: "aaaaaaaa".into() };
    assert!(a < b);
}

#[test]
fn ordering_counter_second() {
    let a = Hlc { wall_ms: 100, counter: 1, node: "zzzzzzzz".into() };
    let b = Hlc { wall_ms: 100, counter: 2, node: "aaaaaaaa".into() };
    assert!(a < b);
}

#[test]
fn ordering_node_tiebreak() {
    let a = Hlc { wall_ms: 100, counter: 1, node: "aaaaaaaa".into() };
    let b = Hlc { wall_ms: 100, counter: 1, node: "bbbbbbbb".into() };
    assert!(a < b);
}

#[test]
fn extract_hlc_from_commit() {
    let msg = "resolve merge conflicts via CRDT\n\nHLC: 1709000000000-0001-abcd1234";
    let hlc = extract_hlc(msg).unwrap();
    assert_eq!(hlc.wall_ms, 1709000000000);
    assert_eq!(hlc.counter, 1);
    assert_eq!(hlc.node, "abcd1234");
}

#[test]
fn extract_hlc_missing() {
    assert!(extract_hlc("plain commit message").is_none());
}

#[test]
fn append_trailer() {
    let hlc = Hlc { wall_ms: 100, counter: 0, node: "abcd1234".into() };
    let msg = append_hlc_trailer("test commit", &hlc);
    assert!(msg.contains("\n\nHLC: 100-0000-abcd1234"));
}
