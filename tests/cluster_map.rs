use flux_engine::cluster::{perf_key, NodePerf, PerfMap};
use flux_engine::node::Node;

fn perf(id: &str, ram_tokens: u64, timestamp_ms: u64) -> NodePerf {
    NodePerf {
        node_id: id.as_bytes().to_vec(),
        ram_tokens,
        layer_latency: vec![(0, 1.5f32.to_bits())],
        rtt: vec![(7, 0.25f32.to_bits())],
        timestamp_ms,
    }
}

#[test]
fn merge_tiebreak() {
    let mut map = PerfMap::new();
    map.insert_or_merge(perf("A", 1, 5));
    map.insert_or_merge(perf("A", 2, 5));
    assert_eq!(map.get(&b"A".to_vec()).unwrap().ram_tokens, 1);
    map.insert_or_merge(perf("A", 3, 6));
    assert_eq!(map.get(&b"A".to_vec()).unwrap().ram_tokens, 3);
    assert_eq!(map.values_len(), 1);
}

#[test]
fn merge_ignores_older() {
    let mut map = PerfMap::new();
    map.insert_or_merge(perf("A", 1, 9));
    map.insert_or_merge(perf("A", 2, 4));
    let got = map.get(&b"A".to_vec()).unwrap();
    assert_eq!((got.ram_tokens, got.timestamp_ms), (1, 9));
}

#[test]
fn snapshot_holds_each_node_once() {
    let mut map = PerfMap::new();
    map.insert_or_merge(perf("A", 1, 1));
    map.insert_or_merge(perf("B", 2, 1));
    map.insert_or_merge(perf("A", 3, 2));
    assert_eq!(map.values_len(), 2);
    assert!(map.get(&b"C".to_vec()).is_none());
    let snap = map.snapshot();
    let mut seen: Vec<(Vec<u8>, u64)> = snap.iter().map(|p| (p.node_id.clone(), p.ram_tokens)).collect();
    seen.sort();
    assert_eq!(seen, vec![(b"A".to_vec(), 3), (b"B".to_vec(), 2)]);
    assert_eq!(snap[0].layer_latency, vec![(0, 1.5f32.to_bits())]);
    assert_eq!(snap[0].rtt, vec![(7, 0.25f32.to_bits())]);
}

#[test]
fn new_node_is_unprobed() {
    let n = Node::new("10.0.0.1:4433".to_string());
    assert_eq!(n.addr, "10.0.0.1:4433");
    assert!(n.region.is_empty());
    assert_eq!((n.gpu_score, n.gpu_cores, n.network_bandwidth, n.layer_capacity), (0, 0, 0, 0));
}

#[test]
fn record_key_prefixes_id() {
    assert_eq!(perf_key(&b"node-7".to_vec()), b"perf/node-7".to_vec());
    assert_eq!(perf_key(&Vec::new()), b"perf/".to_vec());
}
