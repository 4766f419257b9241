use flux_engine::cluster::NodePerf;
use flux_engine::codec::{decode, encode, GossipMsg};

fn perf(id: &[u8], ram_tokens: u64, timestamp_ms: u64) -> NodePerf {
    NodePerf {
        node_id: id.to_vec(),
        ram_tokens,
        layer_latency: vec![(0, 2.5f32.to_bits()), (3, 0.125f32.to_bits())],
        rtt: vec![(u64::MAX, 7.0f32.to_bits())],
        timestamp_ms,
    }
}

fn same_perf(a: &NodePerf, b: &NodePerf) -> bool {
    a.node_id == b.node_id
        && a.ram_tokens == b.ram_tokens
        && a.layer_latency == b.layer_latency
        && a.rtt == b.rtt
        && a.timestamp_ms == b.timestamp_ms
}

#[test]
fn round_trip_perf() {
    let msg = GossipMsg::Perf { node_perf: perf(b"node-1", 42, 1_700_000_000_000) };
    match decode(&encode(&msg)) {
        Some(GossipMsg::Perf { node_perf }) => assert!(same_perf(&node_perf, &perf(b"node-1", 42, 1_700_000_000_000))),
        _ => panic!("wrong variant"),
    }
}

#[test]
fn round_trip_sync_request() {
    let bytes = encode(&GossipMsg::SyncRequest);
    assert_eq!(bytes, vec![1u8]);
    assert!(matches!(decode(&bytes), Some(GossipMsg::SyncRequest)));
}

#[test]
fn round_trip_sync_response() {
    let perfs = vec![perf(b"a", 1, 5), perf(b"", 0, 0), perf("é".as_bytes(), u64::MAX, u64::MAX)];
    let msg = GossipMsg::SyncResponse { perfs: perfs.iter().map(|p| p.duplicate()).collect() };
    match decode(&encode(&msg)) {
        Some(GossipMsg::SyncResponse { perfs: got }) => {
            assert_eq!(got.len(), 3);
            for (g, p) in got.iter().zip(perfs.iter()) {
                assert!(same_perf(g, p));
            }
        }
        _ => panic!("wrong variant"),
    }
    match decode(&encode(&GossipMsg::SyncResponse { perfs: vec![] })) {
        Some(GossipMsg::SyncResponse { perfs }) => assert!(perfs.is_empty()),
        _ => panic!("wrong variant"),
    }
}

#[test]
fn perf_layout() {
    let p = NodePerf { node_id: b"A".to_vec(), ram_tokens: 258, layer_latency: vec![], rtt: vec![], timestamp_ms: 1 };
    let bytes = encode(&GossipMsg::Perf { node_perf: p });
    let mut want = vec![0u8];
    want.extend_from_slice(&[1, 0, 0, 0, 0, 0, 0, 0, b'A']);
    want.extend_from_slice(&[2, 1, 0, 0, 0, 0, 0, 0]);
    want.extend_from_slice(&[0; 8]);
    want.extend_from_slice(&[0; 8]);
    want.extend_from_slice(&[1, 0, 0, 0, 0, 0, 0, 0]);
    assert_eq!(bytes, want);
}

#[test]
fn decode_rejects_bad_frames() {
    assert!(decode(&vec![]).is_none());
    assert!(decode(&vec![3]).is_none());
    assert!(decode(&vec![1, 0]).is_none());
    let mut bytes = encode(&GossipMsg::Perf { node_perf: perf(b"x", 1, 1) });
    bytes.push(0);
    assert!(decode(&bytes).is_none());
    bytes.pop();
    bytes.pop();
    assert!(decode(&bytes).is_none());
    // A response that claims more profiles than it holds.
    assert!(decode(&vec![2, 5, 0, 0, 0, 0, 0, 0, 0]).is_none());
}

#[test]
fn decode_rejects_wide_u32_field() {
    let p = NodePerf { node_id: vec![], ram_tokens: 0, layer_latency: vec![(1, 1)], rtt: vec![], timestamp_ms: 0 };
    let mut bytes = encode(&GossipMsg::Perf { node_perf: p });
    // The first latency field starts after tag, id length, ram, count.
    bytes[1 + 8 + 8 + 8 + 4] = 1;
    assert!(decode(&bytes).is_none());
}
