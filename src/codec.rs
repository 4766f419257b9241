//! The gossip envelope and its binary encoding.
//!
//! Every integer is written as 8 little-endian bytes; a byte string or a
//! list is its length followed by its items. A message is a tag byte (0
//! `Perf`, 1 `SyncRequest`, 2 `SyncResponse`) followed by its payload, and
//! decoding accepts only a frame that holds exactly one message.
use vstd::prelude::*;
use crate::cluster::{NodePerf, PerfView};

verus! {

/// `n` little-endian bytes of `x`.
pub open spec fn le_bytes(x: nat, n: nat) -> Seq<u8>
    decreases n,
{
    if n == 0 {
        Seq::empty()
    } else {
        seq![(x % 256) as u8] + le_bytes(x / 256, (n - 1) as nat)
    }
}

/// The number that little-endian bytes `s` stand for.
pub open spec fn le_value(s: Seq<u8>) -> nat
    decreases s.len(),
{
    if s.len() == 0 {
        0
    } else {
        s[0] as nat + 256 * le_value(s.drop_first())
    }
}

pub open spec fn pow256(n: nat) -> nat
    decreases n,
{
    if n == 0 {
        1
    } else {
        256 * pow256((n - 1) as nat)
    }
}

pub open spec fn enc_u64(x: u64) -> Seq<u8> {
    le_bytes(x as nat, 8)
}

pub open spec fn dec_u64(s: Seq<u8>) -> Option<(u64, Seq<u8>)> {
    if s.len() < 8 {
        None
    } else {
        Some((le_value(s.take(8)) as u64, s.skip(8)))
    }
}

/// A `u32` read as an integer field: `None` when it does not fit.
pub open spec fn dec_u32(s: Seq<u8>) -> Option<(u32, Seq<u8>)> {
    match dec_u64(s) {
        Some((x, rest)) => if x <= u32::MAX {
            Some((x as u32, rest))
        } else {
            None
        },
        None => None,
    }
}

pub open spec fn enc_bytes(b: Seq<u8>) -> Seq<u8> {
    enc_u64(b.len() as u64) + b
}

pub open spec fn dec_bytes(s: Seq<u8>) -> Option<(Seq<u8>, Seq<u8>)> {
    match dec_u64(s) {
        Some((n, rest)) => if rest.len() < n {
            None
        } else {
            Some((rest.take(n as int), rest.skip(n as int)))
        },
        None => None,
    }
}

pub open spec fn enc_latency_items(v: Seq<(u32, u32)>) -> Seq<u8>
    decreases v.len(),
{
    if v.len() == 0 {
        Seq::empty()
    } else {
        enc_u64(v[0].0 as u64) + enc_u64(v[0].1 as u64) + enc_latency_items(v.drop_first())
    }
}

pub open spec fn dec_latency_items(s: Seq<u8>, n: nat) -> Option<(Seq<(u32, u32)>, Seq<u8>)>
    decreases n,
{
    if n == 0 {
        Some((Seq::empty(), s))
    } else {
        match dec_u32(s) {
            Some((a, r1)) => match dec_u32(r1) {
                Some((b, r2)) => match dec_latency_items(r2, (n - 1) as nat) {
                    Some((items, r3)) => Some((seq![(a, b)] + items, r3)),
                    None => None,
                },
                None => None,
            },
            None => None,
        }
    }
}

pub open spec fn enc_rtt_items(v: Seq<(u64, u32)>) -> Seq<u8>
    decreases v.len(),
{
    if v.len() == 0 {
        Seq::empty()
    } else {
        enc_u64(v[0].0) + enc_u64(v[0].1 as u64) + enc_rtt_items(v.drop_first())
    }
}

pub open spec fn dec_rtt_items(s: Seq<u8>, n: nat) -> Option<(Seq<(u64, u32)>, Seq<u8>)>
    decreases n,
{
    if n == 0 {
        Some((Seq::empty(), s))
    } else {
        match dec_u64(s) {
            Some((a, r1)) => match dec_u32(r1) {
                Some((b, r2)) => match dec_rtt_items(r2, (n - 1) as nat) {
                    Some((items, r3)) => Some((seq![(a, b)] + items, r3)),
                    None => None,
                },
                None => None,
            },
            None => None,
        }
    }
}

/// The encoding of one profile.
#[verifier::opaque]
pub open spec fn enc_perf(p: PerfView) -> Seq<u8> {
    enc_bytes(p.node_id) + enc_u64(p.ram_tokens) + enc_u64(p.layer_latency.len() as u64)
        + enc_latency_items(p.layer_latency) + enc_u64(p.rtt.len() as u64) + enc_rtt_items(p.rtt)
        + enc_u64(p.timestamp_ms)
}

#[verifier::opaque]
pub open spec fn dec_perf(s: Seq<u8>) -> Option<(PerfView, Seq<u8>)> {
    match dec_bytes(s) {
        Some((id, r1)) => match dec_u64(r1) {
            Some((ram, r2)) => match dec_u64(r2) {
                Some((nl, r3)) => match dec_latency_items(r3, nl as nat) {
                    Some((lat, r4)) => match dec_u64(r4) {
                        Some((nr, r5)) => match dec_rtt_items(r5, nr as nat) {
                            Some((rtt, r6)) => match dec_u64(r6) {
                                Some((ts, r7)) => Some(
                                    (
                                        PerfView {
                                            node_id: id,
                                            ram_tokens: ram,
                                            layer_latency: lat,
                                            rtt,
                                            timestamp_ms: ts,
                                        },
                                        r7,
                                    ),
                                ),
                                None => None,
                            },
                            None => None,
                        },
                        None => None,
                    },
                    None => None,
                },
                None => None,
            },
            None => None,
        },
        None => None,
    }
}

pub open spec fn enc_perf_items(v: Seq<PerfView>) -> Seq<u8>
    decreases v.len(),
{
    if v.len() == 0 {
        Seq::empty()
    } else {
        enc_perf(v[0]) + enc_perf_items(v.drop_first())
    }
}

pub open spec fn dec_perf_items(s: Seq<u8>, n: nat) -> Option<(Seq<PerfView>, Seq<u8>)>
    decreases n,
{
    if n == 0 {
        Some((Seq::empty(), s))
    } else {
        match dec_perf(s) {
            Some((p, r1)) => match dec_perf_items(r1, (n - 1) as nat) {
                Some((items, r2)) => Some((seq![p] + items, r2)),
                None => None,
            },
            None => None,
        }
    }
}

pub proof fn lemma_le_round_trip(x: nat, n: nat, rest: Seq<u8>)
    requires
        x < pow256(n),
    ensures
        le_bytes(x, n).len() == n,
        (le_bytes(x, n) + rest).take(n as int) == le_bytes(x, n),
        (le_bytes(x, n) + rest).skip(n as int) == rest,
        le_value(le_bytes(x, n)) == x,
    decreases n,
{
    if n > 0 {
        assert(x / 256 < pow256((n - 1) as nat)) by (nonlinear_arith)
            requires
                x < 256 * pow256((n - 1) as nat),
        ;
        lemma_le_round_trip(x / 256, (n - 1) as nat, rest);
        assert(le_bytes(x, n).drop_first() == le_bytes(x / 256, (n - 1) as nat));
        assert(x % 256 + 256 * (x / 256) == x) by (nonlinear_arith);
    }
    assert((le_bytes(x, n) + rest).take(n as int) =~= le_bytes(x, n));
    assert((le_bytes(x, n) + rest).skip(n as int) =~= rest);
}

proof fn lemma_pow256_8()
    ensures
        pow256(8) == 0x1_0000_0000_0000_0000,
{
    reveal_with_fuel(pow256, 9);
}

pub proof fn lemma_u64_round_trip(x: u64, rest: Seq<u8>)
    ensures
        dec_u64(enc_u64(x) + rest) == Some((x, rest)),
        enc_u64(x).len() == 8,
{
    lemma_pow256_8();
    lemma_le_round_trip(x as nat, 8, rest);
}

/// The gossip envelope.
pub enum GossipMsg {
    /// An unsolicited push of one profile.
    Perf { node_perf: NodePerf },
    /// A request for the full cluster map.
    SyncRequest,
    /// The full cluster map, in reply to `SyncRequest`.
    SyncResponse { perfs: Vec<NodePerf> },
}

/// A message as plain values.
pub enum MsgView {
    Perf(PerfView),
    SyncRequest,
    SyncResponse(Seq<PerfView>),
}

impl View for GossipMsg {
    type V = MsgView;

    open spec fn view(&self) -> MsgView {
        match self {
            GossipMsg::Perf { node_perf } => MsgView::Perf(node_perf@),
            GossipMsg::SyncRequest => MsgView::SyncRequest,
            GossipMsg::SyncResponse { perfs } => MsgView::SyncResponse(
                perfs@.map_values(|p: NodePerf| p@),
            ),
        }
    }
}

/// The encoding of a whole message.
pub open spec fn enc_msg(m: MsgView) -> Seq<u8> {
    match m {
        MsgView::Perf(p) => seq![0u8] + enc_perf(p),
        MsgView::SyncRequest => seq![1u8],
        MsgView::SyncResponse(ps) => seq![2u8] + enc_u64(ps.len() as u64) + enc_perf_items(ps),
    }
}

/// The message that frame `s` holds; `None` unless `s` is exactly one
/// encoded message.
pub open spec fn dec_msg(s: Seq<u8>) -> Option<MsgView> {
    if s.len() == 0 {
        None
    } else if s[0] == 0 {
        match dec_perf(s.drop_first()) {
            Some((p, rest)) => if rest.len() == 0 {
                Some(MsgView::Perf(p))
            } else {
                None
            },
            None => None,
        }
    } else if s[0] == 1 {
        if s.len() == 1 {
            Some(MsgView::SyncRequest)
        } else {
            None
        }
    } else if s[0] == 2 {
        match dec_u64(s.drop_first()) {
            Some((n, r1)) => match dec_perf_items(r1, n as nat) {
                Some((ps, rest)) => if rest.len() == 0 {
                    Some(MsgView::SyncResponse(ps))
                } else {
                    None
                },
                None => None,
            },
            None => None,
        }
    } else {
        None
    }
}

/// Every length in the profile fits the 8-byte length fields.
pub open spec fn perf_fits(p: PerfView) -> bool {
    &&& p.node_id.len() <= u64::MAX
    &&& p.layer_latency.len() <= u64::MAX
    &&& p.rtt.len() <= u64::MAX
}

/// Every length in the message fits the 8-byte length fields.
pub open spec fn msg_fits(m: MsgView) -> bool {
    match m {
        MsgView::Perf(p) => perf_fits(p),
        MsgView::SyncRequest => true,
        MsgView::SyncResponse(ps) => ps.len() <= u64::MAX && forall|q: int|
            0 <= q < ps.len() ==> perf_fits(#[trigger] ps[q]),
    }
}

proof fn lemma_u32_round_trip(x: u32, rest: Seq<u8>)
    ensures
        dec_u32(enc_u64(x as u64) + rest) == Some((x, rest)),
{
    lemma_u64_round_trip(x as u64, rest);
}

proof fn lemma_bytes_round_trip(b: Seq<u8>, rest: Seq<u8>)
    requires
        b.len() <= u64::MAX,
    ensures
        dec_bytes(enc_bytes(b) + rest) == Some((b, rest)),
{
    lemma_u64_round_trip(b.len() as u64, b + rest);
    assert(enc_bytes(b) + rest =~= enc_u64(b.len() as u64) + (b + rest));
    assert((b + rest).take(b.len() as int) =~= b);
    assert((b + rest).skip(b.len() as int) =~= rest);
}

proof fn lemma_latency_round_trip(v: Seq<(u32, u32)>, rest: Seq<u8>)
    ensures
        dec_latency_items(enc_latency_items(v) + rest, v.len()) == Some((v, rest)),
    decreases v.len(),
{
    if v.len() > 0 {
        let tail = enc_latency_items(v.drop_first()) + rest;
        lemma_latency_round_trip(v.drop_first(), rest);
        lemma_u32_round_trip(v[0].1, tail);
        lemma_u32_round_trip(v[0].0, enc_u64(v[0].1 as u64) + tail);
        assert(enc_latency_items(v) + rest =~= enc_u64(v[0].0 as u64) + (enc_u64(v[0].1 as u64) + tail));
        assert(seq![(v[0].0, v[0].1)] + v.drop_first() =~= v);
    } else {
        assert(enc_latency_items(v) + rest =~= rest);
        assert(v =~= Seq::<(u32, u32)>::empty());
    }
}

proof fn lemma_rtt_round_trip(v: Seq<(u64, u32)>, rest: Seq<u8>)
    ensures
        dec_rtt_items(enc_rtt_items(v) + rest, v.len()) == Some((v, rest)),
    decreases v.len(),
{
    if v.len() > 0 {
        let tail = enc_rtt_items(v.drop_first()) + rest;
        lemma_rtt_round_trip(v.drop_first(), rest);
        lemma_u32_round_trip(v[0].1, tail);
        lemma_u64_round_trip(v[0].0, enc_u64(v[0].1 as u64) + tail);
        assert(enc_rtt_items(v) + rest =~= enc_u64(v[0].0) + (enc_u64(v[0].1 as u64) + tail));
        assert(seq![(v[0].0, v[0].1)] + v.drop_first() =~= v);
    } else {
        assert(enc_rtt_items(v) + rest =~= rest);
        assert(v =~= Seq::<(u64, u32)>::empty());
    }
}

proof fn lemma_perf_round_trip(p: PerfView, rest: Seq<u8>)
    requires
        perf_fits(p),
    ensures
        dec_perf(enc_perf(p) + rest) == Some((p, rest)),
{
    reveal(enc_perf);
    reveal(dec_perf);
    let r7 = rest;
    let r6 = enc_u64(p.timestamp_ms) + r7;
    let r5 = enc_rtt_items(p.rtt) + r6;
    let r4 = enc_u64(p.rtt.len() as u64) + r5;
    let r3 = enc_latency_items(p.layer_latency) + r4;
    let r2 = enc_u64(p.layer_latency.len() as u64) + r3;
    let r1 = enc_u64(p.ram_tokens) + r2;
    assert(enc_perf(p) + rest =~= enc_bytes(p.node_id) + r1);
    lemma_bytes_round_trip(p.node_id, r1);
    lemma_u64_round_trip(p.ram_tokens, r2);
    lemma_u64_round_trip(p.layer_latency.len() as u64, r3);
    lemma_latency_round_trip(p.layer_latency, r4);
    lemma_u64_round_trip(p.rtt.len() as u64, r5);
    lemma_rtt_round_trip(p.rtt, r6);
    lemma_u64_round_trip(p.timestamp_ms, r7);
}

proof fn lemma_perf_items_round_trip(v: Seq<PerfView>, rest: Seq<u8>)
    requires
        forall|q: int| 0 <= q < v.len() ==> perf_fits(#[trigger] v[q]),
    ensures
        dec_perf_items(enc_perf_items(v) + rest, v.len()) == Some((v, rest)),
    decreases v.len(),
{
    if v.len() > 0 {
        let tail = enc_perf_items(v.drop_first()) + rest;
        assert(perf_fits(v[0]));
        assert forall|q: int| 0 <= q < v.drop_first().len() implies perf_fits(#[trigger] v.drop_first()[q]) by {
            assert(v.drop_first()[q] == v[q + 1]);
        }
        lemma_perf_items_round_trip(v.drop_first(), rest);
        lemma_perf_round_trip(v[0], tail);
        assert(enc_perf_items(v) + rest =~= enc_perf(v[0]) + tail);
        assert(seq![v[0]] + v.drop_first() =~= v);
    } else {
        assert(enc_perf_items(v) + rest =~= rest);
        assert(v =~= Seq::<PerfView>::empty());
    }
}

/// Decoding the encoding of a message gives the message back.
pub proof fn lemma_round_trip(m: MsgView)
    requires
        msg_fits(m),
    ensures
        dec_msg(enc_msg(m)) == Some(m),
{
    let e = Seq::<u8>::empty();
    match m {
        MsgView::Perf(p) => {
            lemma_perf_round_trip(p, e);
            assert((seq![0u8] + enc_perf(p)).drop_first() =~= enc_perf(p) + e);
        },
        MsgView::SyncRequest => {},
        MsgView::SyncResponse(ps) => {
            lemma_perf_items_round_trip(ps, e);
            lemma_u64_round_trip(ps.len() as u64, enc_perf_items(ps) + e);
            assert((seq![2u8] + enc_u64(ps.len() as u64) + enc_perf_items(ps)).drop_first()
                =~= enc_u64(ps.len() as u64) + (enc_perf_items(ps) + e));
        },
    }
}

proof fn lemma_pow256_le(n: nat)
    requires
        n <= 8,
    ensures
        pow256(n) <= 0x1_0000_0000_0000_0000,
        pow256(n) > 0,
{
    reveal_with_fuel(pow256, 9);
}

/// Appends the 8 little-endian bytes of `x`.
fn write_u64(out: &mut Vec<u8>, x: u64)
    ensures
        final(out)@ == old(out)@ + enc_u64(x),
{
    let ghost start = out@;
    let mut cur: u64 = x;
    let mut i: usize = 0;
    proof {
        assert(start + le_bytes(x as nat, 8) =~= out@ + le_bytes(cur as nat, 8));
    }
    while i < 8
        invariant
            i <= 8,
            start + le_bytes(x as nat, 8) == out@ + le_bytes(cur as nat, (8 - i) as nat),
        decreases 8 - i,
    {
        let ghost before = out@;
        out.push((cur % 256) as u8);
        proof {
            assert(before + le_bytes(cur as nat, (8 - i) as nat) =~= out@ + le_bytes(
                (cur / 256) as nat,
                (8 - i - 1) as nat,
            ));
        }
        cur = cur / 256;
        i = i + 1;
    }
    proof {
        assert(out@ + le_bytes(cur as nat, 0) =~= out@);
    }
}

/// Appends `b` with its length in front.
fn write_bytes(out: &mut Vec<u8>, b: &Vec<u8>)
    ensures
        final(out)@ == old(out)@ + enc_bytes(b@),
{
    let ghost start = out@;
    write_u64(out, b.len() as u64);
    let ghost mid = out@;
    let mut i: usize = 0;
    while i < b.len()
        invariant
            i <= b@.len(),
            out@ == mid + b@.take(i as int),
        decreases b@.len() - i,
    {
        out.push(b[i]);
        proof {
            assert(out@ =~= mid + b@.take(i as int + 1));
        }
        i = i + 1;
    }
    proof {
        assert(b@.take(i as int) =~= b@);
        assert(out@ =~= start + enc_bytes(b@));
    }
}

proof fn lemma_latency_items_push(v: Seq<(u32, u32)>, x: (u32, u32))
    ensures
        enc_latency_items(v.push(x)) == enc_latency_items(v) + enc_u64(x.0 as u64) + enc_u64(x.1 as u64),
    decreases v.len(),
{
    if v.len() > 0 {
        lemma_latency_items_push(v.drop_first(), x);
        assert(v.push(x).drop_first() =~= v.drop_first().push(x));
        assert(v.push(x)[0] == v[0]);
        assert(enc_latency_items(v.push(x)) =~= enc_latency_items(v) + enc_u64(x.0 as u64) + enc_u64(
            x.1 as u64,
        ));
    } else {
        assert(v.push(x).drop_first() =~= Seq::<(u32, u32)>::empty());
        assert(v.push(x)[0] == x);
        assert(enc_latency_items(Seq::<(u32, u32)>::empty()) == Seq::<u8>::empty());
        assert(v =~= Seq::<(u32, u32)>::empty());
        assert(enc_latency_items(v.push(x)) =~= enc_latency_items(v) + enc_u64(x.0 as u64) + enc_u64(
            x.1 as u64,
        ));
    }
}

proof fn lemma_rtt_items_push(v: Seq<(u64, u32)>, x: (u64, u32))
    ensures
        enc_rtt_items(v.push(x)) == enc_rtt_items(v) + enc_u64(x.0) + enc_u64(x.1 as u64),
    decreases v.len(),
{
    if v.len() > 0 {
        lemma_rtt_items_push(v.drop_first(), x);
        assert(v.push(x).drop_first() =~= v.drop_first().push(x));
        assert(v.push(x)[0] == v[0]);
        assert(enc_rtt_items(v.push(x)) =~= enc_rtt_items(v) + enc_u64(x.0) + enc_u64(x.1 as u64));
    } else {
        assert(v.push(x).drop_first() =~= Seq::<(u64, u32)>::empty());
        assert(v.push(x)[0] == x);
        assert(enc_rtt_items(Seq::<(u64, u32)>::empty()) == Seq::<u8>::empty());
        assert(v =~= Seq::<(u64, u32)>::empty());
        assert(enc_rtt_items(v.push(x)) =~= enc_rtt_items(v) + enc_u64(x.0) + enc_u64(x.1 as u64));
    }
}

proof fn lemma_perf_items_push(v: Seq<PerfView>, x: PerfView)
    ensures
        enc_perf_items(v.push(x)) == enc_perf_items(v) + enc_perf(x),
    decreases v.len(),
{
    if v.len() > 0 {
        lemma_perf_items_push(v.drop_first(), x);
        assert(v.push(x).drop_first() =~= v.drop_first().push(x));
        assert(v.push(x)[0] == v[0]);
        assert(enc_perf_items(v.push(x)) =~= enc_perf_items(v) + enc_perf(x));
    } else {
        assert(v.push(x).drop_first() =~= Seq::<PerfView>::empty());
        assert(v.push(x)[0] == x);
        assert(enc_perf_items(Seq::<PerfView>::empty()) == Seq::<u8>::empty());
        assert(v =~= Seq::<PerfView>::empty());
        assert(enc_perf_items(v.push(x)) =~= enc_perf_items(v) + enc_perf(x));
    }
}

/// Appends the encoding of one profile.
fn write_perf(out: &mut Vec<u8>, p: &NodePerf)
    ensures
        final(out)@ == old(out)@ + enc_perf(p@),
{
    let ghost start = out@;
    write_bytes(out, &p.node_id);
    write_u64(out, p.ram_tokens);
    write_u64(out, p.layer_latency.len() as u64);
    let ghost mid = out@;
    let mut i: usize = 0;
    while i < p.layer_latency.len()
        invariant
            i <= p.layer_latency@.len(),
            out@ == mid + enc_latency_items(p.layer_latency@.take(i as int)),
        decreases p.layer_latency@.len() - i,
    {
        let (a, b) = p.layer_latency[i];
        write_u64(out, a as u64);
        write_u64(out, b as u64);
        proof {
            assert(p.layer_latency@.take(i as int + 1) =~= p.layer_latency@.take(i as int).push((a, b)));
            lemma_latency_items_push(p.layer_latency@.take(i as int), (a, b));
            assert(out@ =~= mid + enc_latency_items(p.layer_latency@.take(i as int + 1)));
        }
        i = i + 1;
    }
    proof {
        assert(p.layer_latency@.take(i as int) =~= p.layer_latency@);
    }
    write_u64(out, p.rtt.len() as u64);
    let ghost mid2 = out@;
    let mut i: usize = 0;
    while i < p.rtt.len()
        invariant
            i <= p.rtt@.len(),
            out@ == mid2 + enc_rtt_items(p.rtt@.take(i as int)),
        decreases p.rtt@.len() - i,
    {
        let (a, b) = p.rtt[i];
        write_u64(out, a);
        write_u64(out, b as u64);
        proof {
            assert(p.rtt@.take(i as int + 1) =~= p.rtt@.take(i as int).push((a, b)));
            lemma_rtt_items_push(p.rtt@.take(i as int), (a, b));
            assert(out@ =~= mid2 + enc_rtt_items(p.rtt@.take(i as int + 1)));
        }
        i = i + 1;
    }
    proof {
        assert(p.rtt@.take(i as int) =~= p.rtt@);
    }
    write_u64(out, p.timestamp_ms);
    proof {
        reveal(enc_perf);
        assert(out@ =~= start + enc_perf(p@));
    }
}

/// The bytes of `msg`, laid out as `enc_msg` says.
pub fn encode(msg: &GossipMsg) -> (out: Vec<u8>)
    ensures
        out@ == enc_msg(msg@),
{
    let mut out: Vec<u8> = Vec::new();
    match msg {
        GossipMsg::Perf { node_perf } => {
            out.push(0u8);
            write_perf(&mut out, node_perf);
            proof {
                assert(out@ =~= enc_msg(msg@));
            }
        },
        GossipMsg::SyncRequest => {
            out.push(1u8);
            proof {
                assert(out@ =~= enc_msg(msg@));
            }
        },
        GossipMsg::SyncResponse { perfs } => {
            out.push(2u8);
            write_u64(&mut out, perfs.len() as u64);
            let ghost mid = out@;
            let ghost views = perfs@.map_values(|p: NodePerf| p@);
            let mut i: usize = 0;
            while i < perfs.len()
                invariant
                    i <= perfs@.len(),
                    views == perfs@.map_values(|p: NodePerf| p@),
                    out@ == mid + enc_perf_items(views.take(i as int)),
                decreases perfs@.len() - i,
            {
                write_perf(&mut out, &perfs[i]);
                proof {
                    assert(views.take(i as int + 1) =~= views.take(i as int).push(perfs@[i as int]@));
                    lemma_perf_items_push(views.take(i as int), perfs@[i as int]@);
                    assert(out@ =~= mid + enc_perf_items(views.take(i as int + 1)));
                }
                i = i + 1;
            }
            proof {
                assert(views.take(i as int) =~= views);
                assert(out@ =~= enc_msg(msg@));
            }
        },
    }
    out
}

/// Reads 8 little-endian bytes at `pos`.
fn read_u64(bytes: &Vec<u8>, pos: usize) -> (r: Option<(u64, usize)>)
    requires
        pos <= bytes@.len(),
    ensures
        match r {
            Some((x, next)) => next <= bytes@.len() && dec_u64(bytes@.skip(pos as int)) == Some(
                (x, bytes@.skip(next as int)),
            ),
            None => dec_u64(bytes@.skip(pos as int)) is None,
        },
{
    if bytes.len() - pos < 8 {
        return None;
    }
    let ghost s = bytes@;
    let len = bytes.len();
    let mut v: u64 = 0;
    let mut q: usize = 8;
    proof {
        assert(s.subrange(pos + 8, pos + 8) =~= Seq::<u8>::empty());
    }
    while q > 0
        invariant
            q <= 8,
            pos + 8 <= s.len(),
            len == s.len(),
            s == bytes@,
            v as nat == le_value(s.subrange(pos + q, pos + 8)),
            (v as nat) < pow256((8 - q) as nat),
        decreases q,
    {
        q = q - 1;
        proof {
            lemma_pow256_le((8 - q) as nat);
            assert(pow256((8 - q) as nat) == 256 * pow256((8 - q - 1) as nat));
            assert(s.subrange(pos + q, pos + 8).drop_first() =~= s.subrange(pos + q + 1, pos + 8));
            assert((v as nat) * 256 + 255 < pow256((8 - q) as nat)) by (nonlinear_arith)
                requires
                    (v as nat) < pow256((8 - q - 1) as nat),
                    pow256((8 - q) as nat) == 256 * pow256((8 - q - 1) as nat),
            ;
        }
        assert((v as int) * 256 + 255 <= 0xffff_ffff_ffff_ffff);
        v = v * 256 + bytes[pos + q] as u64;
    }
    proof {
        assert(s.skip(pos as int).take(8) =~= s.subrange(pos as int, pos + 8));
        assert(s.skip(pos as int).skip(8) =~= s.skip(pos + 8));
    }
    Some((v, pos + 8))
}

/// Reads an integer field at `pos` that must fit in a `u32`.
fn read_u32(bytes: &Vec<u8>, pos: usize) -> (r: Option<(u32, usize)>)
    requires
        pos <= bytes@.len(),
    ensures
        match r {
            Some((x, next)) => next <= bytes@.len() && dec_u32(bytes@.skip(pos as int)) == Some(
                (x, bytes@.skip(next as int)),
            ),
            None => dec_u32(bytes@.skip(pos as int)) is None,
        },
{
    match read_u64(bytes, pos) {
        Some((x, next)) => if x <= 0xffff_ffff {
            Some((x as u32, next))
        } else {
            None
        },
        None => None,
    }
}

/// Reads a length-prefixed byte string at `pos`.
fn read_bytes(bytes: &Vec<u8>, pos: usize) -> (r: Option<(Vec<u8>, usize)>)
    requires
        pos <= bytes@.len(),
    ensures
        match r {
            Some((b, next)) => next <= bytes@.len() && dec_bytes(bytes@.skip(pos as int)) == Some(
                (b@, bytes@.skip(next as int)),
            ),
            None => dec_bytes(bytes@.skip(pos as int)) is None,
        },
{
    let (n, start) = match read_u64(bytes, pos) {
        Some(v) => v,
        None => return None,
    };
    if ((bytes.len() - start) as u64) < n {
        return None;
    }
    let n = n as usize;
    assert(start + n <= bytes@.len());
    let len = bytes.len();
    let mut out: Vec<u8> = Vec::new();
    let mut i: usize = 0;
    while i < n
        invariant
            i <= n,
            start + n <= bytes@.len(),
            len == bytes@.len(),
            out@ == bytes@.subrange(start as int, start + i),
        decreases n - i,
    {
        out.push(bytes[start + i]);
        proof {
            assert(out@ =~= bytes@.subrange(start as int, start + i + 1));
        }
        i = i + 1;
    }
    proof {
        assert(bytes@.skip(start as int).take(n as int) =~= out@);
        assert(bytes@.skip(start as int).skip(n as int) =~= bytes@.skip(start + n));
    }
    Some((out, start + n))
}

/// Reads `n` (layer, latency) pairs at `pos`.
fn read_latency(bytes: &Vec<u8>, pos: usize, n: u64) -> (r: Option<(Vec<(u32, u32)>, usize)>)
    requires
        pos <= bytes@.len(),
    ensures
        match r {
            Some((v, next)) => next <= bytes@.len() && dec_latency_items(bytes@.skip(pos as int), n as nat)
                == Some((v@, bytes@.skip(next as int))),
            None => dec_latency_items(bytes@.skip(pos as int), n as nat) is None,
        },
{
    let mut acc: Vec<(u32, u32)> = Vec::new();
    let mut p = pos;
    let mut i: u64 = 0;
    while i < n
        invariant
            i <= n,
            p <= bytes@.len(),
            dec_latency_items(bytes@.skip(pos as int), n as nat) == match dec_latency_items(
                bytes@.skip(p as int),
                (n - i) as nat,
            ) {
                Some((items, rest)) => Some((acc@ + items, rest)),
                None => None,
            },
        decreases n - i,
    {
        let (a, at1) = match read_u32(bytes, p) {
            Some(v) => v,
            None => return None,
        };
        let (b, at2) = match read_u32(bytes, at1) {
            Some(v) => v,
            None => return None,
        };
        proof {
            let later = dec_latency_items(bytes@.skip(at2 as int), (n - i - 1) as nat);
            if let Some((items, rest)) = later {
                assert(acc@.push((a, b)) + items =~= acc@ + (seq![(a, b)] + items));
            }
        }
        acc.push((a, b));
        p = at2;
        i = i + 1;
    }
    proof {
        assert(acc@ + Seq::<(u32, u32)>::empty() =~= acc@);
    }
    Some((acc, p))
}

/// Reads `n` (peer, round-trip) pairs at `pos`.
fn read_rtt(bytes: &Vec<u8>, pos: usize, n: u64) -> (r: Option<(Vec<(u64, u32)>, usize)>)
    requires
        pos <= bytes@.len(),
    ensures
        match r {
            Some((v, next)) => next <= bytes@.len() && dec_rtt_items(bytes@.skip(pos as int), n as nat)
                == Some((v@, bytes@.skip(next as int))),
            None => dec_rtt_items(bytes@.skip(pos as int), n as nat) is None,
        },
{
    let mut acc: Vec<(u64, u32)> = Vec::new();
    let mut p = pos;
    let mut i: u64 = 0;
    while i < n
        invariant
            i <= n,
            p <= bytes@.len(),
            dec_rtt_items(bytes@.skip(pos as int), n as nat) == match dec_rtt_items(
                bytes@.skip(p as int),
                (n - i) as nat,
            ) {
                Some((items, rest)) => Some((acc@ + items, rest)),
                None => None,
            },
        decreases n - i,
    {
        let (a, at1) = match read_u64(bytes, p) {
            Some(v) => v,
            None => return None,
        };
        let (b, at2) = match read_u32(bytes, at1) {
            Some(v) => v,
            None => return None,
        };
        proof {
            let later = dec_rtt_items(bytes@.skip(at2 as int), (n - i - 1) as nat);
            if let Some((items, rest)) = later {
                assert(acc@.push((a, b)) + items =~= acc@ + (seq![(a, b)] + items));
            }
        }
        acc.push((a, b));
        p = at2;
        i = i + 1;
    }
    proof {
        assert(acc@ + Seq::<(u64, u32)>::empty() =~= acc@);
    }
    Some((acc, p))
}

/// Reads one profile at `pos`.
fn read_perf(bytes: &Vec<u8>, pos: usize) -> (r: Option<(NodePerf, usize)>)
    requires
        pos <= bytes@.len(),
    ensures
        match r {
            Some((v, next)) => next <= bytes@.len() && dec_perf(bytes@.skip(pos as int)) == Some(
                (v@, bytes@.skip(next as int)),
            ),
            None => dec_perf(bytes@.skip(pos as int)) is None,
        },
{
    proof {
        reveal(dec_perf);
    }
    let (node_id, at1) = match read_bytes(bytes, pos) {
        Some(v) => v,
        None => return None,
    };
    let (ram_tokens, at2) = match read_u64(bytes, at1) {
        Some(v) => v,
        None => return None,
    };
    let (nl, at3) = match read_u64(bytes, at2) {
        Some(v) => v,
        None => return None,
    };
    let (layer_latency, at4) = match read_latency(bytes, at3, nl) {
        Some(v) => v,
        None => return None,
    };
    let (nr, at5) = match read_u64(bytes, at4) {
        Some(v) => v,
        None => return None,
    };
    let (rtt, at6) = match read_rtt(bytes, at5, nr) {
        Some(v) => v,
        None => return None,
    };
    let (timestamp_ms, at7) = match read_u64(bytes, at6) {
        Some(v) => v,
        None => return None,
    };
    Some((NodePerf { node_id, ram_tokens, layer_latency, rtt, timestamp_ms }, at7))
}

/// The message that `bytes` holds, as `dec_msg` says: `None` unless the
/// frame is exactly one encoded message.
pub fn decode(bytes: &Vec<u8>) -> (r: Option<GossipMsg>)
    ensures
        match r {
            Some(m) => dec_msg(bytes@) == Some(m@),
            None => dec_msg(bytes@) is None,
        },
{
    if bytes.len() == 0 {
        return None;
    }
    proof {
        assert(bytes@.skip(1) =~= bytes@.drop_first());
    }
    let tag = bytes[0];
    if tag == 0 {
        match read_perf(bytes, 1) {
            Some((p, next)) => if next == bytes.len() {
                Some(GossipMsg::Perf { node_perf: p })
            } else {
                None
            },
            None => None,
        }
    } else if tag == 1 {
        if bytes.len() == 1 {
            Some(GossipMsg::SyncRequest)
        } else {
            None
        }
    } else if tag == 2 {
        let (n, start) = match read_u64(bytes, 1) {
            Some(v) => v,
            None => return None,
        };
        let mut acc: Vec<NodePerf> = Vec::new();
        let mut p = start;
        let mut i: u64 = 0;
        while i < n
            invariant
                i <= n,
                p <= bytes@.len(),
                bytes@.len() > 0,
                bytes@[0] == 2,
                dec_u64(bytes@.drop_first()) == Some((n, bytes@.skip(start as int))),
                dec_perf_items(bytes@.skip(start as int), n as nat) == match dec_perf_items(
                    bytes@.skip(p as int),
                    (n - i) as nat,
                ) {
                    Some((items, rest)) => Some((acc@.map_values(|q: NodePerf| q@) + items, rest)),
                    None => None,
                },
            decreases n - i,
        {
            let (item, at1) = match read_perf(bytes, p) {
                Some(v) => v,
                None => return None,
            };
            proof {
                let later = dec_perf_items(bytes@.skip(at1 as int), (n - i - 1) as nat);
                if let Some((items, rest)) = later {
                    assert(acc@.push(item).map_values(|q: NodePerf| q@) + items =~= acc@.map_values(
                        |q: NodePerf| q@,
                    ) + (seq![item@] + items));
                }
            }
            acc.push(item);
            p = at1;
            i = i + 1;
        }
        proof {
            assert(acc@.map_values(|q: NodePerf| q@) + Seq::<PerfView>::empty() =~= acc@.map_values(
                |q: NodePerf| q@,
            ));
        }
        if p == bytes.len() {
            Some(GossipMsg::SyncResponse { perfs: acc })
        } else {
            None
        }
    } else {
        None
    }
}

} // verus!
