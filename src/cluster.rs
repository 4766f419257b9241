//! The cluster map: each node's latest performance profile, merged by a
//! last-writer-wins rule on the sample timestamp.
use vstd::prelude::*;

verus! {

/// The largest gossip message, in bytes; a longer stream is dropped.
pub const MAX_FRAME: usize = 1048576;

/// One node's performance profile, the unit that gossip exchanges.
///
/// Millisecond measurements are 32-bit floats on the wire; they are kept
/// here as their IEEE-754 bit patterns, which round-trip exactly.
pub struct NodePerf {
    /// Stable node identifier, as UTF-8 bytes.
    pub node_id: Vec<u8>,
    /// Abstract units of host memory available for weights and caches.
    pub ram_tokens: u64,
    /// (layer index, forward-pass latency in ms as f32 bits).
    pub layer_latency: Vec<(u32, u32)>,
    /// (peer node id, round-trip time in ms as f32 bits).
    pub rtt: Vec<(u64, u32)>,
    /// Wall-clock milliseconds at sample time; non-decreasing per node.
    pub timestamp_ms: u64,
}

/// A profile as plain values.
pub struct PerfView {
    pub node_id: Seq<u8>,
    pub ram_tokens: u64,
    pub layer_latency: Seq<(u32, u32)>,
    pub rtt: Seq<(u64, u32)>,
    pub timestamp_ms: u64,
}

impl View for NodePerf {
    type V = PerfView;

    open spec fn view(&self) -> PerfView {
        PerfView {
            node_id: self.node_id@,
            ram_tokens: self.ram_tokens,
            layer_latency: self.layer_latency@,
            rtt: self.rtt@,
            timestamp_ms: self.timestamp_ms,
        }
    }
}

fn copy_bytes(v: &Vec<u8>) -> (out: Vec<u8>)
    ensures
        out@ == v@,
{
    let mut out: Vec<u8> = Vec::new();
    let mut i: usize = 0;
    while i < v.len()
        invariant
            i <= v@.len(),
            out@ == v@.subrange(0, i as int),
        decreases v@.len() - i,
    {
        out.push(v[i]);
        proof {
            assert(out@ =~= v@.subrange(0, i as int + 1));
        }
        i = i + 1;
    }
    proof {
        assert(v@.subrange(0, i as int) =~= v@);
    }
    out
}

fn copy_latency(v: &Vec<(u32, u32)>) -> (out: Vec<(u32, u32)>)
    ensures
        out@ == v@,
{
    let mut out: Vec<(u32, u32)> = Vec::new();
    let mut i: usize = 0;
    while i < v.len()
        invariant
            i <= v@.len(),
            out@ == v@.subrange(0, i as int),
        decreases v@.len() - i,
    {
        out.push(v[i]);
        proof {
            assert(out@ =~= v@.subrange(0, i as int + 1));
        }
        i = i + 1;
    }
    proof {
        assert(v@.subrange(0, i as int) =~= v@);
    }
    out
}

fn copy_rtt(v: &Vec<(u64, u32)>) -> (out: Vec<(u64, u32)>)
    ensures
        out@ == v@,
{
    let mut out: Vec<(u64, u32)> = Vec::new();
    let mut i: usize = 0;
    while i < v.len()
        invariant
            i <= v@.len(),
            out@ == v@.subrange(0, i as int),
        decreases v@.len() - i,
    {
        out.push(v[i]);
        proof {
            assert(out@ =~= v@.subrange(0, i as int + 1));
        }
        i = i + 1;
    }
    proof {
        assert(v@.subrange(0, i as int) =~= v@);
    }
    out
}

/// Whether two byte strings are equal.
fn same_bytes(a: &Vec<u8>, b: &Vec<u8>) -> (r: bool)
    ensures
        r == (a@ == b@),
{
    if a.len() != b.len() {
        return false;
    }
    let mut i: usize = 0;
    while i < a.len()
        invariant
            i <= a@.len(),
            a@.len() == b@.len(),
            forall|q: int| 0 <= q < i ==> a@[q] == b@[q],
        decreases a@.len() - i,
    {
        if a[i] != b[i] {
            return false;
        }
        i = i + 1;
    }
    proof {
        assert(a@ =~= b@);
    }
    true
}

impl NodePerf {
    /// A separate copy of this profile.
    pub fn duplicate(&self) -> (q: NodePerf)
        ensures
            q@ == self@,
    {
        NodePerf {
            node_id: copy_bytes(&self.node_id),
            ram_tokens: self.ram_tokens,
            layer_latency: copy_latency(&self.layer_latency),
            rtt: copy_rtt(&self.rtt),
            timestamp_ms: self.timestamp_ms,
        }
    }
}

/// The plain values of a sequence of profiles.
pub open spec fn views(s: Seq<NodePerf>) -> Seq<PerfView> {
    s.map_values(|p: NodePerf| p@)
}

/// The DHT record key of a node's profile: `perf/` followed by its id.
pub fn perf_key(node_id: &Vec<u8>) -> (k: Vec<u8>)
    ensures
        k@ == seq![112u8, 101u8, 114u8, 102u8, 47u8] + node_id@,
{
    let mut k: Vec<u8> = Vec::new();
    k.push(112u8);
    k.push(101u8);
    k.push(114u8);
    k.push(102u8);
    k.push(47u8);
    let ghost prefix = k@;
    let mut i: usize = 0;
    while i < node_id.len()
        invariant
            i <= node_id@.len(),
            k@ == prefix + node_id@.take(i as int),
        decreases node_id@.len() - i,
    {
        k.push(node_id[i]);
        proof {
            assert(k@ =~= prefix + node_id@.take(i as int + 1));
        }
        i = i + 1;
    }
    proof {
        assert(node_id@.take(i as int) =~= node_id@);
        assert(prefix =~= seq![112u8, 101u8, 114u8, 102u8, 47u8]);
    }
    k
}

/// The map from node id to profile that a sequence of profiles with
/// distinct ids stands for.
pub open spec fn map_of(s: Seq<PerfView>) -> Map<Seq<u8>, PerfView>
    decreases s.len(),
{
    if s.len() == 0 {
        Map::empty()
    } else {
        map_of(s.drop_last()).insert(s.last().node_id, s.last())
    }
}

/// No two profiles of `s` share a node id.
pub open spec fn distinct_ids(s: Seq<PerfView>) -> bool {
    forall|a: int, b: int| 0 <= a < b < s.len() ==> s[a].node_id != s[b].node_id
}

proof fn lemma_map_of_dom(s: Seq<PerfView>, id: Seq<u8>)
    ensures
        map_of(s).contains_key(id) <==> exists|i: int| 0 <= i < s.len() && s[i].node_id == id,
    decreases s.len(),
{
    if s.len() > 0 {
        lemma_map_of_dom(s.drop_last(), id);
        if map_of(s.drop_last()).contains_key(id) {
            let i = choose|i: int| 0 <= i < s.drop_last().len() && s.drop_last()[i].node_id == id;
            assert(s[i].node_id == id);
        }
        if exists|i: int| 0 <= i < s.len() && s[i].node_id == id {
            let i = choose|i: int| 0 <= i < s.len() && s[i].node_id == id;
            if i < s.len() - 1 {
                assert(s.drop_last()[i].node_id == id);
            }
        }
    }
}

proof fn lemma_map_of_at(s: Seq<PerfView>, i: int)
    requires
        distinct_ids(s),
        0 <= i < s.len(),
    ensures
        map_of(s).contains_key(s[i].node_id),
        map_of(s)[s[i].node_id] == s[i],
    decreases s.len(),
{
    if i < s.len() - 1 {
        lemma_map_of_at(s.drop_last(), i);
    }
}

proof fn lemma_map_of_update(s: Seq<PerfView>, i: int, v: PerfView)
    requires
        distinct_ids(s),
        0 <= i < s.len(),
        v.node_id == s[i].node_id,
    ensures
        map_of(s.update(i, v)) == map_of(s).insert(v.node_id, v),
    decreases s.len(),
{
    let t = s.update(i, v);
    if i == s.len() - 1 {
        assert(t.drop_last() =~= s.drop_last());
        assert(map_of(t) =~= map_of(s).insert(v.node_id, v));
    } else {
        assert(t.drop_last() =~= s.drop_last().update(i, v));
        lemma_map_of_update(s.drop_last(), i, v);
        assert(map_of(t) =~= map_of(s).insert(v.node_id, v));
    }
}

proof fn lemma_map_of_len(s: Seq<PerfView>)
    requires
        distinct_ids(s),
    ensures
        map_of(s).dom().finite(),
        map_of(s).dom().len() == s.len(),
    decreases s.len(),
{
    if s.len() > 0 {
        lemma_map_of_len(s.drop_last());
        lemma_map_of_dom(s.drop_last(), s.last().node_id);
        assert(!map_of(s.drop_last()).contains_key(s.last().node_id));
        assert(map_of(s).dom() =~= map_of(s.drop_last()).dom().insert(s.last().node_id));
    } else {
        assert(map_of(s).dom() =~= Set::<Seq<u8>>::empty());
    }
}

/// The cluster map: node id to the newest profile seen for that node.
pub struct PerfMap {
    entries: Vec<NodePerf>,
}

impl PerfMap {
    /// The profiles held, in storage order.
    pub closed spec fn perfs(&self) -> Seq<PerfView> {
        views(self.entries@)
    }

    /// The map from node id to profile.
    pub closed spec fn view(&self) -> Map<Seq<u8>, PerfView> {
        map_of(self.perfs())
    }

    /// Each node has at most one entry.
    pub closed spec fn wf(&self) -> bool {
        distinct_ids(self.perfs())
    }

    /// An empty map.
    pub fn new() -> (m: Self)
        ensures
            m.wf(),
            m.view() == Map::<Seq<u8>, PerfView>::empty(),
    {
        let m = PerfMap { entries: Vec::new() };
        proof {
            assert(m.perfs() =~= Seq::<PerfView>::empty());
        }
        m
    }

    fn find(&self, node_id: &Vec<u8>) -> (r: Option<usize>)
        requires
            self.wf(),
        ensures
            match r {
                Some(i) => i < self.entries@.len() && self.entries@[i as int].node_id@ == node_id@,
                None => !self.view().contains_key(node_id@),
            },
    {
        let mut i: usize = 0;
        while i < self.entries.len()
            invariant
                i <= self.entries@.len(),
                forall|q: int| 0 <= q < i ==> self.entries@[q].node_id@ != node_id@,
            decreases self.entries@.len() - i,
        {
            if same_bytes(&self.entries[i].node_id, node_id) {
                return Some(i);
            }
            i = i + 1;
        }
        proof {
            lemma_map_of_dom(self.perfs(), node_id@);
        }
        None
    }

    /// Merges `p` in: it is stored when its node has no entry yet, or when
    /// its timestamp is strictly newer than the stored one; otherwise, equal
    /// timestamps included, the stored profile stays.
    pub fn insert_or_merge(&mut self, p: NodePerf)
        requires
            old(self).wf(),
        ensures
            final(self).wf(),
            !old(self).view().contains_key(p@.node_id) ==> final(self).view() == old(self).view().insert(
                p@.node_id,
                p@,
            ),
            old(self).view().contains_key(p@.node_id) ==> final(self).view() == if p@.timestamp_ms
                > old(self).view()[p@.node_id].timestamp_ms {
                old(self).view().insert(p@.node_id, p@)
            } else {
                old(self).view()
            },
            forall|id: Seq<u8>|
                old(self).view().contains_key(id) ==> final(self).view().contains_key(id)
                    && final(self).view()[id].timestamp_ms >= old(self).view()[id].timestamp_ms,
    {
        let ghost before = self.perfs();
        match self.find(&p.node_id) {
            Some(i) => {
                proof {
                    lemma_map_of_at(before, i as int);
                }
                if p.timestamp_ms > self.entries[i].timestamp_ms {
                    let ghost pv = p@;
                    self.entries.set(i, p);
                    proof {
                        assert(self.perfs() =~= before.update(i as int, pv));
                        lemma_map_of_update(before, i as int, pv);
                    }
                }
            },
            None => {
                let ghost pv = p@;
                self.entries.push(p);
                proof {
                    assert(self.perfs() =~= before.push(pv));
                    assert(self.perfs().drop_last() =~= before);
                    lemma_map_of_dom(before, pv.node_id);
                    assert forall|a: int, b: int|
                        0 <= a < b < self.perfs().len() implies self.perfs()[a].node_id
                        != self.perfs()[b].node_id by {
                        if b == before.len() {
                            assert(before[a].node_id != pv.node_id);
                        }
                    }
                }
            },
        }
    }

    /// The stored profile of `node_id`, if any.
    pub fn get(&self, node_id: &Vec<u8>) -> (r: Option<&NodePerf>)
        requires
            self.wf(),
        ensures
            match r {
                Some(q) => self.view().contains_key(node_id@) && q@ == self.view()[node_id@],
                None => !self.view().contains_key(node_id@),
            },
    {
        match self.find(node_id) {
            Some(i) => {
                proof {
                    lemma_map_of_at(self.perfs(), i as int);
                }
                Some(&self.entries[i])
            },
            None => None,
        }
    }

    /// The number of nodes with a profile.
    pub fn values_len(&self) -> (n: usize)
        requires
            self.wf(),
        ensures
            n == self.view().dom().len(),
    {
        proof {
            lemma_map_of_len(self.perfs());
        }
        self.entries.len()
    }

    /// A copy of every stored profile, one per node, in storage order.
    pub fn snapshot(&self) -> (out: Vec<NodePerf>)
        requires
            self.wf(),
        ensures
            distinct_ids(views(out@)),
            map_of(views(out@)) == self.view(),
    {
        let mut out: Vec<NodePerf> = Vec::new();
        let mut i: usize = 0;
        while i < self.entries.len()
            invariant
                i <= self.entries@.len(),
                out@.len() == i,
                views(out@) == self.perfs().subrange(0, i as int),
            decreases self.entries@.len() - i,
        {
            let d = self.entries[i].duplicate();
            let ghost prev = out@;
            out.push(d);
            proof {
                assert forall|q: int| 0 <= q < i + 1 implies #[trigger] views(out@)[q]
                    == self.perfs().subrange(0, i as int + 1)[q] by {
                    if q < i {
                        assert(out@[q] == prev[q]);
                        assert(views(prev)[q] == views(out@)[q]);
                        assert(views(prev)[q] == self.perfs().subrange(0, i as int)[q]);
                    }
                }
                assert(views(out@) =~= self.perfs().subrange(0, i as int + 1));
            }
            i = i + 1;
        }
        proof {
            assert(self.perfs().subrange(0, i as int) =~= self.perfs());
        }
        out
    }
}

} // verus!
