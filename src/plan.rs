//! From GPUs to a placement plan: GPU ordering, the replication ceiling,
//! the feasible replication counts, and the emission of contiguous layer
//! ranges per pipeline.
use vstd::prelude::*;
use crate::sums::{sum, lemma_sum_prefix, lemma_sum_nonneg};
use crate::scheduling::{Gpu, Decision, INF, layer_caps, search, solve_for_k, pipelines_of, reconstruct};
use crate::water_fill::{water_fill, is_fill, lemma_fill_unique};
use crate::optimality::{cap_total, lemma_pipelines_complete, lemma_replay_indices, lemma_search_sound, lemma_runs_forward};

verus! {

/// One stage of a pipeline: a GPU and the half-open layer range `[lo, hi)`
/// it hosts.
#[derive(Clone, Copy, Debug, PartialEq, Eq)]
pub struct Stage {
    pub gpu: Gpu,
    pub lo: usize,
    pub hi: usize,
}

/// A replication count for which the search found a way, with its stage
/// count and decisions.
#[derive(Clone, Debug)]
pub struct Candidate {
    pub k: usize,
    pub stages: usize,
    pub trace: Vec<Decision>,
}

/// `x` orders strictly before `y`: larger layer capacity first, then larger
/// compute capacity.
pub open spec fn ahead(x: Gpu, y: Gpu) -> bool {
    x.layer_cap > y.layer_cap || (x.layer_cap == y.layer_cap && x.compute_cap > y.compute_cap)
}

/// `s` with `x` placed before the first entry that it is ahead of.
pub open spec fn insert_by_cap(s: Seq<Gpu>, x: Gpu) -> Seq<Gpu>
    decreases s.len(),
{
    if s.len() == 0 {
        seq![x]
    } else if ahead(x, s[0]) {
        seq![x] + s
    } else {
        seq![s[0]] + insert_by_cap(s.drop_first(), x)
    }
}

/// Stable insertion sort of `s` by non-increasing layer capacity, then
/// non-increasing compute capacity.
pub open spec fn sorted_by_cap(s: Seq<Gpu>) -> Seq<Gpu>
    decreases s.len(),
{
    if s.len() == 0 {
        s
    } else {
        insert_by_cap(sorted_by_cap(s.drop_last()), s.last())
    }
}

proof fn lemma_insert_by_cap_at(s: Seq<Gpu>, x: Gpu, p: int)
    requires
        0 <= p <= s.len(),
        forall|q: int| 0 <= q < p ==> !ahead(x, s[q]),
        p < s.len() ==> ahead(x, s[p]),
    ensures
        insert_by_cap(s, x) == s.insert(p, x),
    decreases p,
{
    if p == 0 {
        assert(insert_by_cap(s, x) =~= s.insert(p, x));
    } else {
        lemma_insert_by_cap_at(s.drop_first(), x, p - 1);
        assert(insert_by_cap(s, x) =~= s.insert(p, x));
    }
}

/// The GPUs ordered by non-increasing layer capacity, then by
/// non-increasing compute capacity; GPUs equal in both keep their order.
pub fn sort_gpus(gpus: &Vec<Gpu>) -> (out: Vec<Gpu>)
    ensures
        out@ == sorted_by_cap(gpus@),
        by_capacity(out@),
        forall|i: int, j: int| 0 <= i < j < out@.len() ==> out@[i].layer_cap >= out@[j].layer_cap,
        out@.to_multiset() == gpus@.to_multiset(),
{
    proof {
        lemma_sorted_by_cap_props(gpus@);
    }
    let mut out: Vec<Gpu> = Vec::new();
    let mut j: usize = 0;
    while j < gpus.len()
        invariant
            j <= gpus@.len(),
            out@ == sorted_by_cap(gpus@.subrange(0, j as int)),
        decreases gpus@.len() - j,
    {
        proof {
            assert(gpus@.subrange(0, j as int + 1).drop_last() =~= gpus@.subrange(0, j as int));
        }
        let x = gpus[j];
        let mut p: usize = 0;
        while p < out.len() && !(out[p].layer_cap < x.layer_cap || (out[p].layer_cap == x.layer_cap
            && out[p].compute_cap < x.compute_cap))
            invariant
                p <= out@.len(),
                forall|q: int| 0 <= q < p ==> !ahead(x, out@[q]),
            decreases out@.len() - p,
        {
            p = p + 1;
        }
        proof {
            lemma_insert_by_cap_at(out@, x, p as int);
        }
        out.insert(p, x);
        j = j + 1;
    }
    proof {
        assert(gpus@.subrange(0, j as int) =~= gpus@);
        assert forall|a: int, b: int| 0 <= a < b < out@.len() implies out@[a].layer_cap >= out@[b].layer_cap by {
            assert(!ahead(out@[b], out@[a]));
        }
    }
    out
}

/// The replication ceiling `min(N, ⌊Σ layer_cap / L⌋)`, 0 when `L` is 0.
pub open spec fn k_max(gpus: Seq<Gpu>, l: usize) -> int {
    if l == 0 {
        0
    } else if sum(layer_caps(gpus)) / (l as int) < gpus.len() {
        sum(layer_caps(gpus)) / (l as int)
    } else {
        gpus.len() as int
    }
}

/// Computes `k_max(gpus, model_layer)`.
pub fn max_replicas(gpus: &Vec<Gpu>, model_layer: usize) -> (k: usize)
    ensures
        k == k_max(gpus@, model_layer),
{
    if model_layer == 0 {
        return 0;
    }
    let ghost caps = layer_caps(gpus@);
    let n = gpus.len();
    let big: u128 = usize::MAX as u128;
    let mut total: u128 = 0;
    let mut j: usize = 0;
    while j < n
        invariant
            j <= n,
            n == gpus@.len(),
            caps == layer_caps(gpus@),
            total as int == sum(caps.subrange(0, j as int)),
            total as int <= j as int * (big as int),
            big == usize::MAX as u128,
        decreases n - j,
    {
        proof {
            lemma_sum_prefix(caps, j as int);
            assert(total as int + caps[j as int] <= (j as int + 1) * (big as int)) by (nonlinear_arith)
                requires
                    total as int <= j as int * (big as int),
                    caps[j as int] <= big,
            ;
            assert((j as int + 1) * (big as int) <= big * big) by (nonlinear_arith)
                requires
                    j as int + 1 <= big,
            ;
            assert(big * big <= u128::MAX) by (nonlinear_arith)
                requires
                    big <= 0xffff_ffff_ffff_ffffu128,
            ;
        }
        total = total + gpus[j].layer_cap as u128;
        j = j + 1;
    }
    proof {
        assert(caps.subrange(0, n as int) =~= caps);
    }
    let q = total / model_layer as u128;
    if q < n as u128 {
        q as usize
    } else {
        n
    }
}

/// The feasible replication counts among `1..=m`, in increasing order,
/// each with the fewest stages and the decisions of the search.
pub open spec fn feasible_upto(caps: Seq<usize>, l: usize, m: int) -> Seq<(usize, nat, Seq<Decision>)>
    decreases m,
{
    if m <= 0 {
        Seq::empty()
    } else {
        let prev = feasible_upto(caps, l, m - 1);
        match search(caps, l, m as usize, 0, Seq::empty(), 0) {
            Some((s, t)) => prev.push((m as usize, s, t)),
            None => prev,
        }
    }
}

/// What a candidate records, as plain values.
pub open spec fn candidate_view(c: Candidate) -> (usize, nat, Seq<Decision>) {
    (c.k, c.stages as nat, c.trace@)
}

/// Runs the search for every replication count from 1 to `k_max` over the
/// GPUs in the given order and keeps the feasible ones.
pub fn feasible_candidates(gpus: &Vec<Gpu>, model_layer: usize) -> (res: Vec<Candidate>)
    requires
        gpus@.len() < INF,
    ensures
        res@.map_values(|c: Candidate| candidate_view(c)) == feasible_upto(
            layer_caps(gpus@),
            model_layer,
            k_max(gpus@, model_layer),
        ),
{
    let ghost caps = layer_caps(gpus@);
    let k_top = max_replicas(gpus, model_layer);
    let mut res: Vec<Candidate> = Vec::new();
    let mut k: usize = 1;
    proof {
        assert(res@.map_values(|c: Candidate| candidate_view(c)) =~= feasible_upto(caps, model_layer, 0));
    }
    while k <= k_top
        invariant
            1 <= k,
            k <= k_top + 1,
            k_top == k_max(gpus@, model_layer),
            k_top <= gpus@.len(),
            gpus@.len() < INF,
            caps == layer_caps(gpus@),
            res@.map_values(|c: Candidate| candidate_view(c)) == feasible_upto(caps, model_layer, k - 1),
        decreases k_top + 1 - k,
    {
        let (s, t) = solve_for_k(gpus, model_layer, k);
        let ghost prev = res@;
        if s < INF {
            res.push(Candidate { k, stages: s, trace: t });
            proof {
                assert(res@.map_values(|c: Candidate| candidate_view(c)) =~= prev.map_values(
                    |c: Candidate| candidate_view(c),
                ).push((k, s as nat, t@)));
            }
        }
        proof {
            assert(res@.map_values(|c: Candidate| candidate_view(c)) == feasible_upto(caps, model_layer, k as int));
        }
        k = k + 1;
    }
    res
}

/// The stages for the first `n` entries of `alloc`: entry `i` hosts the
/// layers after those of entries `0..i`, and entries of 0 layers are
/// dropped.
pub open spec fn emitted(gpus: Seq<Gpu>, alloc: Seq<usize>, n: int) -> Seq<Stage>
    decreases n,
{
    if n <= 0 {
        Seq::empty()
    } else {
        let prev = emitted(gpus, alloc, n - 1);
        let lo = sum(alloc.subrange(0, n - 1));
        if alloc[n - 1] == 0 {
            prev
        } else {
            prev.push(Stage { gpu: gpus[n - 1], lo: lo as usize, hi: (lo + alloc[n - 1]) as usize })
        }
    }
}

/// `stages` cover `[0, l)` with contiguous, non-empty, non-overlapping
/// ranges, in order.
pub open spec fn covers(stages: Seq<Stage>, l: int) -> bool {
    &&& stages.len() == 0 ==> l == 0
    &&& stages.len() > 0 ==> stages[0].lo == 0 && stages.last().hi == l
    &&& forall|q: int| 0 <= q < stages.len() ==> stages[q].lo < stages[q].hi
    &&& forall|q: int| 0 <= q < stages.len() - 1 ==> stages[q].hi == stages[q + 1].lo
}

/// No stage hosts more layers than its GPU can.
pub open spec fn within_caps(stages: Seq<Stage>) -> bool {
    forall|q: int| 0 <= q < stages.len() ==> stages[q].hi - stages[q].lo <= stages[q].gpu.layer_cap
}

proof fn lemma_emitted(gpus: Seq<Gpu>, alloc: Seq<usize>, n: int)
    requires
        0 <= n <= alloc.len(),
        alloc.len() == gpus.len(),
        sum(alloc) <= usize::MAX,
    ensures
        covers(emitted(gpus, alloc, n), sum(alloc.subrange(0, n))),
        (forall|i: int| 0 <= i < alloc.len() ==> alloc[i] <= gpus[i].layer_cap) ==> within_caps(
            emitted(gpus, alloc, n),
        ),
    decreases n,
{
    if n > 0 {
        lemma_emitted(gpus, alloc, n - 1);
        lemma_sum_prefix(alloc, n - 1);
        lemma_sum_prefix_le(alloc, n);
        lemma_sum_nonneg(alloc.subrange(0, n - 1));
    } else {
        assert(alloc.subrange(0, 0) =~= Seq::<usize>::empty());
    }
}

proof fn lemma_sum_prefix_le(s: Seq<usize>, n: int)
    requires
        0 <= n <= s.len(),
    ensures
        sum(s.subrange(0, n)) <= sum(s),
    decreases s.len() - n,
{
    if n < s.len() {
        lemma_sum_prefix_le(s, n + 1);
        lemma_sum_prefix(s, n);
    } else {
        assert(s.subrange(0, n) =~= s);
    }
}

/// Lays out one pipeline: stage `i` hosts `alloc[i]` layers right after
/// those of the stages before it, and stages with no layer are dropped.
pub fn emit_stages(pipeline: &Vec<Gpu>, alloc: &Vec<usize>) -> (res: Vec<Stage>)
    requires
        pipeline@.len() == alloc@.len(),
        sum(alloc@) <= usize::MAX,
    ensures
        res@ == emitted(pipeline@, alloc@, alloc@.len() as int),
{
    let mut res: Vec<Stage> = Vec::new();
    let mut cursor: usize = 0;
    let mut i: usize = 0;
    while i < alloc.len()
        invariant
            i <= alloc@.len(),
            pipeline@.len() == alloc@.len(),
            sum(alloc@) <= usize::MAX,
            cursor == sum(alloc@.subrange(0, i as int)),
            res@ == emitted(pipeline@, alloc@, i as int),
        decreases alloc@.len() - i,
    {
        proof {
            lemma_sum_prefix(alloc@, i as int);
            lemma_sum_prefix_le(alloc@, i as int + 1);
        }
        if alloc[i] != 0 {
            res.push(Stage { gpu: pipeline[i], lo: cursor, hi: cursor + alloc[i] });
        }
        cursor = cursor + alloc[i];
        i = i + 1;
    }
    res
}

/// The compute capacities of `gpus`, in order.
pub open spec fn compute_caps(gpus: Seq<Gpu>) -> Seq<usize> {
    gpus.map_values(|g: Gpu| g.compute_cap)
}

/// The pipelines of `trace`, each as its GPUs in stage order.
pub open spec fn pipeline_gpus(gpus: Seq<Gpu>, l: usize, trace: Seq<Decision>) -> Seq<Seq<Gpu>> {
    pipelines_of(layer_caps(gpus), l, trace).map_values(|p: Seq<usize>| p.map_values(|g: usize| gpus[g as int]))
}

/// `stages` are the layout of `pipe` under its water-filled allocation of
/// `l` layers.
pub open spec fn laid_out(pipe: Seq<Gpu>, l: usize, stages: Seq<Stage>) -> bool {
    exists|a: Seq<usize>|
        #[trigger] is_fill(l as int, layer_caps(pipe), compute_caps(pipe), a) && stages == emitted(
            pipe,
            a,
            a.len() as int,
        )
}

/// `plan` lays out, in order, exactly those of `pipes` whose layer
/// capacities add up to at least `l`.
pub open spec fn plan_matches(pipes: Seq<Seq<Gpu>>, l: usize, plan: Seq<Seq<Stage>>) -> bool
    decreases pipes.len(),
{
    if pipes.len() == 0 {
        plan.len() == 0
    } else if sum(layer_caps(pipes.last())) >= l {
        plan.len() > 0 && laid_out(pipes.last(), l, plan.last()) && plan_matches(
            pipes.drop_last(),
            l,
            plan.drop_last(),
        )
    } else {
        plan_matches(pipes.drop_last(), l, plan)
    }
}

/// Builds the placement plan of the pipelines that `trace` forms over
/// `gpus`: each pipeline gets its water-filled allocation of `model_layer`
/// layers laid out as contiguous ranges; a pipeline whose GPUs cannot hold
/// the model is left out.
///
/// Every emitted pipeline covers `[0, model_layer)` exactly, and no stage
/// holds more layers than its GPU's capacity.
pub fn build_plan(gpus: &Vec<Gpu>, model_layer: usize, trace: Vec<Decision>) -> (plan: Vec<Vec<Stage>>)
    requires
        trace@.len() <= gpus@.len(),
    ensures
        plan_matches(
            pipeline_gpus(gpus@, model_layer, trace@),
            model_layer,
            plan@.map_values(|v: Vec<Stage>| v@),
        ),
        forall|q: int| 0 <= q < plan@.len() ==> covers(#[trigger] plan@[q]@, model_layer as int),
        forall|q: int| 0 <= q < plan@.len() ==> within_caps(#[trigger] plan@[q]@),
{
    let ghost pipes = pipeline_gpus(gpus@, model_layer, trace@);
    let pipelines = reconstruct(trace, gpus, model_layer);
    proof {
        assert(pipelines@.len() == pipes.len());
        assert forall|x: int| 0 <= x < pipes.len() implies #[trigger] pipelines@[x]@ == pipes[x] by {}
    }
    let mut plan: Vec<Vec<Stage>> = Vec::new();
    let mut p: usize = 0;
    proof {
        assert(pipes.subrange(0, 0) =~= Seq::<Seq<Gpu>>::empty());
        assert(plan@.map_values(|v: Vec<Stage>| v@) =~= Seq::<Seq<Stage>>::empty());
    }
    while p < pipelines.len()
        invariant
            p <= pipelines@.len(),
            pipelines@.len() == pipes.len(),
            forall|x: int| 0 <= x < pipes.len() ==> #[trigger] pipelines@[x]@ == pipes[x],
            plan_matches(pipes.subrange(0, p as int), model_layer, plan@.map_values(|v: Vec<Stage>| v@)),
            forall|q: int| 0 <= q < plan@.len() ==> covers(#[trigger] plan@[q]@, model_layer as int),
            forall|q: int| 0 <= q < plan@.len() ==> within_caps(#[trigger] plan@[q]@),
        decreases pipelines@.len() - p,
    {
        let pipe = &pipelines[p];
        let mut caps: Vec<usize> = Vec::new();
        let mut comps: Vec<usize> = Vec::new();
        let mut i: usize = 0;
        while i < pipe.len()
            invariant
                i <= pipe@.len(),
                caps@ == layer_caps(pipe@.subrange(0, i as int)),
                comps@ == compute_caps(pipe@.subrange(0, i as int)),
            decreases pipe@.len() - i,
        {
            caps.push(pipe[i].layer_cap);
            comps.push(pipe[i].compute_cap);
            proof {
                assert(caps@ =~= layer_caps(pipe@.subrange(0, i as int + 1)));
                assert(comps@ =~= compute_caps(pipe@.subrange(0, i as int + 1)));
            }
            i = i + 1;
        }
        proof {
            assert(pipe@.subrange(0, i as int) =~= pipe@);
            assert(pipes.subrange(0, p as int + 1).drop_last() =~= pipes.subrange(0, p as int));
            assert(pipes.subrange(0, p as int + 1).last() == pipes[p as int]);
        }
        let ghost before = plan@.map_values(|v: Vec<Stage>| v@);
        match water_fill(model_layer, &caps, &comps) {
            Some(a) => {
                let stages = emit_stages(pipe, &a);
                proof {
                    lemma_emitted(pipe@, a@, a@.len() as int);
                    assert(a@.subrange(0, a@.len() as int) =~= a@);
                    assert(is_fill(model_layer as int, layer_caps(pipe@), compute_caps(pipe@), a@));
                    assert(laid_out(pipe@, model_layer, stages@));
                }
                plan.push(stages);
                proof {
                    assert(plan@.map_values(|v: Vec<Stage>| v@).drop_last() =~= before);
                }
            },
            None => {},
        }
        p = p + 1;
    }
    proof {
        assert(pipes.subrange(0, p as int) =~= pipes);
    }
    plan
}

/// The plan is determined by the GPUs, the layer count and the decisions:
/// two plans that both lay out the same pipelines are the same plan.
pub proof fn lemma_plan_unique(pipes: Seq<Seq<Gpu>>, l: usize, first: Seq<Seq<Stage>>, second: Seq<Seq<Stage>>)
    requires
        plan_matches(pipes, l, first),
        plan_matches(pipes, l, second),
    ensures
        first == second,
    decreases pipes.len(),
{
    if pipes.len() > 0 {
        let last = pipes.last();
        if sum(layer_caps(last)) >= l {
            lemma_plan_unique(pipes.drop_last(), l, first.drop_last(), second.drop_last());
            let a = choose|a: Seq<usize>|
                #[trigger] is_fill(l as int, layer_caps(last), compute_caps(last), a) && first.last() == emitted(
                    last,
                    a,
                    a.len() as int,
                );
            let b = choose|b: Seq<usize>|
                #[trigger] is_fill(l as int, layer_caps(last), compute_caps(last), b) && second.last() == emitted(
                    last,
                    b,
                    b.len() as int,
                );
            lemma_fill_unique(l as int, layer_caps(last), compute_caps(last), a, b);
            assert(first =~= first.drop_last().push(first.last()));
            assert(second =~= second.drop_last().push(second.last()));
        } else {
            lemma_plan_unique(pipes.drop_last(), l, first, second);
        }
    } else {
        assert(first =~= second);
    }
}

/// Scheduling is deterministic: for the same GPUs, layer count and
/// replication count, the search's decisions and the plan they yield are
/// the same on every run.
pub proof fn lemma_schedule_deterministic(
    gpus: Seq<Gpu>,
    l: usize,
    k: usize,
    first: Seq<Seq<Stage>>,
    second: Seq<Seq<Stage>>,
)
    requires
        search(layer_caps(gpus), l, k, 0, Seq::empty(), 0) is Some,
        plan_matches(
            pipeline_gpus(gpus, l, search(layer_caps(gpus), l, k, 0, Seq::empty(), 0)->Some_0.1),
            l,
            first,
        ),
        plan_matches(
            pipeline_gpus(gpus, l, search(layer_caps(gpus), l, k, 0, Seq::empty(), 0)->Some_0.1),
            l,
            second,
        ),
    ensures
        first == second,
{
    lemma_plan_unique(
        pipeline_gpus(gpus, l, search(layer_caps(gpus), l, k, 0, Seq::empty(), 0)->Some_0.1),
        l,
        first,
        second,
    );
}

/// `s` is ordered by non-increasing layer capacity, then non-increasing
/// compute capacity.
pub open spec fn by_capacity(s: Seq<Gpu>) -> bool {
    forall|i: int, j: int| 0 <= i < j < s.len() ==> !ahead(s[j], s[i])
}

proof fn lemma_insert_by_cap_props(s: Seq<Gpu>, x: Gpu)
    ensures
        exists|p: int| 0 <= p <= s.len() && insert_by_cap(s, x) == #[trigger] s.insert(p, x),
        by_capacity(s) ==> by_capacity(insert_by_cap(s, x)),
    decreases s.len(),
{
    if s.len() == 0 || ahead(x, s[0]) {
        assert(insert_by_cap(s, x) =~= s.insert(0, x));
        if by_capacity(s) {
            let t = insert_by_cap(s, x);
            assert forall|i: int, j: int| 0 <= i < j < t.len() implies !ahead(t[j], t[i]) by {
                assert(t[j] == s[j - 1]);
                if i == 0 {
                    if j - 1 > 0 {
                        assert(!ahead(s[j - 1], s[0]));
                    }
                } else {
                    assert(t[i] == s[i - 1]);
                }
            }
        }
    } else {
        let rest = s.drop_first();
        lemma_insert_by_cap_props(rest, x);
        let p = choose|p: int| 0 <= p <= rest.len() && insert_by_cap(rest, x) == #[trigger] rest.insert(p, x);
        assert(insert_by_cap(s, x) =~= s.insert(p + 1, x));
        if by_capacity(s) {
            let t = insert_by_cap(s, x);
            let u = rest.insert(p, x);
            assert forall|i: int, j: int| 0 <= i < j < t.len() implies !ahead(t[j], t[i]) by {
                if i == 0 {
                    if j - 1 < p {
                        assert(u[j - 1] == rest[j - 1]);
                    } else if j - 1 > p {
                        assert(u[j - 1] == rest[j - 2]);
                    }
                } else {
                    assert(t[i] == u[i - 1] && t[j] == u[j - 1]);
                }
            }
        }
    }
}

/// `sorted_by_cap(s)` is ordered by capacity and holds the GPUs of `s`.
pub proof fn lemma_sorted_by_cap_props(s: Seq<Gpu>)
    ensures
        by_capacity(sorted_by_cap(s)),
        sorted_by_cap(s).to_multiset() == s.to_multiset(),
    decreases s.len(),
{
    broadcast use vstd::seq_lib::group_to_multiset_ensures;

    if s.len() > 0 {
        let dl = s.drop_last();
        lemma_sorted_by_cap_props(dl);
        lemma_insert_by_cap_props(sorted_by_cap(dl), s.last());
        let p = choose|p: int|
            0 <= p <= sorted_by_cap(dl).len() && insert_by_cap(sorted_by_cap(dl), s.last())
                == #[trigger] sorted_by_cap(dl).insert(p, s.last());
        vstd::seq_lib::to_multiset_insert(sorted_by_cap(dl), p, s.last());
        assert(s =~= dl.push(s.last()));
    } else {
        assert(s.to_multiset() =~= sorted_by_cap(s).to_multiset());
    }
}

proof fn lemma_pipe_caps(gpus: Seq<Gpu>, pipe: Seq<usize>)
    requires
        forall|q: int| 0 <= q < pipe.len() ==> #[trigger] pipe[q] < gpus.len(),
    ensures
        sum(layer_caps(pipe.map_values(|g: usize| gpus[g as int]))) == cap_total(layer_caps(gpus), pipe),
    decreases pipe.len(),
{
    if pipe.len() > 0 {
        lemma_pipe_caps(gpus, pipe.drop_last());
        assert(layer_caps(pipe.map_values(|g: usize| gpus[g as int])).drop_last() =~= layer_caps(
            pipe.drop_last().map_values(|g: usize| gpus[g as int]),
        ));
        assert(pipe[pipe.len() - 1] < gpus.len());
    }
}

proof fn lemma_plan_len(pipes: Seq<Seq<Gpu>>, l: usize, plan: Seq<Seq<Stage>>)
    requires
        plan_matches(pipes, l, plan),
        forall|p: int| 0 <= p < pipes.len() ==> sum(layer_caps(#[trigger] pipes[p])) >= l,
    ensures
        plan.len() == pipes.len(),
    decreases pipes.len(),
{
    if pipes.len() > 0 {
        assert(sum(layer_caps(pipes[pipes.len() - 1])) >= l);
        lemma_plan_len(pipes.drop_last(), l, plan.drop_last());
    }
}

/// The plan built from the search's decisions for `k` replications lays
/// out exactly `k` pipelines: none is left out for want of capacity.
pub proof fn lemma_plan_has_k_pipelines(gpus: Seq<Gpu>, l: usize, k: usize, plan: Seq<Seq<Stage>>)
    requires
        gpus.len() <= usize::MAX,
        search(layer_caps(gpus), l, k, 0, Seq::empty(), 0) is Some,
        plan_matches(
            pipeline_gpus(gpus, l, search(layer_caps(gpus), l, k, 0, Seq::empty(), 0)->Some_0.1),
            l,
            plan,
        ),
    ensures
        plan.len() == k,
{
    let caps = layer_caps(gpus);
    let t = search(caps, l, k, 0, Seq::empty(), 0)->Some_0.1;
    let pipes = pipelines_of(caps, l, t);
    let pg = pipeline_gpus(gpus, l, t);
    lemma_pipelines_complete(caps, l, k);
    lemma_search_sound(caps, l, k, 0, Seq::empty(), 0);
    lemma_runs_forward(caps, l, k, t, 0);
    lemma_replay_indices(caps, l, t, t.len() as int);
    assert forall|p: int| 0 <= p < pg.len() implies sum(layer_caps(#[trigger] pg[p])) >= l by {
        assert forall|q: int| 0 <= q < pipes[p].len() implies #[trigger] pipes[p][q] < gpus.len() by {
            assert(pipes[p][q] < t.len());
        }
        lemma_pipe_caps(gpus, pipes[p]);
        assert(cap_total(caps, pipes[p]) >= l);
    }
    lemma_plan_len(pg, l, plan);
}

} // verus!
