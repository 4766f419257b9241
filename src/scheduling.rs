//! Phase-1: pipeline formation.
//!
//! GPUs are taken in order; each is skipped, added to one of the partially
//! filled pipelines, or starts a new pipeline. The search state is the
//! sorted multiset `r` of layers still missing from the partial pipelines
//! and the number `f` of complete pipelines. For a target replication count
//! `k` the search finds the fewest stages with which exactly `k` pipelines
//! are completed, preferring Skip, then Extend with the smallest index, then
//! StartNew when two choices use as many stages.
use vstd::prelude::*;

verus! {

/// One GPU as the scheduler sees it.
#[derive(Clone, Copy, Debug, PartialEq, Eq)]
pub struct Gpu {
    /// The largest number of model layers the GPU can host.
    pub layer_cap: usize,
    /// Relative compute weight used when layers are spread over a pipeline.
    pub compute_cap: usize,
}

/// The choice made for one GPU during the search.
#[derive(Clone, Copy, Debug, PartialEq, Eq)]
pub enum Decision {
    Skip,
    /// Add the GPU to the partial pipeline at this index of the sorted
    /// residuals.
    Extend(usize),
    StartNew,
}

/// Search state: residual layer counts of the partial pipelines, and the
/// count of complete pipelines.
#[derive(Clone, Debug)]
pub struct DpState {
    pub r: Vec<usize>,
    pub f: usize,
}

/// Stage count standing for "no way to complete the target".
pub const INF: usize = usize::MAX / 4;

/// `s` with `x` placed before the first entry that is not smaller than it.
pub open spec fn insert_sorted(s: Seq<usize>, x: usize) -> Seq<usize>
    decreases s.len(),
{
    if s.len() == 0 {
        seq![x]
    } else if x <= s[0] {
        seq![x] + s
    } else {
        seq![s[0]] + insert_sorted(s.drop_first(), x)
    }
}

/// Insertion sort of `s` in ascending order.
pub open spec fn sorted_of(s: Seq<usize>) -> Seq<usize>
    decreases s.len(),
{
    if s.len() == 0 {
        s
    } else {
        insert_sorted(sorted_of(s.drop_last()), s.last())
    }
}

pub proof fn lemma_insert_sorted_len(s: Seq<usize>, x: usize)
    ensures
        insert_sorted(s, x).len() == s.len() + 1,
    decreases s.len(),
{
    if s.len() > 0 {
        lemma_insert_sorted_len(s.drop_first(), x);
    }
}

pub proof fn lemma_sorted_of_len(s: Seq<usize>)
    ensures
        sorted_of(s).len() == s.len(),
    decreases s.len(),
{
    if s.len() > 0 {
        lemma_sorted_of_len(s.drop_last());
        lemma_insert_sorted_len(sorted_of(s.drop_last()), s.last());
    }
}

proof fn lemma_insert_at(s: Seq<usize>, x: usize, p: int)
    requires
        0 <= p <= s.len(),
        forall|q: int| 0 <= q < p ==> s[q] < x,
        p < s.len() ==> x <= s[p],
    ensures
        insert_sorted(s, x) == s.insert(p, x),
    decreases p,
{
    if p == 0 {
        assert(insert_sorted(s, x) =~= s.insert(p, x));
    } else {
        lemma_insert_at(s.drop_first(), x, p - 1);
        assert(insert_sorted(s, x) =~= s.insert(p, x));
    }
}

/// Places `x` in the ascending vector `v` the way `insert_sorted` does.
fn insert_in_order(v: &mut Vec<usize>, x: usize)
    ensures
        final(v)@ == insert_sorted(old(v)@, x),
{
    let mut p: usize = 0;
    while p < v.len() && v[p] < x
        invariant
            p <= v@.len(),
            forall|q: int| 0 <= q < p ==> v@[q] < x,
        decreases v@.len() - p,
    {
        p = p + 1;
    }
    proof {
        lemma_insert_at(v@, x, p as int);
    }
    v.insert(p, x);
}

impl DpState {
    /// The initial state: no partial and no complete pipeline.
    pub fn new() -> (s: Self)
        ensures
            s.r@ == Seq::<usize>::empty(),
            s.f == 0,
    {
        DpState { r: Vec::new(), f: 0 }
    }

    /// Sorts the residuals in ascending order, so that states holding the
    /// same multiset of residuals have one representation.
    pub fn normalize(&mut self)
        ensures
            final(self).r@ == sorted_of(old(self).r@),
            ascending(final(self).r@),
            final(self).r@.to_multiset() == old(self).r@.to_multiset(),
            final(self).f == old(self).f,
    {
        proof {
            lemma_sorted_of_props(self.r@);
        }
        let mut out: Vec<usize> = Vec::new();
        let mut j: usize = 0;
        while j < self.r.len()
            invariant
                j <= self.r@.len(),
                self.r@ == old(self).r@,
                out@ == sorted_of(self.r@.subrange(0, j as int)),
            decreases self.r@.len() - j,
        {
            proof {
                assert(self.r@.subrange(0, j as int + 1).drop_last() =~= self.r@.subrange(0, j as int));
            }
            insert_in_order(&mut out, self.r[j]);
            j = j + 1;
        }
        proof {
            assert(self.r@.subrange(0, j as int) =~= self.r@);
        }
        self.r = out;
    }
}

/// The layer capacities of `gpus`, in order.
pub open spec fn layer_caps(gpus: Seq<Gpu>) -> Seq<usize> {
    gpus.map_values(|g: Gpu| g.layer_cap)
}

/// Residuals after adding a GPU of capacity `c` to partial pipeline `j`,
/// before sorting: the pipeline leaves `r` when it becomes complete.
pub open spec fn extended(r: Seq<usize>, j: int, c: usize) -> Seq<usize> {
    if r[j] <= c {
        r.remove(j)
    } else {
        r.update(j, (r[j] - c) as usize)
    }
}

/// Complete-pipeline count after adding a GPU of capacity `c` to partial
/// pipeline `j`.
pub open spec fn extended_f(r: Seq<usize>, j: int, c: usize, f: nat) -> nat {
    if r[j] <= c {
        f + 1
    } else {
        f
    }
}

/// Residuals after starting a pipeline of `l` layers with a GPU of
/// capacity `c`.
pub open spec fn started(r: Seq<usize>, l: usize, c: usize) -> Seq<usize> {
    if l <= c {
        r
    } else {
        sorted_of(r.push((l - c) as usize))
    }
}

/// Complete-pipeline count after starting a pipeline of `l` layers with a
/// GPU of capacity `c`.
pub open spec fn started_f(l: usize, c: usize, f: nat) -> nat {
    if l <= c {
        f + 1
    } else {
        f
    }
}

/// An outcome preceded by decision `d`; every decision but Skip adds a
/// stage.
pub open spec fn after(d: Decision, o: Option<(nat, Seq<Decision>)>) -> Option<(nat, Seq<Decision>)> {
    match o {
        Some((s, t)) => Some(
            (
                if d is Skip {
                    s
                } else {
                    s + 1
                },
                seq![d] + t,
            ),
        ),
        None => None,
    }
}

/// `cand` replaces `best` only when it uses strictly fewer stages.
pub open spec fn better(best: Option<(nat, Seq<Decision>)>, cand: Option<(nat, Seq<Decision>)>) -> Option<
    (nat, Seq<Decision>),
> {
    match cand {
        None => best,
        Some((c, _)) => match best {
            None => cand,
            Some((b, _)) => if c < b {
                cand
            } else {
                best
            },
        },
    }
}

/// The best way to finish from GPU `i` in state `(r, f)` with target `k`:
/// the fewest stages with which exactly `k` pipelines of `l` layers are
/// complete after the last GPU, and the decisions for GPUs `i..`; `None`
/// when no sequence of decisions gets there.
pub open spec fn search(caps: Seq<usize>, l: usize, k: usize, i: int, r: Seq<usize>, f: nat) -> Option<
    (nat, Seq<Decision>),
>
    decreases caps.len() - i, r.len() + 1,
{
    if i >= caps.len() || i < 0 {
        if f == k {
            Some((0, Seq::empty()))
        } else {
            None
        }
    } else {
        let c = caps[i];
        let skip = after(Decision::Skip, search(caps, l, k, i + 1, r, f));
        let ext = search_extend(caps, l, k, i, r, f, 0, skip);
        if f + r.len() < k {
            better(
                ext,
                after(
                    Decision::StartNew,
                    search(caps, l, k, i + 1, started(r, l, c), started_f(l, c, f)),
                ),
            )
        } else {
            ext
        }
    }
}

/// `acc` improved by Extend(j), Extend(j+1), ... in that order.
pub open spec fn search_extend(
    caps: Seq<usize>,
    l: usize,
    k: usize,
    i: int,
    r: Seq<usize>,
    f: nat,
    j: nat,
    acc: Option<(nat, Seq<Decision>)>,
) -> Option<(nat, Seq<Decision>)>
    decreases caps.len() - i, r.len() - j,
{
    if j >= r.len() || i >= caps.len() || i < 0 {
        acc
    } else {
        let c = caps[i];
        let cand = after(
            Decision::Extend(j as usize),
            search(caps, l, k, i + 1, sorted_of(extended(r, j as int, c)), extended_f(r, j as int, c, f)),
        );
        search_extend(caps, l, k, i, r, f, j + 1, better(acc, cand))
    }
}

/// The stage count reported for an outcome.
pub open spec fn cost(o: Option<(nat, Seq<Decision>)>) -> int {
    match o {
        Some((s, _)) => s as int,
        None => INF as int,
    }
}

/// The state after adding a GPU of capacity `ci` to partial pipeline `idx`.
fn extend_state(state: &DpState, idx: usize, ci: usize) -> (next: DpState)
    requires
        idx < state.r@.len(),
        state.f + state.r@.len() <= usize::MAX,
    ensures
        next.r@ == sorted_of(extended(state.r@, idx as int, ci)),
        next.f == extended_f(state.r@, idx as int, ci, state.f as nat),
{
    let mut r = state.r.clone();
    let mut f = state.f;
    if r[idx] <= ci {
        r.remove(idx);
        f = f + 1;
    } else {
        let left = r[idx] - ci;
        r.set(idx, left);
    }
    let mut next = DpState { r, f };
    next.normalize();
    next
}

/// The state after starting a pipeline of `model_layer` layers with a GPU
/// of capacity `ci`.
fn start_state(state: &DpState, model_layer: usize, ci: usize) -> (next: DpState)
    requires
        state.f + state.r@.len() < usize::MAX,
    ensures
        next.r@ == started(state.r@, model_layer, ci),
        next.f == started_f(model_layer, ci, state.f as nat),
{
    let mut next = DpState { r: state.r.clone(), f: state.f };
    if model_layer <= ci {
        next.f = next.f + 1;
    } else {
        next.r.push(model_layer - ci);
        next.normalize();
    }
    next
}

/// Exhaustive search from GPU `i` in `state` for exactly `k` complete
/// pipelines.
///
/// Returns the fewest stages, or `INF` when `k` pipelines cannot be
/// completed. `path` holds the decisions for GPUs `0..i` and is left as it
/// was; when a way exists, `best_path` becomes `path` followed by the
/// decisions of the best one, and is left alone otherwise.
pub fn dfs(
    i: usize,
    gpus: &Vec<Gpu>,
    model_layer: usize,
    k: usize,
    state: DpState,
    path: &mut Vec<Decision>,
    best_path: &mut Vec<Decision>,
) -> (v: usize)
    requires
        i <= gpus@.len(),
        gpus@.len() < INF,
        state.f + state.r@.len() <= k,
    ensures
        final(path)@ == old(path)@,
        match search(layer_caps(gpus@), model_layer, k, i as int, state.r@, state.f as nat) {
            Some((s, t)) => v == s && v <= gpus@.len() - i && final(best_path)@ == old(path)@ + t,
            None => v == INF && final(best_path)@ == old(best_path)@,
        },
    decreases gpus@.len() - i,
{
    let ghost caps = layer_caps(gpus@);
    let ghost r = state.r@;
    let ghost f = state.f as nat;
    if i == gpus.len() {
        if state.f == k {
            *best_path = path.clone();
            proof {
                assert(path@ + Seq::<Decision>::empty() =~= path@);
            }
            return 0;
        }
        return INF;
    }
    let ghost prefix = path@;
    let ci = gpus[i].layer_cap;
    let mut best = INF;

    // Skip.
    path.push(Decision::Skip);
    let v = dfs(i + 1, gpus, model_layer, k, DpState { r: state.r.clone(), f: state.f }, path, best_path);
    path.pop();
    if v < best {
        best = v;
    }
    let ghost skip = after(Decision::Skip, search(caps, model_layer, k, i + 1, r, f));
    proof {
        if let Some((s, t)) = search(caps, model_layer, k, i + 1, r, f) {
            assert(prefix.push(Decision::Skip) + t =~= prefix + (seq![Decision::Skip] + t));
        }
    }
    let ghost mut acc = skip;

    // Extend each partial pipeline.
    let mut idx: usize = 0;
    while idx < state.r.len()
        invariant
            idx <= r.len(),
            r == state.r@,
            f == state.f,
            caps == layer_caps(gpus@),
            ci == caps[i as int],
            i < gpus@.len(),
            gpus@.len() < INF,
            state.f + state.r@.len() <= k,
            path@ == prefix,
            search_extend(caps, model_layer, k, i as int, r, f, 0, skip) == search_extend(
                caps,
                model_layer,
                k,
                i as int,
                r,
                f,
                idx as nat,
                acc,
            ),
            match acc {
                Some((s, t)) => best == s && best <= gpus@.len() - i && best_path@ == prefix + t,
                None => best == INF && best_path@ == old(best_path)@,
            },
        decreases r.len() - idx,
    {
        let next = extend_state(&state, idx, ci);
        proof {
            lemma_sorted_of_len(extended(r, idx as int, ci));
        }
        path.push(Decision::Extend(idx));
        let mut cand: Vec<Decision> = Vec::new();
        let w = dfs(i + 1, gpus, model_layer, k, next, path, &mut cand);
        path.pop();
        let ghost sub = search(
            caps,
            model_layer,
            k,
            i + 1,
            sorted_of(extended(r, idx as int, ci)),
            extended_f(r, idx as int, ci, f),
        );
        if w < INF && w + 1 < best {
            best = w + 1;
            *best_path = cand;
        }
        proof {
            if let Some((s, t)) = sub {
                assert(prefix.push(Decision::Extend(idx)) + t =~= prefix + (seq![Decision::Extend(idx)] + t));
            }
            acc = better(acc, after(Decision::Extend(idx), sub));
        }
        idx = idx + 1;
    }

    // Start a new pipeline.
    if state.f < k && state.r.len() < k - state.f {
        let next = start_state(&state, model_layer, ci);
        proof {
            if model_layer > ci {
                lemma_sorted_of_len(r.push((model_layer - ci) as usize));
            }
        }
        path.push(Decision::StartNew);
        let mut cand: Vec<Decision> = Vec::new();
        let w = dfs(i + 1, gpus, model_layer, k, next, path, &mut cand);
        path.pop();
        let ghost sub = search(caps, model_layer, k, i + 1, started(r, model_layer, ci), started_f(model_layer, ci, f));
        if w < INF && w + 1 < best {
            best = w + 1;
            *best_path = cand;
        }
        proof {
            if let Some((s, t)) = sub {
                assert(prefix.push(Decision::StartNew) + t =~= prefix + (seq![Decision::StartNew] + t));
            }
            acc = better(acc, after(Decision::StartNew, sub));
        }
    }
    best
}

/// The fewest stages with which `k` pipelines of `model_layer` layers can be
/// formed from `gpus` taken in order, with the decisions that achieve it;
/// `(INF, [])` when no assignment forms `k` pipelines.
pub fn solve_for_k(gpus: &Vec<Gpu>, model_layer: usize, k: usize) -> (res: (usize, Vec<Decision>))
    requires
        gpus@.len() < INF,
    ensures
        match search(layer_caps(gpus@), model_layer, k, 0, Seq::empty(), 0) {
            Some((s, t)) => res.0 == s && res.0 <= gpus@.len() && res.1@ == t,
            None => res.0 == INF && res.1@ == Seq::<Decision>::empty(),
        },
{
    let mut trace: Vec<Decision> = Vec::new();
    let mut path: Vec<Decision> = Vec::new();
    let res = dfs(0, gpus, model_layer, k, DpState::new(), &mut path, &mut trace);
    proof {
        if let Some((s, t)) = search(layer_caps(gpus@), model_layer, k, 0, Seq::empty(), 0) {
            assert(Seq::<Decision>::empty() + t =~= t);
        }
    }
    (res, trace)
}

/// `s` with the entry `x` (residual, pipeline) placed before the first
/// entry whose residual is not smaller, as `insert_sorted` places values.
pub open spec fn insert_by_residual(s: Seq<(usize, usize)>, x: (usize, usize)) -> Seq<(usize, usize)>
    decreases s.len(),
{
    if s.len() == 0 {
        seq![x]
    } else if x.0 <= s[0].0 {
        seq![x] + s
    } else {
        seq![s[0]] + insert_by_residual(s.drop_first(), x)
    }
}

/// Insertion sort of `s` by residual, as `sorted_of` sorts values.
pub open spec fn sorted_by_residual(s: Seq<(usize, usize)>) -> Seq<(usize, usize)>
    decreases s.len(),
{
    if s.len() == 0 {
        s
    } else {
        insert_by_residual(sorted_by_residual(s.drop_last()), s.last())
    }
}

/// Pipelines (as GPU indices in stage order) and active partial pipelines
/// (residual, pipeline index) after replaying one decision for GPU `g`.
pub open spec fn replay_step(
    caps: Seq<usize>,
    l: usize,
    g: int,
    d: Decision,
    pipes: Seq<Seq<usize>>,
    active: Seq<(usize, usize)>,
) -> (Seq<Seq<usize>>, Seq<(usize, usize)>) {
    match d {
        Decision::Skip => (pipes, active),
        Decision::StartNew => {
            let grown = pipes.push(seq![g as usize]);
            if l <= caps[g] {
                (grown, active)
            } else {
                (grown, sorted_by_residual(active.push(((l - caps[g]) as usize, pipes.len() as usize))))
            }
        },
        Decision::Extend(j) => {
            if j < active.len() {
                let (res, id) = active[j as int];
                let grown = pipes.update(id as int, pipes[id as int].push(g as usize));
                if res <= caps[g] {
                    (grown, sorted_by_residual(active.remove(j as int)))
                } else {
                    (grown, sorted_by_residual(active.update(j as int, ((res - caps[g]) as usize, id))))
                }
            } else {
                (pipes, active)
            }
        },
    }
}

/// The state after replaying the first `n` decisions of `trace`.
pub open spec fn replay(caps: Seq<usize>, l: usize, trace: Seq<Decision>, n: int) -> (
    Seq<Seq<usize>>,
    Seq<(usize, usize)>,
)
    decreases n,
{
    if n <= 0 {
        (Seq::empty(), Seq::empty())
    } else {
        let prev = replay(caps, l, trace, n - 1);
        replay_step(caps, l, n - 1, trace[n - 1], prev.0, prev.1)
    }
}

/// The pipelines that `trace` forms, as GPU indices in stage order.
pub open spec fn pipelines_of(caps: Seq<usize>, l: usize, trace: Seq<Decision>) -> Seq<Seq<usize>> {
    replay(caps, l, trace, trace.len() as int).0
}

/// Every active entry names an existing pipeline.
pub open spec fn ids_below(active: Seq<(usize, usize)>, n: int) -> bool {
    forall|q: int| 0 <= q < active.len() ==> active[q].1 < n
}

pub(crate) proof fn lemma_insert_by_residual_ids(s: Seq<(usize, usize)>, x: (usize, usize), n: int)
    requires
        ids_below(s, n),
        x.1 < n,
    ensures
        ids_below(insert_by_residual(s, x), n),
        insert_by_residual(s, x).len() == s.len() + 1,
    decreases s.len(),
{
    if s.len() > 0 {
        lemma_insert_by_residual_ids(s.drop_first(), x, n);
        let t = insert_by_residual(s, x);
        if x.0 > s[0].0 {
            assert forall|q: int| 0 <= q < t.len() implies t[q].1 < n by {
                if q > 0 {
                    assert(t[q] == insert_by_residual(s.drop_first(), x)[q - 1]);
                }
            }
        }
    }
}

pub(crate) proof fn lemma_sorted_by_residual_ids(s: Seq<(usize, usize)>, n: int)
    requires
        ids_below(s, n),
    ensures
        ids_below(sorted_by_residual(s), n),
        sorted_by_residual(s).len() == s.len(),
    decreases s.len(),
{
    if s.len() > 0 {
        lemma_sorted_by_residual_ids(s.drop_last(), n);
        lemma_insert_by_residual_ids(sorted_by_residual(s.drop_last()), s.last(), n);
    }
}

pub(crate) proof fn lemma_sorted_of_len_pairs(s: Seq<(usize, usize)>)
    ensures
        sorted_by_residual(s).len() == s.len(),
{
    lemma_sorted_by_residual_ids(s, usize::MAX as int + 1);
}

proof fn lemma_insert_by_residual_at(s: Seq<(usize, usize)>, x: (usize, usize), p: int)
    requires
        0 <= p <= s.len(),
        forall|q: int| 0 <= q < p ==> s[q].0 < x.0,
        p < s.len() ==> x.0 <= s[p].0,
    ensures
        insert_by_residual(s, x) == s.insert(p, x),
    decreases p,
{
    if p == 0 {
        assert(insert_by_residual(s, x) =~= s.insert(p, x));
    } else {
        lemma_insert_by_residual_at(s.drop_first(), x, p - 1);
        assert(insert_by_residual(s, x) =~= s.insert(p, x));
    }
}

/// Sorts `v` by residual the way `sorted_by_residual` does.
fn sort_by_residual(v: Vec<(usize, usize)>) -> (out: Vec<(usize, usize)>)
    ensures
        out@ == sorted_by_residual(v@),
{
    let mut out: Vec<(usize, usize)> = Vec::new();
    let mut j: usize = 0;
    while j < v.len()
        invariant
            j <= v@.len(),
            out@ == sorted_by_residual(v@.subrange(0, j as int)),
        decreases v@.len() - j,
    {
        proof {
            assert(v@.subrange(0, j as int + 1).drop_last() =~= v@.subrange(0, j as int));
        }
        let x = v[j];
        let mut p: usize = 0;
        while p < out.len() && out[p].0 < x.0
            invariant
                p <= out@.len(),
                forall|q: int| 0 <= q < p ==> out@[q].0 < x.0,
            decreases out@.len() - p,
        {
            p = p + 1;
        }
        proof {
            lemma_insert_by_residual_at(out@, x, p as int);
        }
        out.insert(p, x);
        j = j + 1;
    }
    proof {
        assert(v@.subrange(0, j as int) =~= v@);
    }
    out
}

/// Replays `trace` over `gpus` to recover the pipelines, each as its GPUs
/// in stage order.
///
/// The active partial pipelines are kept sorted by residual with the same
/// rule the search used, so `Extend(j)` reaches the pipeline whose residual
/// was `j`-th at decision time. A pipeline leaves the active list when its
/// residual reaches zero. An `Extend` index past the active list is ignored.
pub fn reconstruct(trace: Vec<Decision>, gpus: &Vec<Gpu>, model_layer: usize) -> (res: Vec<Vec<Gpu>>)
    requires
        trace@.len() <= gpus@.len(),
    ensures
        res@.len() == pipelines_of(layer_caps(gpus@), model_layer, trace@).len(),
        forall|p: int|
            0 <= p < res@.len() ==> #[trigger] res@[p]@ == pipelines_of(
                layer_caps(gpus@),
                model_layer,
                trace@,
            )[p].map_values(|g: usize| gpus@[g as int]),
{
    let ghost caps = layer_caps(gpus@);
    let mut pipelines: Vec<Vec<usize>> = Vec::new();
    let mut active: Vec<(usize, usize)> = Vec::new();
    let mut g: usize = 0;
    while g < trace.len()
        invariant
            g <= trace@.len(),
            trace@.len() <= gpus@.len(),
            caps == layer_caps(gpus@),
            pipelines@.len() == replay(caps, model_layer, trace@, g as int).0.len(),
            forall|p: int|
                0 <= p < pipelines@.len() ==> #[trigger] pipelines@[p]@ == replay(
                    caps,
                    model_layer,
                    trace@,
                    g as int,
                ).0[p],
            forall|p: int, q: int|
                0 <= p < pipelines@.len() && 0 <= q < pipelines@[p]@.len() ==> #[trigger] pipelines@[p]@[q] < g,
            active@ == replay(caps, model_layer, trace@, g as int).1,
            ids_below(active@, pipelines@.len() as int),
        decreases trace@.len() - g,
    {
        let ghost pipes0 = replay(caps, model_layer, trace@, g as int).0;
        let ghost old_pl = pipelines@;
        let ci = gpus[g].layer_cap;
        match trace[g] {
            Decision::Skip => {},
            Decision::StartNew => {
                let id = pipelines.len();
                let mut pv: Vec<usize> = Vec::new();
                pv.push(g);
                pipelines.push(pv);
                if model_layer > ci {
                    let ghost before = active@;
                    let mut grown = active;
                    grown.push((model_layer - ci, id));
                    proof {
                        assert forall|q: int| 0 <= q < grown@.len() implies grown@[q].1 < pipelines@.len() by {
                            if q < active@.len() {
                                assert(grown@[q] == before[q]);
                            }
                        }
                        lemma_sorted_by_residual_ids(grown@, pipelines@.len() as int);
                    }
                    active = sort_by_residual(grown);
                }
                proof {
                    assert forall|p: int| 0 <= p < pipelines@.len() implies #[trigger] pipelines@[p]@
                        == replay(caps, model_layer, trace@, g as int + 1).0[p] by {
                        if p < old_pl.len() {
                            assert(pipelines@[p] == old_pl[p]);
                        } else {
                            assert(pipelines@[p]@ =~= seq![g]);
                        }
                    }
                }
            },
            Decision::Extend(j) => {
                if j < active.len() {
                    let (res, id) = active[j];
                    let mut pv = pipelines[id].clone();
                    pv.push(g);
                    pipelines.set(id, pv);
                    if res <= ci {
                        let ghost before = active@;
                        let mut shrunk = active;
                        shrunk.remove(j);
                        proof {
                            assert forall|q: int| 0 <= q < shrunk@.len() implies shrunk@[q].1 < pipelines@.len() by {
                                if q < j {
                                    assert(shrunk@[q] == before[q]);
                                } else {
                                    assert(shrunk@[q] == before[q + 1]);
                                }
                            }
                            lemma_sorted_by_residual_ids(shrunk@, pipelines@.len() as int);
                        }
                        active = sort_by_residual(shrunk);
                    } else {
                        let mut moved = active;
                        moved.set(j, (res - ci, id));
                        proof {
                            lemma_sorted_by_residual_ids(moved@, pipelines@.len() as int);
                        }
                        active = sort_by_residual(moved);
                    }
                    proof {
                        assert forall|p: int| 0 <= p < pipelines@.len() implies #[trigger] pipelines@[p]@
                            == replay(caps, model_layer, trace@, g as int + 1).0[p] by {
                            if p != id {
                                assert(pipelines@[p] == old_pl[p]);
                            }
                        }
                    }
                }
            },
        }
        proof {
            assert forall|p: int, q: int|
                0 <= p < pipelines@.len() && 0 <= q < pipelines@[p]@.len() implies #[trigger] pipelines@[p]@[q]
                < g + 1 by {
                if p < old_pl.len() && q < old_pl[p]@.len() {
                    assert(old_pl[p]@[q] < g);
                }
            }
        }
        g = g + 1;
    }
    let mut result: Vec<Vec<Gpu>> = Vec::new();
    let mut p: usize = 0;
    while p < pipelines.len()
        invariant
            p <= pipelines@.len(),
            g == trace@.len(),
            trace@.len() <= gpus@.len(),
            caps == layer_caps(gpus@),
            pipelines@.len() == pipelines_of(caps, model_layer, trace@).len(),
            forall|x: int|
                0 <= x < pipelines@.len() ==> #[trigger] pipelines@[x]@ == pipelines_of(caps, model_layer, trace@)[x],
            forall|x: int, q: int|
                0 <= x < pipelines@.len() && 0 <= q < pipelines@[x]@.len() ==> #[trigger] pipelines@[x]@[q] < g,
            result@.len() == p,
            forall|x: int|
                0 <= x < p ==> #[trigger] result@[x]@ == pipelines_of(caps, model_layer, trace@)[x].map_values(
                    |i: usize| gpus@[i as int],
                ),
        decreases pipelines@.len() - p,
    {
        let mut stages: Vec<Gpu> = Vec::new();
        let mut q: usize = 0;
        while q < pipelines[p].len()
            invariant
                p < pipelines@.len(),
                q <= pipelines@[p as int]@.len(),
                g <= gpus@.len(),
                forall|x: int, y: int|
                    0 <= x < pipelines@.len() && 0 <= y < pipelines@[x]@.len() ==> #[trigger] pipelines@[x]@[y] < g,
                stages@ == pipelines@[p as int]@.subrange(0, q as int).map_values(|i: usize| gpus@[i as int]),
            decreases pipelines@[p as int]@.len() - q,
        {
            stages.push(gpus[pipelines[p][q]]);
            proof {
                assert(stages@ =~= pipelines@[p as int]@.subrange(0, q as int + 1).map_values(
                    |i: usize| gpus@[i as int],
                ));
            }
            q = q + 1;
        }
        proof {
            assert(pipelines@[p as int]@.subrange(0, q as int) =~= pipelines@[p as int]@);
        }
        result.push(stages);
        proof {
            assert(result@[p as int]@ == pipelines_of(caps, model_layer, trace@)[p as int].map_values(
                |i: usize| gpus@[i as int],
            ));
        }
        p = p + 1;
    }
    result
}

/// `s` is in ascending order.
pub open spec fn ascending(s: Seq<usize>) -> bool {
    forall|i: int, j: int| 0 <= i < j < s.len() ==> s[i] <= s[j]
}

proof fn lemma_insert_sorted_props(s: Seq<usize>, x: usize)
    ensures
        exists|p: int| 0 <= p <= s.len() && insert_sorted(s, x) == #[trigger] s.insert(p, x),
        ascending(s) ==> ascending(insert_sorted(s, x)),
    decreases s.len(),
{
    if s.len() == 0 || x <= s[0] {
        assert(insert_sorted(s, x) =~= s.insert(0, x));
    } else {
        let rest = s.drop_first();
        lemma_insert_sorted_props(rest, x);
        let p = choose|p: int| 0 <= p <= rest.len() && insert_sorted(rest, x) == #[trigger] rest.insert(p, x);
        assert(insert_sorted(s, x) =~= s.insert(p + 1, x));
        if ascending(s) {
            let t = insert_sorted(s, x);
            let u = rest.insert(p, x);
            assert forall|i: int, j: int| 0 <= i < j < t.len() implies t[i] <= t[j] by {
                if i == 0 {
                    if j - 1 < p {
                        assert(u[j - 1] == rest[j - 1]);
                    } else if j - 1 > p {
                        assert(u[j - 1] == rest[j - 2]);
                    }
                } else {
                    assert(t[i] == u[i - 1] && t[j] == u[j - 1]);
                }
            }
        }
    }
}

/// `sorted_of(s)` is in ascending order and holds the entries of `s`.
pub proof fn lemma_sorted_of_props(s: Seq<usize>)
    ensures
        ascending(sorted_of(s)),
        sorted_of(s).to_multiset() == s.to_multiset(),
    decreases s.len(),
{
    broadcast use vstd::seq_lib::group_to_multiset_ensures;

    if s.len() > 0 {
        let dl = s.drop_last();
        lemma_sorted_of_props(dl);
        lemma_insert_sorted_props(sorted_of(dl), s.last());
        let p = choose|p: int|
            0 <= p <= sorted_of(dl).len() && insert_sorted(sorted_of(dl), s.last()) == #[trigger] sorted_of(
                dl,
            ).insert(p, s.last());
        vstd::seq_lib::to_multiset_insert(sorted_of(dl), p, s.last());
        assert(s =~= dl.push(s.last()));
    } else {
        assert(s.to_multiset() =~= sorted_of(s).to_multiset());
    }
}

} // verus!
