//! What the search's answer means: its decisions form a valid run that
//! completes exactly `k` pipelines with the reported number of stages, and
//! no valid run completes them with fewer.
use vstd::prelude::*;
use crate::scheduling::{
    Decision, search, search_extend, after, better, extended, extended_f, started, started_f,
    sorted_of, insert_sorted, insert_by_residual, sorted_by_residual, replay, replay_step,
    pipelines_of, ids_below,
};

verus! {

/// Decision `d` is allowed for GPU `i` in state `(r, f)` with target `k`.
pub open spec fn step_ok(k: usize, r: Seq<usize>, f: nat, d: Decision) -> bool {
    match d {
        Decision::Skip => true,
        Decision::Extend(j) => j < r.len(),
        Decision::StartNew => f + r.len() < k,
    }
}

/// The residuals after decision `d` for a GPU of capacity `c`.
pub open spec fn next_r(l: usize, c: usize, r: Seq<usize>, d: Decision) -> Seq<usize> {
    match d {
        Decision::Skip => r,
        Decision::Extend(j) => sorted_of(extended(r, j as int, c)),
        Decision::StartNew => started(r, l, c),
    }
}

/// The complete-pipeline count after decision `d` for a GPU of capacity `c`.
pub open spec fn next_f(l: usize, c: usize, r: Seq<usize>, f: nat, d: Decision) -> nat {
    match d {
        Decision::Skip => f,
        Decision::Extend(j) => extended_f(r, j as int, c, f),
        Decision::StartNew => started_f(l, c, f),
    }
}

/// `t` is a run of allowed decisions for GPUs `i..` from `(r, f)` that ends
/// with exactly `k` complete pipelines.
pub open spec fn runs_to(caps: Seq<usize>, l: usize, k: usize, i: int, r: Seq<usize>, f: nat, t: Seq<Decision>) -> bool
    decreases t.len(),
{
    if i >= caps.len() {
        t.len() == 0 && f == k
    } else {
        t.len() > 0 && 0 <= i && step_ok(k, r, f, t[0]) && runs_to(
            caps,
            l,
            k,
            i + 1,
            next_r(l, caps[i], r, t[0]),
            next_f(l, caps[i], r, f, t[0]),
            t.drop_first(),
        )
    }
}

/// The number of stages a run uses: every decision but Skip.
pub open spec fn stage_count(t: Seq<Decision>) -> nat
    decreases t.len(),
{
    if t.len() == 0 {
        0
    } else {
        stage_count(t.drop_first()) + if t[0] is Skip {
            0nat
        } else {
            1nat
        }
    }
}

/// `a` is at least as good as `b`: whenever `b` has a value, `a` has one no
/// larger.
pub open spec fn no_worse(a: Option<(nat, Seq<Decision>)>, b: Option<(nat, Seq<Decision>)>) -> bool {
    b is Some ==> (a is Some && a->Some_0.0 <= b->Some_0.0)
}

/// The outcome of Extend(j) from GPU `i` in state `(r, f)`.
pub open spec fn extend_cand(caps: Seq<usize>, l: usize, k: usize, i: int, r: Seq<usize>, f: nat, j: int) -> Option<
    (nat, Seq<Decision>),
> {
    after(
        Decision::Extend(j as usize),
        search(caps, l, k, i + 1, sorted_of(extended(r, j, caps[i])), extended_f(r, j, caps[i], f)),
    )
}

proof fn lemma_extend_result(
    caps: Seq<usize>,
    l: usize,
    k: usize,
    i: int,
    r: Seq<usize>,
    f: nat,
    j: nat,
    acc: Option<(nat, Seq<Decision>)>,
)
    requires
        0 <= i < caps.len(),
        r.len() <= usize::MAX,
    ensures
        search_extend(caps, l, k, i, r, f, j, acc) == acc || exists|q: int|
            j <= q < r.len() && search_extend(caps, l, k, i, r, f, j, acc) == #[trigger] extend_cand(
                caps,
                l,
                k,
                i,
                r,
                f,
                q,
            ),
        no_worse(search_extend(caps, l, k, i, r, f, j, acc), acc),
        forall|q: int|
            j <= q < r.len() ==> no_worse(
                search_extend(caps, l, k, i, r, f, j, acc),
                #[trigger] extend_cand(caps, l, k, i, r, f, q),
            ),
    decreases r.len() - j,
{
    if j < r.len() {
        let cand = extend_cand(caps, l, k, i, r, f, j as int);
        lemma_extend_result(caps, l, k, i, r, f, j + 1, better(acc, cand));
    }
}

proof fn lemma_stage_count_cons(d: Decision, t: Seq<Decision>)
    ensures
        (seq![d] + t).drop_first() == t,
        stage_count(seq![d] + t) == stage_count(t) + if d is Skip {
            0nat
        } else {
            1nat
        },
{
    assert((seq![d] + t).drop_first() =~= t);
}

/// The decisions the search reports form a valid run, and it uses exactly
/// the reported number of stages.
pub proof fn lemma_search_sound(caps: Seq<usize>, l: usize, k: usize, i: int, r: Seq<usize>, f: nat)
    requires
        0 <= i,
        r.len() <= usize::MAX,
    ensures
        search(caps, l, k, i, r, f) matches Some((s, t)) ==> runs_to(caps, l, k, i, r, f, t)
            && stage_count(t) == s,
    decreases caps.len() - i,
{
    if i < caps.len() {
        if let Some((s, t)) = search(caps, l, k, i, r, f) {
            let c = caps[i];
            let skip = after(Decision::Skip, search(caps, l, k, i + 1, r, f));
            lemma_extend_result(caps, l, k, i, r, f, 0, skip);
            let ext = search_extend(caps, l, k, i, r, f, 0, skip);
            let start = after(
                Decision::StartNew,
                search(caps, l, k, i + 1, started(r, l, c), started_f(l, c, f)),
            );
            if f + r.len() < k && search(caps, l, k, i, r, f) == start && start != ext {
                if l > c {
                    crate::scheduling::lemma_sorted_of_len(r.push((l - c) as usize));
                }
                lemma_search_sound(caps, l, k, i + 1, started(r, l, c), started_f(l, c, f));
                let (s1, t1) = search(caps, l, k, i + 1, started(r, l, c), started_f(l, c, f))->Some_0;
                lemma_stage_count_cons(Decision::StartNew, t1);
            } else if ext == skip {
                lemma_search_sound(caps, l, k, i + 1, r, f);
                let (s1, t1) = search(caps, l, k, i + 1, r, f)->Some_0;
                lemma_stage_count_cons(Decision::Skip, t1);
            } else {
                let q = choose|q: int| 0 <= q < r.len() && ext == #[trigger] extend_cand(caps, l, k, i, r, f, q);
                let r2 = sorted_of(extended(r, q, c));
                let f2 = extended_f(r, q, c, f);
                crate::scheduling::lemma_sorted_of_len(extended(r, q, c));
                lemma_search_sound(caps, l, k, i + 1, r2, f2);
                let (s1, t1) = search(caps, l, k, i + 1, r2, f2)->Some_0;
                lemma_stage_count_cons(Decision::Extend(q as usize), t1);
                assert((q as usize) as int == q);
            }
        }
    }
}

/// No valid run completes the target with fewer stages than the search
/// reports; in particular the search finds a way whenever one exists.
pub proof fn lemma_search_optimal(
    caps: Seq<usize>,
    l: usize,
    k: usize,
    i: int,
    r: Seq<usize>,
    f: nat,
    t: Seq<Decision>,
)
    requires
        0 <= i,
        r.len() <= usize::MAX,
        runs_to(caps, l, k, i, r, f, t),
    ensures
        search(caps, l, k, i, r, f) matches Some((s, _)) && s <= stage_count(t),
    decreases caps.len() - i,
{
    if i < caps.len() {
        let c = caps[i];
        let d = t[0];
        let tail = t.drop_first();
        let skip = after(Decision::Skip, search(caps, l, k, i + 1, r, f));
        lemma_extend_result(caps, l, k, i, r, f, 0, skip);
        let ext = search_extend(caps, l, k, i, r, f, 0, skip);
        match d {
            Decision::Skip => {
                lemma_search_optimal(caps, l, k, i + 1, r, f, tail);
            },
            Decision::Extend(j) => {
                crate::scheduling::lemma_sorted_of_len(extended(r, j as int, c));
                lemma_search_optimal(
                    caps,
                    l,
                    k,
                    i + 1,
                    sorted_of(extended(r, j as int, c)),
                    extended_f(r, j as int, c, f),
                    tail,
                );
                assert(no_worse(ext, extend_cand(caps, l, k, i, r, f, j as int)));
            },
            Decision::StartNew => {
                if l > c {
                    crate::scheduling::lemma_sorted_of_len(r.push((l - c) as usize));
                }
                lemma_search_optimal(caps, l, k, i + 1, started(r, l, c), started_f(l, c, f), tail);
            },
        }
    }
}

/// The search state after the first `n` decisions of `t` from the start.
pub open spec fn dp_after(caps: Seq<usize>, l: usize, t: Seq<Decision>, n: int) -> (Seq<usize>, nat)
    decreases n,
{
    if n <= 0 {
        (Seq::empty(), 0)
    } else {
        let prev = dp_after(caps, l, t, n - 1);
        (next_r(l, caps[n - 1], prev.0, t[n - 1]), next_f(l, caps[n - 1], prev.0, prev.1, t[n - 1]))
    }
}

/// The number of GPUs placed in `pipes`, over all pipelines.
pub open spec fn total_len(pipes: Seq<Seq<usize>>) -> int
    decreases pipes.len(),
{
    if pipes.len() == 0 {
        0
    } else {
        total_len(pipes.drop_last()) + pipes.last().len()
    }
}

/// The residuals of active entries.
pub open spec fn residuals(active: Seq<(usize, usize)>) -> Seq<usize> {
    active.map_values(|e: (usize, usize)| e.0)
}

proof fn lemma_total_len_update(pipes: Seq<Seq<usize>>, i: int, x: Seq<usize>)
    requires
        0 <= i < pipes.len(),
    ensures
        total_len(pipes.update(i, x)) == total_len(pipes) - pipes[i].len() + x.len(),
    decreases pipes.len(),
{
    let u = pipes.update(i, x);
    if i == pipes.len() - 1 {
        assert(u.drop_last() =~= pipes.drop_last());
    } else {
        assert(u.drop_last() =~= pipes.drop_last().update(i, x));
        lemma_total_len_update(pipes.drop_last(), i, x);
    }
}

proof fn lemma_residuals_insert(s: Seq<(usize, usize)>, x: (usize, usize))
    ensures
        residuals(insert_by_residual(s, x)) == insert_sorted(residuals(s), x.0),
    decreases s.len(),
{
    if s.len() > 0 {
        lemma_residuals_insert(s.drop_first(), x);
        assert(residuals(s.drop_first()) =~= residuals(s).drop_first());
        if x.0 <= s[0].0 {
            assert(residuals(insert_by_residual(s, x)) =~= insert_sorted(residuals(s), x.0));
        } else {
            assert(residuals(insert_by_residual(s, x)) =~= insert_sorted(residuals(s), x.0));
        }
    } else {
        assert(residuals(insert_by_residual(s, x)) =~= insert_sorted(residuals(s), x.0));
    }
}

proof fn lemma_residuals_sorted(s: Seq<(usize, usize)>)
    ensures
        residuals(sorted_by_residual(s)) == sorted_of(residuals(s)),
    decreases s.len(),
{
    if s.len() > 0 {
        lemma_residuals_sorted(s.drop_last());
        lemma_residuals_insert(sorted_by_residual(s.drop_last()), s.last());
        assert(residuals(s.drop_last()) =~= residuals(s).drop_last());
    } else {
        assert(residuals(s) =~= Seq::<usize>::empty());
    }
}

proof fn lemma_stage_count_snoc(t: Seq<Decision>, d: Decision)
    ensures
        stage_count(t.push(d)) == stage_count(t) + if d is Skip {
            0nat
        } else {
            1nat
        },
    decreases t.len(),
{
    if t.len() > 0 {
        lemma_stage_count_snoc(t.drop_first(), d);
        assert(t.push(d).drop_first() =~= t.drop_first().push(d));
        assert(t.push(d)[0] == t[0]);
    } else {
        assert(t.push(d).drop_first() =~= Seq::<Decision>::empty());
        assert(t.push(d)[0] == d);
        assert(stage_count(Seq::<Decision>::empty()) == 0);
        assert(stage_count(t) == 0);
    }
}

/// A valid run from the start is valid from each point it passes.
pub(crate) proof fn lemma_runs_forward(caps: Seq<usize>, l: usize, k: usize, t: Seq<Decision>, n: int)
    requires
        runs_to(caps, l, k, 0, Seq::empty(), 0, t),
        0 <= n <= t.len(),
    ensures
        t.len() == caps.len(),
        runs_to(
            caps,
            l,
            k,
            n,
            dp_after(caps, l, t, n).0,
            dp_after(caps, l, t, n).1,
            t.subrange(n, t.len() as int),
        ),
    decreases n,
{
    if n == 0 {
        assert(t.subrange(0, t.len() as int) =~= t);
        lemma_runs_len(caps, l, k, 0, Seq::empty(), 0, t);
    } else {
        lemma_runs_forward(caps, l, k, t, n - 1);
        let u = t.subrange(n - 1, t.len() as int);
        assert(u.drop_first() =~= t.subrange(n, t.len() as int));
        assert(u[0] == t[n - 1]);
    }
}

proof fn lemma_runs_len(caps: Seq<usize>, l: usize, k: usize, i: int, r: Seq<usize>, f: nat, t: Seq<Decision>)
    requires
        0 <= i <= caps.len(),
        runs_to(caps, l, k, i, r, f, t),
    ensures
        t.len() == caps.len() - i,
    decreases t.len(),
{
    if i < caps.len() {
        lemma_runs_len(
            caps,
            l,
            k,
            i + 1,
            next_r(l, caps[i], r, t[0]),
            next_f(l, caps[i], r, f, t[0]),
            t.drop_first(),
        );
    }
}

/// Replaying a valid run keeps the active residuals equal to the search
/// state, and places one GPU per stage.
proof fn lemma_replay_tracks(caps: Seq<usize>, l: usize, k: usize, t: Seq<Decision>, n: int)
    requires
        runs_to(caps, l, k, 0, Seq::empty(), 0, t),
        0 <= n <= t.len(),
        k <= usize::MAX,
    ensures
        residuals(replay(caps, l, t, n).1) == dp_after(caps, l, t, n).0,
        ids_below(replay(caps, l, t, n).1, replay(caps, l, t, n).0.len() as int),
        total_len(replay(caps, l, t, n).0) == stage_count(t.subrange(0, n)),
    decreases n,
{
    if n == 0 {
        assert(residuals(Seq::<(usize, usize)>::empty()) =~= Seq::<usize>::empty());
        assert(t.subrange(0, 0) =~= Seq::<Decision>::empty());
    } else {
        lemma_replay_tracks(caps, l, k, t, n - 1);
        lemma_runs_forward(caps, l, k, t, n - 1);
        let g = n - 1;
        let (pipes, active) = replay(caps, l, t, g);
        let (r, f) = dp_after(caps, l, t, g);
        let c = caps[g];
        let d = t[g];
        assert(step_ok(k, r, f, d)) by {
            assert(t.subrange(g, t.len() as int)[0] == d);
        }
        assert(t.subrange(0, n) =~= t.subrange(0, g).push(d));
        lemma_stage_count_snoc(t.subrange(0, g), d);
        let (pipes2, active2) = replay_step(caps, l, g, d, pipes, active);
        assert(replay(caps, l, t, n) == (pipes2, active2));
        match d {
            Decision::Skip => {},
            Decision::StartNew => {
                assert(pipes2.drop_last() =~= pipes);
                if l > c {
                    let pushed = active.push(((l - c) as usize, pipes.len() as usize));
                    assert(residuals(pushed) =~= r.push((l - c) as usize));
                    lemma_residuals_sorted(pushed);
                    assert(ids_below(pushed, pipes2.len() as int)) by {
                        assert forall|q: int| 0 <= q < pushed.len() implies pushed[q].1 < pipes2.len() by {
                            if q < active.len() {
                                assert(pushed[q] == active[q]);
                            }
                        }
                    }
                    crate::scheduling::lemma_sorted_by_residual_ids(pushed, pipes2.len() as int);
                }
            },
            Decision::Extend(j) => {
                let (res, id) = active[j as int];
                assert(res == r[j as int]);
                lemma_total_len_update(pipes, id as int, pipes[id as int].push(g as usize));
                if res <= c {
                    let shrunk = active.remove(j as int);
                    assert(residuals(shrunk) =~= r.remove(j as int));
                    lemma_residuals_sorted(shrunk);
                    assert(ids_below(shrunk, pipes2.len() as int)) by {
                        assert forall|q: int| 0 <= q < shrunk.len() implies shrunk[q].1 < pipes2.len() by {
                            if q < j {
                                assert(shrunk[q] == active[q]);
                            } else {
                                assert(shrunk[q] == active[q + 1]);
                            }
                        }
                    }
                    crate::scheduling::lemma_sorted_by_residual_ids(shrunk, pipes2.len() as int);
                } else {
                    let moved = active.update(j as int, ((res - c) as usize, id));
                    assert(residuals(moved) =~= r.update(j as int, (r[j as int] - c) as usize));
                    lemma_residuals_sorted(moved);
                    assert(ids_below(moved, pipes2.len() as int)) by {
                        assert forall|q: int| 0 <= q < moved.len() implies moved[q].1 < pipes2.len() by {
                            if q != j {
                                assert(moved[q] == active[q]);
                            }
                        }
                    }
                    crate::scheduling::lemma_sorted_by_residual_ids(moved, pipes2.len() as int);
                }
            },
        }
    }
}

/// The pipelines formed by the search's decisions hold, over all of them,
/// exactly the reported minimum number of stages `s*(k)`.
pub proof fn lemma_pipelines_use_best_stage_count(caps: Seq<usize>, l: usize, k: usize)
    requires
        search(caps, l, k, 0, Seq::empty(), 0) is Some,
    ensures
        total_len(pipelines_of(caps, l, search(caps, l, k, 0, Seq::empty(), 0)->Some_0.1)) == search(
            caps,
            l,
            k,
            0,
            Seq::empty(),
            0,
        )->Some_0.0,
{
    let (s, t) = search(caps, l, k, 0, Seq::empty(), 0)->Some_0;
    lemma_search_sound(caps, l, k, 0, Seq::empty(), 0);
    lemma_runs_forward(caps, l, k, t, 0);
    lemma_replay_tracks(caps, l, k, t, t.len() as int);
    assert(t.subrange(0, t.len() as int) =~= t);
}

/// Total layer capacity of the GPUs (by index) of one pipeline.
pub open spec fn cap_total(caps: Seq<usize>, pipe: Seq<usize>) -> int
    decreases pipe.len(),
{
    if pipe.len() == 0 {
        0
    } else {
        cap_total(caps, pipe.drop_last()) + caps[pipe.last() as int]
    }
}

/// The active entries of a replay: each names an existing pipeline that
/// still misses exactly its residual (a positive count of layers), and no
/// pipeline has two entries.
pub open spec fn entries_ok(caps: Seq<usize>, l: usize, pipes: Seq<Seq<usize>>, active: Seq<(usize, usize)>) -> bool {
    &&& forall|q: int| 0 <= q < active.len() ==> entry_ok(caps, l, pipes, #[trigger] active[q])
    &&& forall|a: int, b: int| 0 <= a < b < active.len() ==> active[a].1 != active[b].1
}

/// Entry `e` names an existing pipeline that misses exactly `e.0 > 0`
/// layers.
pub open spec fn entry_ok(caps: Seq<usize>, l: usize, pipes: Seq<Seq<usize>>, e: (usize, usize)) -> bool {
    e.0 > 0 && e.1 < pipes.len() && e.0 == l - cap_total(caps, pipes[e.1 as int])
}

/// Pipeline `id` is complete, or it has an active entry.
pub open spec fn accounted(caps: Seq<usize>, l: usize, pipes: Seq<Seq<usize>>, active: Seq<(usize, usize)>, id: int) -> bool {
    cap_total(caps, pipes[id]) >= l || exists|q: int| 0 <= q < active.len() && #[trigger] active[q].1 == id
}

proof fn lemma_insert_by_residual_multiset(s: Seq<(usize, usize)>, x: (usize, usize))
    ensures
        insert_by_residual(s, x).to_multiset() == s.to_multiset().insert(x),
    decreases s.len(),
{
    broadcast use vstd::seq_lib::group_to_multiset_ensures;

    let p = lemma_insert_by_residual_pos(s, x);
    vstd::seq_lib::to_multiset_insert(s, p, x);
}

proof fn lemma_insert_by_residual_pos(s: Seq<(usize, usize)>, x: (usize, usize)) -> (p: int)
    ensures
        0 <= p <= s.len(),
        insert_by_residual(s, x) == s.insert(p, x),
    decreases s.len(),
{
    if s.len() == 0 || x.0 <= s[0].0 {
        assert(insert_by_residual(s, x) =~= s.insert(0, x));
        0
    } else {
        let q = lemma_insert_by_residual_pos(s.drop_first(), x);
        assert(insert_by_residual(s, x) =~= s.insert(q + 1, x));
        q + 1
    }
}

/// Sorting by residual keeps every entry.
proof fn lemma_sorted_by_residual_keeps(s: Seq<(usize, usize)>)
    ensures
        sorted_by_residual(s).to_multiset() == s.to_multiset(),
    decreases s.len(),
{
    broadcast use vstd::seq_lib::group_to_multiset_ensures;

    if s.len() > 0 {
        lemma_sorted_by_residual_keeps(s.drop_last());
        lemma_insert_by_residual_multiset(sorted_by_residual(s.drop_last()), s.last());
        assert(s =~= s.drop_last().push(s.last()));
    } else {
        assert(s.to_multiset() =~= sorted_by_residual(s).to_multiset());
    }
}

proof fn lemma_sorted_members(s: Seq<(usize, usize)>, e: (usize, usize))
    ensures
        sorted_by_residual(s).contains(e) <==> s.contains(e),
{
    broadcast use vstd::seq_lib::group_to_multiset_ensures;

    lemma_sorted_by_residual_keeps(s);
    assert(sorted_by_residual(s).contains(e) <==> sorted_by_residual(s).to_multiset().count(e) > 0);
    assert(s.contains(e) <==> s.to_multiset().count(e) > 0);
}

/// Sorting keeps the entries' properties: the same entries, still valid and
/// still one per pipeline.
proof fn lemma_sorted_entries_ok(caps: Seq<usize>, l: usize, pipes: Seq<Seq<usize>>, s: Seq<(usize, usize)>)
    requires
        entries_ok(caps, l, pipes, s),
    ensures
        entries_ok(caps, l, pipes, sorted_by_residual(s)),
        sorted_by_residual(s).len() == s.len(),
    decreases s.len(),
{
    crate::scheduling::lemma_sorted_of_len_pairs(s);
    if s.len() > 0 {
        let dl = s.drop_last();
        let x = s.last();
        assert(entries_ok(caps, l, pipes, dl)) by {
            assert forall|q: int| 0 <= q < dl.len() implies entry_ok(caps, l, pipes, #[trigger] dl[q]) by {
                assert(dl[q] == s[q]);
            }
        }
        lemma_sorted_entries_ok(caps, l, pipes, dl);
        let sd = sorted_by_residual(dl);
        let p = lemma_insert_by_residual_pos(sd, x);
        let t = sd.insert(p, x);
        assert(sorted_by_residual(s) == t);
        assert forall|q: int| 0 <= q < sd.len() implies sd[q].1 != x.1 by {
            lemma_sorted_members(dl, sd[q]);
            assert(sd.contains(sd[q]));
            let w = choose|w: int| 0 <= w < dl.len() && dl[w] == sd[q];
            assert(dl[w] == s[w]);
        }
        assert forall|q: int| 0 <= q < t.len() implies entry_ok(caps, l, pipes, #[trigger] t[q]) by {
            if q < p {
                assert(t[q] == sd[q]);
            } else if q > p {
                assert(t[q] == sd[q - 1]);
            }
        }
        assert forall|a: int, b: int| 0 <= a < b < t.len() implies t[a].1 != t[b].1 by {
            if a < p && b < p {
                assert(t[a] == sd[a] && t[b] == sd[b]);
            } else if a < p && b == p {
                assert(t[a] == sd[a]);
            } else if a < p {
                assert(t[a] == sd[a] && t[b] == sd[b - 1]);
            } else if a == p {
                assert(t[b] == sd[b - 1]);
            } else {
                assert(t[a] == sd[a - 1] && t[b] == sd[b - 1]);
            }
        }
    }
}

proof fn lemma_cap_total_push(caps: Seq<usize>, pipe: Seq<usize>, g: usize)
    ensures
        cap_total(caps, pipe.push(g)) == cap_total(caps, pipe) + caps[g as int],
{
    assert(pipe.push(g).drop_last() =~= pipe);
}

/// Replaying a valid run keeps every pipeline accounted for, and there are
/// as many pipelines as complete plus active ones.
proof fn lemma_replay_accounts(caps: Seq<usize>, l: usize, k: usize, t: Seq<Decision>, n: int)
    requires
        caps.len() <= usize::MAX,
        runs_to(caps, l, k, 0, Seq::empty(), 0, t),
        0 <= n <= t.len(),
        k <= usize::MAX,
    ensures
        replay(caps, l, t, n).0.len() == dp_after(caps, l, t, n).1 + replay(caps, l, t, n).1.len(),
        entries_ok(caps, l, replay(caps, l, t, n).0, replay(caps, l, t, n).1),
        forall|id: int|
            0 <= id < replay(caps, l, t, n).0.len() ==> #[trigger] accounted(
                caps,
                l,
                replay(caps, l, t, n).0,
                replay(caps, l, t, n).1,
                id,
            ),
    decreases n,
{
    if n > 0 {
        lemma_replay_accounts(caps, l, k, t, n - 1);
        lemma_replay_tracks(caps, l, k, t, n - 1);
        lemma_runs_forward(caps, l, k, t, n - 1);
        let g = n - 1;
        let (pipes, active) = replay(caps, l, t, g);
        let (r, f) = dp_after(caps, l, t, g);
        let c = caps[g];
        let d = t[g];
        assert(step_ok(k, r, f, d)) by {
            assert(t.subrange(g, t.len() as int)[0] == d);
        }
        let (pipes2, active2) = replay_step(caps, l, g, d, pipes, active);
        assert(replay(caps, l, t, n) == (pipes2, active2));
        assert(residuals(active).len() == active.len());
        match d {
            Decision::Skip => {},
            Decision::StartNew => {
                let newp = seq![g as usize];
                assert(newp =~= Seq::<usize>::empty().push(g as usize));
                lemma_cap_total_push(caps, Seq::empty(), g as usize);
                assert(pipes2[pipes.len() as int] == newp);
                assert(cap_total(caps, newp) == c);
                let e = if l > c {
                    active.push(((l - c) as usize, pipes.len() as usize))
                } else {
                    active
                };
                assert(entries_ok(caps, l, pipes2, e)) by {
                    assert forall|q: int| 0 <= q < e.len() implies entry_ok(caps, l, pipes2, #[trigger] e[q]) by {
                        if q < active.len() {
                            assert(e[q] == active[q]);
                            assert(entry_ok(caps, l, pipes, active[q]));
                            assert(pipes2[active[q].1 as int] == pipes[active[q].1 as int]);
                        }
                    }
                    assert forall|a: int, b: int| 0 <= a < b < e.len() implies e[a].1 != e[b].1 by {
                        if b < active.len() {
                            assert(e[a] == active[a] && e[b] == active[b]);
                        } else {
                            assert(e[a] == active[a]);
                            assert(entry_ok(caps, l, pipes, active[a]));
                        }
                    }
                }
                if l > c {
                    lemma_sorted_entries_ok(caps, l, pipes2, e);
                }
                assert forall|id: int| 0 <= id < pipes2.len() implies #[trigger] accounted(
                    caps,
                    l,
                    pipes2,
                    active2,
                    id,
                ) by {
                    if id < pipes.len() {
                        assert(pipes2[id] == pipes[id]);
                        assert(accounted(caps, l, pipes, active, id));
                        if cap_total(caps, pipes[id]) < l {
                            let q = choose|q: int| 0 <= q < active.len() && #[trigger] active[q].1 == id;
                            assert(e[q] == active[q]);
                            if l > c {
                                assert(e.contains(e[q]));
                                lemma_sorted_members(e, e[q]);
                            }
                        }
                    } else if l > c {
                        let q = active.len() as int;
                        assert(e[q].1 == id);
                        assert(e.contains(e[q]));
                        lemma_sorted_members(e, e[q]);
                    }
                }
            },
            Decision::Extend(j) => {
                let (res, id0) = active[j as int];
                assert(res == r[j as int]);
                assert(entry_ok(caps, l, pipes, active[j as int]));
                lemma_cap_total_push(caps, pipes[id0 as int], g as usize);
                let e = if res <= c {
                    active.remove(j as int)
                } else {
                    active.update(j as int, ((res - c) as usize, id0))
                };
                assert(active2 == sorted_by_residual(e));
                assert(entries_ok(caps, l, pipes2, e)) by {
                    assert forall|q: int| 0 <= q < e.len() implies entry_ok(caps, l, pipes2, #[trigger] e[q]) by {
                        let w = if res <= c && q >= j {
                            q + 1
                        } else {
                            q
                        };
                        if res > c && q == j {
                        } else {
                            assert(e[q] == active[w]);
                            assert(entry_ok(caps, l, pipes, active[w]));
                            assert(w != j);
                            assert(active[w].1 != id0);
                            assert(pipes2[active[w].1 as int] == pipes[active[w].1 as int]);
                        }
                    }
                    assert forall|a: int, b: int| 0 <= a < b < e.len() implies e[a].1 != e[b].1 by {
                        if res <= c {
                            let wa = if a >= j {
                                a + 1
                            } else {
                                a
                            };
                            let wb = if b >= j {
                                b + 1
                            } else {
                                b
                            };
                            assert(e[a] == active[wa] && e[b] == active[wb]);
                        } else {
                            if a != j {
                                assert(e[a] == active[a]);
                            }
                            if b != j {
                                assert(e[b] == active[b]);
                            }
                        }
                    }
                }
                lemma_sorted_entries_ok(caps, l, pipes2, e);
                assert forall|id: int| 0 <= id < pipes2.len() implies #[trigger] accounted(
                    caps,
                    l,
                    pipes2,
                    active2,
                    id,
                ) by {
                    if id != id0 {
                        assert(pipes2[id] == pipes[id]);
                        assert(accounted(caps, l, pipes, active, id));
                        if cap_total(caps, pipes[id]) < l {
                            let q = choose|q: int| 0 <= q < active.len() && #[trigger] active[q].1 == id;
                            assert(q != j);
                            let w = if res <= c && q > j {
                                q - 1
                            } else {
                                q
                            };
                            assert(e[w] == active[q]);
                            assert(e.contains(e[w]));
                            lemma_sorted_members(e, e[w]);
                        }
                    } else if res > c {
                        assert(e[j as int].1 == id);
                        assert(e.contains(e[j as int]));
                        lemma_sorted_members(e, e[j as int]);
                    }
                }
            },
        }
    }
}

/// For the search's decisions at target `k`, exactly `k` pipelines are
/// formed and each can hold all `l` layers, so the plan leaves none out.
pub proof fn lemma_pipelines_complete(caps: Seq<usize>, l: usize, k: usize)
    requires
        caps.len() <= usize::MAX,
        search(caps, l, k, 0, Seq::empty(), 0) is Some,
    ensures
        pipelines_of(caps, l, search(caps, l, k, 0, Seq::empty(), 0)->Some_0.1).len() == k,
        forall|p: int|
            0 <= p < pipelines_of(caps, l, search(caps, l, k, 0, Seq::empty(), 0)->Some_0.1).len()
                ==> cap_total(
                caps,
                #[trigger] pipelines_of(caps, l, search(caps, l, k, 0, Seq::empty(), 0)->Some_0.1)[p],
            ) >= l,
{
    let (s, t) = search(caps, l, k, 0, Seq::empty(), 0)->Some_0;
    lemma_search_sound(caps, l, k, 0, Seq::empty(), 0);
    lemma_runs_forward(caps, l, k, t, t.len() as int);
    lemma_replay_accounts(caps, l, k, t, t.len() as int);
    let n = t.len() as int;
    let (pipes, active) = replay(caps, l, t, n);
    assert(t.subrange(n, n) =~= Seq::<Decision>::empty());
    assert(dp_after(caps, l, t, n).1 == k);
    lemma_replay_tracks(caps, l, k, t, n);
    lemma_budget(caps, l, k, t, n);
    assert(active.len() == 0);
    assert forall|p: int| 0 <= p < pipes.len() implies cap_total(caps, #[trigger] pipes[p]) >= l by {
        assert(accounted(caps, l, pipes, active, p));
    }
}

/// Along a valid run, complete plus partial pipelines never exceed `k`.
proof fn lemma_budget(caps: Seq<usize>, l: usize, k: usize, t: Seq<Decision>, n: int)
    requires
        runs_to(caps, l, k, 0, Seq::empty(), 0, t),
        0 <= n <= t.len(),
        k <= usize::MAX,
    ensures
        dp_after(caps, l, t, n).1 + dp_after(caps, l, t, n).0.len() <= k,
    decreases n,
{
    if n > 0 {
        lemma_budget(caps, l, k, t, n - 1);
        lemma_runs_forward(caps, l, k, t, n - 1);
        let g = n - 1;
        let (r, f) = dp_after(caps, l, t, g);
        let c = caps[g];
        let d = t[g];
        assert(step_ok(k, r, f, d)) by {
            assert(t.subrange(g, t.len() as int)[0] == d);
        }
        match d {
            Decision::Skip => {},
            Decision::Extend(j) => {
                crate::scheduling::lemma_sorted_of_len(extended(r, j as int, c));
            },
            Decision::StartNew => {
                if l > c {
                    crate::scheduling::lemma_sorted_of_len(r.push((l - c) as usize));
                }
            },
        }
    }
}

/// Every GPU index in the first `n` replayed steps is below `n`.
pub proof fn lemma_replay_indices(caps: Seq<usize>, l: usize, t: Seq<Decision>, n: int)
    requires
        0 <= n <= t.len(),
        t.len() <= usize::MAX,
    ensures
        forall|p: int, q: int|
            0 <= p < replay(caps, l, t, n).0.len() && 0 <= q < replay(caps, l, t, n).0[p].len() ==> #[trigger] replay(
                caps,
                l,
                t,
                n,
            ).0[p][q] < n,
        ids_below(replay(caps, l, t, n).1, replay(caps, l, t, n).0.len() as int),
    decreases n,
{
    if n > 0 {
        lemma_replay_indices(caps, l, t, n - 1);
        let g = n - 1;
        let (pipes, active) = replay(caps, l, t, g);
        let (pipes2, active2) = replay_step(caps, l, g, t[g], pipes, active);
        assert(replay(caps, l, t, n) == (pipes2, active2));
        match t[g] {
            Decision::Skip => {},
            Decision::StartNew => {
                if l > caps[g] {
                    let pushed = active.push(((l - caps[g]) as usize, pipes.len() as usize));
                    assert forall|q: int| 0 <= q < pushed.len() implies pushed[q].1 < pipes2.len() by {
                        if q < active.len() {
                            assert(pushed[q] == active[q]);
                        }
                    }
                    crate::scheduling::lemma_sorted_by_residual_ids(pushed, pipes2.len() as int);
                }
            },
            Decision::Extend(j) => {
                if j < active.len() {
                    let (res, id) = active[j as int];
                    let e = if res <= caps[g] {
                        active.remove(j as int)
                    } else {
                        active.update(j as int, ((res - caps[g]) as usize, id))
                    };
                    assert forall|q: int| 0 <= q < e.len() implies e[q].1 < pipes2.len() by {
                        if res <= caps[g] {
                            if q < j {
                                assert(e[q] == active[q]);
                            } else {
                                assert(e[q] == active[q + 1]);
                            }
                        } else if q != j {
                            assert(e[q] == active[q]);
                        }
                    }
                    crate::scheduling::lemma_sorted_by_residual_ids(e, pipes2.len() as int);
                }
            },
        }
        assert forall|p: int, q: int| 0 <= p < pipes2.len() && 0 <= q < pipes2[p].len() implies #[trigger] pipes2[p][q]
            < n by {
            match t[g] {
                Decision::Skip => {
                    assert(pipes[p][q] < g);
                },
                Decision::StartNew => {
                    if p < pipes.len() {
                        assert(pipes2[p] == pipes[p]);
                        assert(pipes[p][q] < g);
                    } else {
                        assert(pipes2[p] == seq![g as usize]);
                    }
                },
                Decision::Extend(j) => {
                    if j < active.len() && p == active[j as int].1 {
                        assert(pipes2[p] == pipes[p].push(g as usize));
                        if q < pipes[p].len() {
                            assert(pipes[p][q] < g);
                        }
                    } else {
                        assert(pipes2[p] == pipes[p]);
                        assert(pipes[p][q] < g);
                    }
                },
            }
        }
    }
}

} // verus!
