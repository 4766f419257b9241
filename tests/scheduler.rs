use flux_engine::plan::{build_plan, emit_stages, feasible_candidates, max_replicas, sort_gpus, Candidate, Stage};
use flux_engine::scheduling::{dfs, reconstruct, solve_for_k, Decision, DpState, Gpu, INF};
use flux_engine::water_fill::water_fill;

fn gpu(layer_cap: usize, compute_cap: usize) -> Gpu {
    Gpu { layer_cap, compute_cap }
}

fn score(c: &Candidate, alpha: f64, t_comp: f64, r_rtt: f64) -> f64 {
    (c.k as f64).powf(alpha) / (t_comp + (c.stages as f64 / c.k as f64) * r_rtt)
}

fn pick(cands: &[Candidate], alpha: f64, t_comp: f64, r_rtt: f64) -> Option<&Candidate> {
    let mut best: Option<&Candidate> = None;
    for c in cands {
        match best {
            Some(b) if score(c, alpha, t_comp, r_rtt) < score(b, alpha, t_comp, r_rtt) => {}
            _ => best = Some(c),
        }
    }
    best
}

fn stage(g: Gpu, lo: usize, hi: usize) -> Stage {
    Stage { gpu: g, lo, hi }
}

#[test]
fn balanced_trivial() {
    let gpus = vec![gpu(5, 1), gpu(5, 1)];
    let sorted = sort_gpus(&gpus);
    let cands = feasible_candidates(&sorted, 5);
    assert_eq!(cands.len(), 2);
    assert_eq!((cands[0].k, cands[0].stages), (1, 1));
    assert_eq!((cands[1].k, cands[1].stages), (2, 2));
    let best = pick(&cands, 1.0, 10.0, 1.0).unwrap();
    assert_eq!(best.k, 2);
    let plan = build_plan(&sorted, 5, best.trace.clone());
    assert_eq!(plan, vec![vec![stage(gpu(5, 1), 0, 5)], vec![stage(gpu(5, 1), 0, 5)]]);
}

#[test]
fn source_example() {
    let gpus = vec![gpu(6, 1), gpu(6, 2), gpu(6, 3), gpu(6, 2), gpu(6, 1)];
    let sorted = sort_gpus(&gpus);
    assert_eq!(sorted, vec![gpu(6, 3), gpu(6, 2), gpu(6, 2), gpu(6, 1), gpu(6, 1)]);
    assert_eq!(max_replicas(&sorted, 10), 3);
    let cands = feasible_candidates(&sorted, 10);
    let ks: Vec<(usize, usize)> = cands.iter().map(|c| (c.k, c.stages)).collect();
    assert_eq!(ks, vec![(1, 2), (2, 4)]);
    let best = pick(&cands, 1.0, 10.0, 1.0).unwrap();
    assert_eq!(best.k, 2);
    let plan = build_plan(&sorted, 10, best.trace.clone());
    assert_eq!(plan.len(), 2);
    for p in &plan {
        assert_eq!(p.len(), 2);
        assert_eq!(p[0].lo, 0);
        assert_eq!(p[0].hi, p[1].lo);
        assert_eq!(p[1].hi, 10);
    }
    assert_eq!(
        plan,
        vec![
            vec![stage(gpu(6, 2), 0, 5), stage(gpu(6, 2), 5, 10)],
            vec![stage(gpu(6, 1), 0, 5), stage(gpu(6, 1), 5, 10)],
        ]
    );
}

#[test]
fn water_fill_rounding() {
    assert_eq!(water_fill(7, &[10, 10, 10], &[1, 1, 1]), Some(vec![3, 2, 2]));
}

#[test]
fn cap_saturation() {
    assert_eq!(water_fill(10, &[2, 10], &[9, 1]), Some(vec![2, 8]));
}

#[test]
fn infeasible_k() {
    let sorted = sort_gpus(&vec![gpu(3, 1)]);
    assert_eq!(max_replicas(&sorted, 5), 0);
    assert!(feasible_candidates(&sorted, 5).is_empty());
}

#[test]
fn no_layers_no_plan() {
    let sorted = sort_gpus(&vec![gpu(3, 1), gpu(4, 1)]);
    assert_eq!(max_replicas(&sorted, 0), 0);
    assert!(feasible_candidates(&sorted, 0).is_empty());
    assert!(feasible_candidates(&Vec::new(), 4).is_empty());
}

#[test]
fn water_fill_largest_remainder_first() {
    // Shares 10*1/6, 10*2/6, 10*3/6 = 1.67, 3.33, 5: floors 1, 3, 5 and the
    // one layer left goes to the largest fraction, stage 0.
    assert_eq!(water_fill(10, &[10, 10, 10], &[1, 2, 3]), Some(vec![2, 3, 5]));
}

#[test]
fn water_fill_infeasible() {
    assert_eq!(water_fill(10, &[2, 3], &[1, 1]), None);
}

#[test]
fn water_fill_zero_compute_goes_by_index() {
    assert_eq!(water_fill(5, &[2, 2, 2], &[0, 0, 0]), Some(vec![2, 2, 1]));
}

#[test]
fn water_fill_exact_caps() {
    assert_eq!(water_fill(6, &[1, 2, 3], &[5, 5, 5]), Some(vec![1, 2, 3]));
}

#[test]
fn water_fill_empty_pipeline() {
    assert_eq!(water_fill(0, &[], &[]), Some(vec![]));
    assert_eq!(water_fill(1, &[], &[]), None);
}

#[test]
fn emit_drops_empty_stages() {
    let pipe = vec![gpu(4, 1), gpu(4, 1), gpu(4, 1)];
    let stages = emit_stages(&pipe, &vec![3, 0, 2]);
    assert_eq!(stages, vec![stage(gpu(4, 1), 0, 3), stage(gpu(4, 1), 3, 5)]);
}

#[test]
fn solve_prefers_skip_on_ties() {
    let gpus = vec![gpu(5, 1), gpu(5, 1)];
    assert_eq!(solve_for_k(&gpus, 5, 1), (1, vec![Decision::Skip, Decision::StartNew]));
    assert_eq!(solve_for_k(&gpus, 5, 2), (2, vec![Decision::StartNew, Decision::StartNew]));
    assert_eq!(solve_for_k(&gpus, 5, 3), (INF, vec![]));
}

#[test]
fn dfs_restores_path() {
    let gpus = vec![gpu(6, 1), gpu(4, 1)];
    let mut path = vec![Decision::Skip];
    let mut best = Vec::new();
    let v = dfs(0, &gpus, 10, 1, DpState::new(), &mut path, &mut best);
    assert_eq!(v, 2);
    assert_eq!(path, vec![Decision::Skip]);
    assert_eq!(best, vec![Decision::Skip, Decision::StartNew, Decision::Extend(0)]);
}

#[test]
fn normalize_sorts_residuals() {
    let mut s = DpState { r: vec![3, 1, 2, 1], f: 2 };
    s.normalize();
    assert_eq!(s.r, vec![1, 1, 2, 3]);
    assert_eq!(s.f, 2);
    let fresh = DpState::new();
    assert!(fresh.r.is_empty());
    assert_eq!(fresh.f, 0);
}

#[test]
fn reconstruct_follows_sorted_residuals() {
    // Pipeline 0 is left 4 layers short, pipeline 1 six; sorted, index 1 is
    // pipeline 1, which then needs 3 and becomes index 0.
    let gpus = vec![gpu(6, 1), gpu(4, 1), gpu(3, 1), gpu(5, 1)];
    let trace = vec![Decision::StartNew, Decision::StartNew, Decision::Extend(1), Decision::Extend(0)];
    let pipes = reconstruct(trace, &gpus, 10);
    assert_eq!(pipes, vec![vec![gpu(6, 1)], vec![gpu(4, 1), gpu(3, 1), gpu(5, 1)]]);
}

#[test]
fn reconstruct_ignores_unknown_index() {
    let gpus = vec![gpu(6, 1), gpu(4, 1)];
    let pipes = reconstruct(vec![Decision::StartNew, Decision::Extend(3)], &gpus, 10);
    assert_eq!(pipes, vec![vec![gpu(6, 1)]]);
}

#[test]
fn build_plan_omits_short_pipelines() {
    let gpus = vec![gpu(6, 1), gpu(4, 1)];
    let plan = build_plan(&gpus, 10, vec![Decision::StartNew, Decision::StartNew]);
    assert!(plan.is_empty());
}

#[test]
fn plan_is_deterministic() {
    let gpus = vec![gpu(6, 1), gpu(6, 2), gpu(6, 3), gpu(6, 2), gpu(6, 1)];
    let run = || {
        let sorted = sort_gpus(&gpus);
        let cands = feasible_candidates(&sorted, 10);
        let best = pick(&cands, 1.0, 10.0, 1.0).unwrap();
        build_plan(&sorted, 10, best.trace.clone())
    };
    assert_eq!(run(), run());
}

#[test]
fn plan_covers_every_layer() {
    let gpus = vec![gpu(4, 3), gpu(3, 1), gpu(5, 2), gpu(2, 2), gpu(6, 1)];
    let sorted = sort_gpus(&gpus);
    for c in feasible_candidates(&sorted, 7) {
        let plan = build_plan(&sorted, 7, c.trace.clone());
        let total: usize = plan.iter().map(|p| p.len()).sum();
        assert_eq!(total, c.stages);
        for p in &plan {
            assert_eq!(p[0].lo, 0);
            assert_eq!(p[p.len() - 1].hi, 7);
            for w in p.windows(2) {
                assert_eq!(w[0].hi, w[1].lo);
            }
            for s in p {
                assert!(s.hi - s.lo <= s.gpu.layer_cap);
            }
        }
    }
}

#[test]
fn water_fill_largest_sizes() {
    assert_eq!(water_fill(usize::MAX, &[usize::MAX], &[usize::MAX]), Some(vec![usize::MAX]));
    assert_eq!(
        water_fill(usize::MAX, &[usize::MAX, usize::MAX], &[usize::MAX, usize::MAX]),
        Some(vec![usize::MAX / 2 + 1, usize::MAX / 2])
    );
}

#[test]
fn replica_ceiling_does_not_overflow() {
    let gpus = vec![gpu(usize::MAX, 1), gpu(usize::MAX, 1), gpu(usize::MAX, 1)];
    assert_eq!(max_replicas(&gpus, 1), 3);
    assert_eq!(max_replicas(&gpus, usize::MAX), 3);
    assert_eq!(max_replicas(&vec![gpu(4, 1), gpu(4, 1), gpu(3, 1)], 5), 2);
}

#[test]
fn stages_match_pipelines() {
    let gpus = sort_gpus(&vec![gpu(5, 2), gpu(3, 1), gpu(3, 1), gpu(2, 4), gpu(2, 1), gpu(1, 1)]);
    for k in 1..=max_replicas(&gpus, 5) {
        let (s, trace) = solve_for_k(&gpus, 5, k);
        if s == INF {
            continue;
        }
        let pipes = reconstruct(trace.clone(), &gpus, 5);
        assert_eq!(pipes.len(), k);
        assert_eq!(pipes.iter().map(|p| p.len()).sum::<usize>(), s);
        for p in &pipes {
            assert!(p.iter().map(|g| g.layer_cap).sum::<usize>() >= 5);
        }
        assert_eq!(build_plan(&gpus, 5, trace).len(), k);
    }
}
