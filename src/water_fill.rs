//! Phase-2: distributing a model's layers over the GPUs of one pipeline in
//! proportion to compute capacity, capped by layer capacity, with the
//! remainder handed out by largest fractional part (Hamilton's method).
//!
//! All shares are exact rationals `L * c_i / F`, kept as integer quotient
//! and remainder, so the allocation is the same on every machine.
use vstd::prelude::*;
use crate::sums::{sum, lemma_sum_prefix, lemma_sum_update, lemma_sum_le, lemma_sum_le_eq, lemma_sum_nonneg};

verus! {

/// Floor of the ideal share of stage `i`: `min(⌊L·cᵢ / F⌋, capᵢ)`, or 0
/// when the total compute `F` is 0.
pub open spec fn base_share(l: int, caps: Seq<usize>, comps: Seq<usize>, i: int) -> int {
    let f = sum(comps);
    if f == 0 {
        0
    } else if l * comps[i] / f < caps[i] {
        l * comps[i] / f
    } else {
        caps[i] as int
    }
}

/// Numerator (over `F`) of the fractional part of stage `i`'s ideal share;
/// 0 when the share is clamped to the cap or `F` is 0.
pub open spec fn frac_key(l: int, caps: Seq<usize>, comps: Seq<usize>, i: int) -> int {
    let f = sum(comps);
    if f == 0 || l * comps[i] / f >= caps[i] {
        0
    } else {
        (l * comps[i]) % f
    }
}

/// Stage `a` is served before stage `b` when handing out the remainder:
/// larger fractional part first, lower index on a tie.
pub open spec fn goes_before(l: int, caps: Seq<usize>, comps: Seq<usize>, a: int, b: int) -> bool {
    frac_key(l, caps, comps, a) > frac_key(l, caps, comps, b) || (frac_key(l, caps, comps, a)
        == frac_key(l, caps, comps, b) && a < b)
}

/// How many of the stages `0..m` go before stage `i`.
pub open spec fn count_before(l: int, caps: Seq<usize>, comps: Seq<usize>, i: int, m: int) -> nat
    decreases m,
{
    if m <= 0 {
        0
    } else {
        count_before(l, caps, comps, i, m - 1) + if goes_before(l, caps, comps, m - 1, i) {
            1nat
        } else {
            0nat
        }
    }
}

/// Position of stage `i` in the remainder order.
pub open spec fn rank(l: int, caps: Seq<usize>, comps: Seq<usize>, i: int) -> nat {
    count_before(l, caps, comps, i, caps.len() as int)
}

/// The allocation of stage `i` after `m` full rounds of the remainder order
/// and the first `p` positions of one more round, each step skipping a
/// stage that is already at its cap.
pub open spec fn level(l: int, caps: Seq<usize>, comps: Seq<usize>, m: int, p: int, i: int) -> int {
    let want = base_share(l, caps, comps, i) + m + if rank(l, caps, comps, i) < p {
        1int
    } else {
        0int
    };
    if want < caps[i] {
        want
    } else {
        caps[i] as int
    }
}

/// `a` is the water-filled allocation of `l` layers over stages with the
/// given layer and compute capacities: it places every layer, respects the
/// caps, and is the state of the remainder rounds at the moment the last
/// layer is placed.
pub open spec fn is_fill(l: int, caps: Seq<usize>, comps: Seq<usize>, a: Seq<usize>) -> bool {
    &&& a.len() == caps.len()
    &&& sum(a) == l
    &&& forall|i: int| 0 <= i < a.len() ==> a[i] <= caps[i]
    &&& exists|m: int, p: int|
        0 <= m && 0 <= p <= caps.len() && #[trigger] is_level(l, caps, comps, m, p, a)
}

/// `a` agrees with `level(.., m, p, ..)` at every stage.
pub open spec fn is_level(l: int, caps: Seq<usize>, comps: Seq<usize>, m: int, p: int, a: Seq<usize>) -> bool {
    forall|i: int| 0 <= i < a.len() ==> a[i] == level(l, caps, comps, m, p, i)
}

proof fn lemma_count_before_le(l: int, caps: Seq<usize>, comps: Seq<usize>, a: int, b: int, m: int)
    requires
        goes_before(l, caps, comps, a, b),
    ensures
        count_before(l, caps, comps, a, m) <= count_before(l, caps, comps, b, m),
    decreases m,
{
    if m > 0 {
        lemma_count_before_le(l, caps, comps, a, b, m - 1);
    }
}

proof fn lemma_count_before_lt(l: int, caps: Seq<usize>, comps: Seq<usize>, a: int, b: int, m: int)
    requires
        goes_before(l, caps, comps, a, b),
        0 <= a < m,
    ensures
        count_before(l, caps, comps, a, m) < count_before(l, caps, comps, b, m),
    decreases m,
{
    if m - 1 == a {
        lemma_count_before_le(l, caps, comps, a, b, m - 1);
    } else {
        lemma_count_before_lt(l, caps, comps, a, b, m - 1);
    }
}

proof fn lemma_count_before_bound(l: int, caps: Seq<usize>, comps: Seq<usize>, i: int, m: int)
    requires
        0 <= i < m,
    ensures
        count_before(l, caps, comps, i, m) < m,
    decreases m,
{
    if m - 1 > i {
        lemma_count_before_bound(l, caps, comps, i, m - 1);
    } else {
        assert(count_before(l, caps, comps, i, m - 1) <= m - 1) by {
            lemma_count_before_le_m(l, caps, comps, i, m - 1);
        }
    }
}

proof fn lemma_count_before_le_m(l: int, caps: Seq<usize>, comps: Seq<usize>, i: int, m: int)
    ensures
        count_before(l, caps, comps, i, m) <= if m < 0 { 0 } else { m },
    decreases m,
{
    if m > 0 {
        lemma_count_before_le_m(l, caps, comps, i, m - 1);
    }
}

/// Ranks are a permutation of `0..n`: each is below `n` and no two agree.
proof fn lemma_rank(l: int, caps: Seq<usize>, comps: Seq<usize>)
    ensures
        forall|i: int| 0 <= i < caps.len() ==> rank(l, caps, comps, i) < caps.len(),
        forall|i: int, j: int|
            0 <= i < caps.len() && 0 <= j < caps.len() && i != j ==> rank(l, caps, comps, i)
                != rank(l, caps, comps, j),
{
    let n = caps.len() as int;
    assert forall|i: int| 0 <= i < n implies rank(l, caps, comps, i) < n by {
        lemma_count_before_bound(l, caps, comps, i, n);
    }
    assert forall|i: int, j: int| 0 <= i < n && 0 <= j < n && i != j implies rank(l, caps, comps, i)
        != rank(l, caps, comps, j) by {
        if goes_before(l, caps, comps, i, j) {
            lemma_count_before_lt(l, caps, comps, i, j, n);
        } else {
            lemma_count_before_lt(l, caps, comps, j, i, n);
        }
    }
}

/// Sum of the floored shares of stages `0..m`.
spec fn base_total(l: int, caps: Seq<usize>, comps: Seq<usize>, m: int) -> int
    decreases m,
{
    if m <= 0 {
        0
    } else {
        base_total(l, caps, comps, m - 1) + base_share(l, caps, comps, m - 1)
    }
}

proof fn lemma_base_total(l: int, caps: Seq<usize>, comps: Seq<usize>, m: int)
    requires
        0 <= l,
        0 <= m <= comps.len(),
        sum(comps) > 0,
    ensures
        base_total(l, caps, comps, m) * sum(comps) <= l * sum(comps.subrange(0, m)),
    decreases m,
{
    let f = sum(comps);
    if m > 0 {
        lemma_base_total(l, caps, comps, m - 1);
        lemma_sum_prefix(comps, m - 1);
        let c = comps[m - 1] as int;
        let q = l * c / f;
        assert(q * f <= l * c) by {
            assert(l * c >= 0) by (nonlinear_arith)
                requires
                    l >= 0,
                    c >= 0,
            ;
            vstd::arithmetic::div_mod::lemma_fundamental_div_mod(l * c, f);
            vstd::arithmetic::div_mod::lemma_mod_bound(l * c, f);
            assert(q * f == f * q) by (nonlinear_arith);
        }
        let b = base_share(l, caps, comps, m - 1);
        assert(b <= q);
        assert(b * f <= q * f) by (nonlinear_arith)
            requires
                b <= q,
                f > 0,
        ;
        let bt = base_total(l, caps, comps, m - 1);
        let s = sum(comps.subrange(0, m - 1));
        assert((bt + b) * f == bt * f + b * f) by (nonlinear_arith);
        assert(l * (s + c) == l * s + l * c) by (nonlinear_arith);
    }
}

/// The floored shares never exceed the layers to place.
proof fn lemma_base_total_le(l: int, caps: Seq<usize>, comps: Seq<usize>)
    requires
        0 <= l,
    ensures
        base_total(l, caps, comps, comps.len() as int) <= l,
{
    let f = sum(comps);
    let n = comps.len() as int;
    if f == 0 {
        lemma_base_total_zero(l, caps, comps, n);
    } else {
        lemma_sum_nonneg(comps);
        lemma_base_total(l, caps, comps, n);
        assert(comps.subrange(0, n) =~= comps);
        let bt = base_total(l, caps, comps, n);
        assert(bt <= l) by (nonlinear_arith)
            requires
                bt * f <= l * f,
                f > 0,
        ;
    }
}

proof fn lemma_base_total_zero(l: int, caps: Seq<usize>, comps: Seq<usize>, m: int)
    requires
        sum(comps) == 0,
    ensures
        base_total(l, caps, comps, m) == 0,
    decreases m,
{
    if m > 0 {
        lemma_base_total_zero(l, caps, comps, m - 1);
    }
}

/// Distributes `model_layer` layers over the stages of one pipeline.
///
/// Each stage first gets the floor of its ideal share
/// `min(L·compute_capᵢ / F, layer_capᵢ)`; the layers left over go one at a
/// time to the stages in order of decreasing fractional part (lower index on
/// a tie), round after round, skipping stages at their cap. When the caps
/// together hold fewer than `model_layer` layers there is no allocation and
/// the result is `None`.
pub fn water_fill(model_layer: usize, layer_cap: &[usize], compute_cap: &[usize]) -> (res: Option<
    Vec<usize>,
>)
    requires
        layer_cap@.len() == compute_cap@.len(),
    ensures
        res is None <==> sum(layer_cap@) < model_layer,
        res matches Some(a) ==> is_fill(model_layer as int, layer_cap@, compute_cap@, a@),
{
    let ghost l = model_layer as int;
    let ghost caps = layer_cap@;
    let ghost comps = compute_cap@;
    let n = layer_cap.len();
    let big: u128 = usize::MAX as u128;

    // Total compute F.
    let mut total_f: u128 = 0;
    let mut j: usize = 0;
    while j < n
        invariant
            j <= n,
            n == comps.len(),
            comps == compute_cap@,
            total_f as int == sum(comps.subrange(0, j as int)),
            total_f as int <= j as int * (big as int),
            big == usize::MAX as u128,
        decreases n - j,
    {
        proof {
            lemma_sum_prefix(comps, j as int);
            assert(total_f as int + compute_cap@[j as int] <= (j as int + 1) * (big as int)) by (
            nonlinear_arith)
                requires
                    total_f as int <= j as int * (big as int),
                    compute_cap@[j as int] <= big,
            ;
            assert((j as int + 1) * (big as int) <= big * big) by (nonlinear_arith)
                requires
                    j as int + 1 <= big,
            ;
            assert(big * big <= u128::MAX) by (nonlinear_arith)
                requires
                    big <= 0xffff_ffff_ffff_ffffu128,
            ;
        }
        total_f = total_f + compute_cap[j] as u128;
        j = j + 1;
    }
    proof {
        assert(comps.subrange(0, n as int) =~= comps);
    }

    // Floored shares and fractional keys.
    let mut base: Vec<usize> = Vec::new();
    let mut keys: Vec<u128> = Vec::new();
    let mut base_sum: usize = 0;
    let mut i: usize = 0;
    proof {
        lemma_base_total_le(l, caps, comps);
    }
    while i < n
        invariant
            i <= n,
            n == caps.len(),
            n == comps.len(),
            caps == layer_cap@,
            comps == compute_cap@,
            l == model_layer,
            total_f == sum(comps),
            base@.len() == i,
            keys@.len() == i,
            forall|x: int| 0 <= x < i ==> base@[x] == base_share(l, caps, comps, x),
            forall|x: int| 0 <= x < i ==> keys@[x] == frac_key(l, caps, comps, x),
            base_sum == base_total(l, caps, comps, i as int),
            base_total(l, caps, comps, n as int) <= l,
            big == usize::MAX as u128,
        decreases n - i,
    {
        proof {
            assert((model_layer as int) * (compute_cap@[i as int] as int) <= big * big) by (
            nonlinear_arith)
                requires
                    model_layer <= big,
                    compute_cap@[i as int] <= big,
            ;
            assert(big * big <= u128::MAX) by (nonlinear_arith)
                requires
                    big <= 0xffff_ffff_ffff_ffffu128,
            ;
            lemma_base_total_mono(l, caps, comps, i as int + 1, n as int);
        }
        let lc: u128 = model_layer as u128 * compute_cap[i] as u128;
        let mut b: usize = 0;
        let mut key: u128 = 0;
        if total_f != 0 {
            let q = lc / total_f;
            if q < layer_cap[i] as u128 {
                b = q as usize;
                key = lc % total_f;
            } else {
                b = layer_cap[i];
            }
        }
        base.push(b);
        keys.push(key);
        base_sum = base_sum + b;
        i = i + 1;
    }

    // Position of each stage in the remainder order.
    let mut ranks: Vec<usize> = Vec::new();
    let mut i: usize = 0;
    while i < n
        invariant
            i <= n,
            n == caps.len(),
            keys@.len() == n,
            forall|x: int| 0 <= x < n ==> keys@[x] == frac_key(l, caps, comps, x),
            ranks@.len() == i,
            forall|x: int| 0 <= x < i ==> ranks@[x] == rank(l, caps, comps, x),
        decreases n - i,
    {
        let mut cnt: usize = 0;
        let mut j: usize = 0;
        while j < n
            invariant
                j <= n,
                i < n,
                n == caps.len(),
                keys@.len() == n,
                forall|x: int| 0 <= x < n ==> keys@[x] == frac_key(l, caps, comps, x),
                cnt == count_before(l, caps, comps, i as int, j as int),
                cnt <= j,
            decreases n - j,
        {
            if keys[j] > keys[i] || (keys[j] == keys[i] && j < i) {
                cnt = cnt + 1;
            }
            j = j + 1;
        }
        ranks.push(cnt);
        i = i + 1;
    }
    proof {
        lemma_rank(l, caps, comps);
    }

    // Hand out the remainder, round after round.
    let mut alloc = base;
    let mut remaining: usize = model_layer - base_sum;
    let ghost mut m: int = 0;
    let ghost mut p_end: int = 0;
    proof {
        assert forall|x: int| 0 <= x < n implies alloc@[x] == level(l, caps, comps, 0, 0, x) by {}
        lemma_sum_base(l, caps, comps, alloc@);
    }
    loop
        invariant_except_break
            is_level(l, caps, comps, m, 0, alloc@),
            remaining == l - sum(alloc@),
        invariant
            n == caps.len(),
            n == comps.len(),
            caps == layer_cap@,
            l == model_layer,
            ranks@.len() == n,
            forall|x: int| 0 <= x < n ==> ranks@[x] == rank(l, caps, comps, x),
            forall|x: int| 0 <= x < n ==> rank(l, caps, comps, x) < n,
            forall|x: int, y: int|
                0 <= x < n && 0 <= y < n && x != y ==> rank(l, caps, comps, x) != rank(
                    l,
                    caps,
                    comps,
                    y,
                ),
            alloc@.len() == n,
            0 <= m,
        ensures
            alloc@.len() == n,
            0 <= m,
            0 <= p_end <= n,
            is_level(l, caps, comps, m, p_end, alloc@),
            sum(alloc@) == l,
        decreases remaining,
    {
        if remaining == 0 {
            proof {
                p_end = 0;
            }
            break ;
        }
        let ghost start = remaining;
        let mut progress = false;
        let mut p: usize = 0;
        while p < n && remaining > 0
            invariant
                p <= n,
                n == caps.len(),
                caps == layer_cap@,
                ranks@.len() == n,
                forall|x: int| 0 <= x < n ==> ranks@[x] == rank(l, caps, comps, x),
                forall|x: int, y: int|
                    0 <= x < n && 0 <= y < n && x != y ==> rank(l, caps, comps, x) != rank(
                        l,
                        caps,
                        comps,
                        y,
                    ),
                alloc@.len() == n,
                0 <= m,
                is_level(l, caps, comps, m, p as int, alloc@),
                remaining == l - sum(alloc@),
                remaining <= start,
                progress ==> remaining < start,
                !progress ==> remaining == start,
                !progress ==> forall|x: int|
                    0 <= x < n && rank(l, caps, comps, x) < p ==> alloc@[x] == caps[x],
            decreases n - p,
        {
            let mut i: usize = 0;
            while i < n && ranks[i] != p
                invariant
                    i <= n,
                    ranks@.len() == n,
                    forall|x: int| 0 <= x < i ==> ranks@[x] != p,
                decreases n - i,
            {
                i = i + 1;
            }
            let ghost before = alloc@;
            if i < n && alloc[i] < layer_cap[i] {
                proof {
                    lemma_sum_update(alloc@, i as int, (alloc@[i as int] + 1) as usize);
                }
                alloc.set(i, alloc[i] + 1);
                remaining = remaining - 1;
                progress = true;
            }
            proof {
                assert forall|x: int| 0 <= x < n implies alloc@[x] == level(
                    l,
                    caps,
                    comps,
                    m,
                    p as int + 1,
                    x,
                ) by {
                    assert(before[x] == level(l, caps, comps, m, p as int, x));
                    if x != i {
                        if i < n {
                            assert(ranks@[i as int] == p);
                            assert(rank(l, caps, comps, i as int) != rank(l, caps, comps, x));
                        } else {
                            assert(ranks@[x] != p);
                        }
                        assert(rank(l, caps, comps, x) != p);
                    }
                }
            }
            p = p + 1;
        }
        if remaining == 0 {
            proof {
                p_end = p as int;
            }
            break ;
        }
        if !progress {
            proof {
                assert(alloc@ =~= caps);
            }
            return None;
        }
        proof {
            assert forall|x: int| 0 <= x < n implies alloc@[x] == level(l, caps, comps, m + 1, 0, x) by {
                assert(alloc@[x] == level(l, caps, comps, m, n as int, x));
            }
            m = m + 1;
        }
    }
    proof {
        assert forall|x: int| 0 <= x < n implies alloc@[x] <= caps[x] by {
            assert(alloc@[x] == level(l, caps, comps, m, p_end, x));
        }
        lemma_sum_le(alloc@, caps);
        assert(is_level(l, caps, comps, m, p_end, alloc@));
    }
    Some(alloc)
}

proof fn lemma_base_total_mono(l: int, caps: Seq<usize>, comps: Seq<usize>, a: int, b: int)
    requires
        0 <= a <= b <= caps.len(),
        caps.len() == comps.len(),
        0 <= l,
    ensures
        base_total(l, caps, comps, a) <= base_total(l, caps, comps, b),
    decreases b - a,
{
    if a < b {
        lemma_base_total_mono(l, caps, comps, a, b - 1);
        lemma_base_share_nonneg(l, caps, comps, b - 1);
    }
}

proof fn lemma_base_share_nonneg(l: int, caps: Seq<usize>, comps: Seq<usize>, i: int)
    requires
        0 <= i < caps.len(),
        i < comps.len(),
        0 <= l,
    ensures
        base_share(l, caps, comps, i) >= 0,
{
    let f = sum(comps);
    if f != 0 {
        lemma_sum_nonneg(comps);
        assert(l * comps[i] >= 0) by (nonlinear_arith)
            requires
                l >= 0,
                comps[i] >= 0,
        ;
        vstd::arithmetic::div_mod::lemma_div_pos_is_pos(l * comps[i], f);
    }
}

/// A sequence of the floored shares sums to their total.
proof fn lemma_sum_base(l: int, caps: Seq<usize>, comps: Seq<usize>, a: Seq<usize>)
    requires
        a.len() <= caps.len(),
        forall|x: int| 0 <= x < a.len() ==> a[x] == base_share(l, caps, comps, x),
    ensures
        sum(a) == base_total(l, caps, comps, a.len() as int),
    decreases a.len(),
{
    if a.len() > 0 {
        lemma_sum_base(l, caps, comps, a.drop_last());
    }
}

proof fn lemma_level_mono(
    l: int,
    caps: Seq<usize>,
    comps: Seq<usize>,
    ma: int,
    pa: int,
    mb: int,
    pb: int,
    i: int,
)
    requires
        ma < mb || (ma == mb && pa <= pb),
    ensures
        level(l, caps, comps, ma, pa, i) <= level(l, caps, comps, mb, pb, i),
{
}

/// The water-filled allocation is unique: at most one allocation meets
/// `is_fill` for given layers and capacities.
pub proof fn lemma_fill_unique(l: int, caps: Seq<usize>, comps: Seq<usize>, a: Seq<usize>, b: Seq<usize>)
    requires
        is_fill(l, caps, comps, a),
        is_fill(l, caps, comps, b),
    ensures
        a == b,
{
    let (ma, pa) = choose|m: int, p: int|
        0 <= m && 0 <= p <= caps.len() && #[trigger] is_level(l, caps, comps, m, p, a);
    let (mb, pb) = choose|m: int, p: int|
        0 <= m && 0 <= p <= caps.len() && #[trigger] is_level(l, caps, comps, m, p, b);
    if ma < mb || (ma == mb && pa <= pb) {
        assert forall|i: int| 0 <= i < a.len() implies a[i] <= b[i] by {
            lemma_level_mono(l, caps, comps, ma, pa, mb, pb, i);
        }
        lemma_sum_le_eq(a, b);
    } else {
        assert forall|i: int| 0 <= i < b.len() implies b[i] <= a[i] by {
            lemma_level_mono(l, caps, comps, mb, pb, ma, pa, i);
        }
        lemma_sum_le_eq(b, a);
    }
}

} // verus!
