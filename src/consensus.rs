use vstd::prelude::*;
use crate::correlate::{Candidate, CorrelationConfig, Frame, flatten_frames, frames_of, is_component_labeling, label_components};
use crate::fingerprint::{hamming, hamming_distance};

verus! {

/// Frame `i` belongs to the component labelled `c`.
pub open spec fn member(label: Seq<usize>, c: int, i: int) -> bool {
    label[i] as int == c
}

/// How many of the first `m` frames belong to component `c`.
pub open spec fn member_count(label: Seq<usize>, c: int, m: int) -> int
    decreases m,
{
    if m <= 0 {
        0
    } else {
        member_count(label, c, m - 1) + (if member(label, c, m - 1) { 1int } else { 0int })
    }
}

/// Some frame of component `c` comes from episode `e`.
pub open spec fn touches(fs: Seq<Frame>, label: Seq<usize>, c: int, e: int) -> bool {
    exists|i: int| 0 <= i < fs.len() && member(label, c, i) && fs[i].episode as int == e
}

/// How many of the episodes `0..m` component `c` touches.
pub open spec fn support_count(fs: Seq<Frame>, label: Seq<usize>, c: int, m: int) -> int
    decreases m,
{
    if m <= 0 {
        0
    } else {
        support_count(fs, label, c, m - 1) + (if touches(fs, label, c, m - 1) { 1int } else { 0int })
    }
}

/// How many of the episodes `0..m` produced at least one candidate.
pub open spec fn active_count(eps: Seq<Vec<Candidate>>, m: int) -> int
    decreases m,
{
    if m <= 0 {
        0
    } else {
        active_count(eps, m - 1) + (if eps[m - 1]@.len() > 0 { 1int } else { 0int })
    }
}

/// The quorum: the smallest count of episodes above half of those that
/// produced candidates.
pub open spec fn quorum(active: int) -> int {
    active / 2 + 1
}

/// Sum of the Hamming distances from frame `i` to the other frames of
/// component `c` among the first `m`.
pub open spec fn distance_row(fs: Seq<Frame>, label: Seq<usize>, c: int, i: int, m: int) -> int
    decreases m,
{
    if m <= 0 {
        0
    } else {
        distance_row(fs, label, c, i, m - 1) + (if member(label, c, m - 1) && m - 1 != i {
            hamming(fs[i].hash, fs[m - 1].hash) as int
        } else {
            0int
        })
    }
}

/// Sum of the Hamming distances over the ordered pairs of distinct frames of
/// component `c`, the first frame among the first `m`.
pub open spec fn distance_total(fs: Seq<Frame>, label: Seq<usize>, c: int, m: int) -> int
    decreases m,
{
    if m <= 0 {
        0
    } else {
        distance_total(fs, label, c, m - 1) + (if member(label, c, m - 1) {
            distance_row(fs, label, c, m - 1, fs.len() as int)
        } else {
            0int
        })
    }
}

/// Sum of the times of the frames of component `c` among the first `m`.
pub open spec fn time_total(fs: Seq<Frame>, label: Seq<usize>, c: int, m: int) -> int
    decreases m,
{
    if m <= 0 {
        0
    } else {
        time_total(fs, label, c, m - 1) + (if member(label, c, m - 1) { fs[m - 1].time_ms as int } else { 0int })
    }
}

/// `a / max(b, 1)` is below `x / max(y, 1)`, compared without division.
pub open spec fn ratio_below(a: int, b: int, x: int, y: int) -> bool {
    a * (if y > 0 { y } else { 1 }) < x * (if b > 0 { b } else { 1 })
}

/// `a / max(b, 1)` equals `x / max(y, 1)`.
pub open spec fn ratio_equal(a: int, b: int, x: int, y: int) -> bool {
    a * (if y > 0 { y } else { 1 }) == x * (if b > 0 { b } else { 1 })
}

/// The ranking key of component `c`: the episodes it touches, the sum and
/// the count of its pairwise distances, the sum and the count of its times.
pub open spec fn rank_key(fs: Seq<Frame>, label: Seq<usize>, c: int, m: int) -> (int, int, int, int, int) {
    let k = member_count(label, c, fs.len() as int);
    (support_count(fs, label, c, m), distance_total(fs, label, c, fs.len() as int), k * (k - 1),
        time_total(fs, label, c, fs.len() as int), k)
}

/// Component `a` ranks above component `b`: it touches more episodes; or as
/// many, with a lower average pairwise distance; or both equal, with an
/// earlier average time.
pub open spec fn ranks_above(fs: Seq<Frame>, label: Seq<usize>, m: int, a: int, b: int) -> bool {
    let ka = rank_key(fs, label, a, m);
    let kb = rank_key(fs, label, b, m);
    ||| ka.0 > kb.0
    ||| ka.0 == kb.0 && ratio_below(ka.1, ka.2, kb.1, kb.2)
    ||| ka.0 == kb.0 && ratio_equal(ka.1, ka.2, kb.1, kb.2) && ratio_below(ka.3, ka.4, kb.3, kb.4)
}

/// Frame `c` names a component (it labels itself).
pub open spec fn is_root(label: Seq<usize>, c: int) -> bool {
    0 <= c < label.len() && label[c] as int == c
}

/// The earliest time among the first `m` frames of component `c`
/// (`u64::MAX` where it has none).
pub open spec fn min_time(fs: Seq<Frame>, label: Seq<usize>, c: int, m: int) -> int
    decreases m,
{
    if m <= 0 {
        u64::MAX as int
    } else {
        let p = min_time(fs, label, c, m - 1);
        if member(label, c, m - 1) && (fs[m - 1].time_ms as int) < p {
            fs[m - 1].time_ms as int
        } else {
            p
        }
    }
}

/// The latest time among the first `m` frames of component `c` (0 where it
/// has none).
pub open spec fn max_time(fs: Seq<Frame>, label: Seq<usize>, c: int, m: int) -> int
    decreases m,
{
    if m <= 0 {
        0
    } else {
        let p = max_time(fs, label, c, m - 1);
        if member(label, c, m - 1) && (fs[m - 1].time_ms as int) > p {
            fs[m - 1].time_ms as int
        } else {
            p
        }
    }
}

/// The largest number of frames that one correlation takes: with it the
/// ranking's cross-multiplied sums fit in 128 bits.
pub const MAX_FRAMES: usize = 1048576;

/// What is known of one component, each field the value of its spec function.
#[derive(Clone, Copy, Debug)]
pub struct ComponentStats {
    pub support: usize,
    pub distance_sum: u128,
    pub pairs: u128,
    pub time_sum: u128,
    pub members: u128,
    pub earliest: u64,
    pub latest: u64,
}

/// `stats` holds the statistics of component `c`.
pub open spec fn stats_of(fs: Seq<Frame>, label: Seq<usize>, c: int, m: int, stats: ComponentStats) -> bool {
    let key = rank_key(fs, label, c, m);
    &&& stats.support as int == key.0
    &&& stats.distance_sum as int == key.1
    &&& stats.pairs as int == key.2
    &&& stats.time_sum as int == key.3
    &&& stats.members as int == key.4
    &&& stats.earliest as int == min_time(fs, label, c, fs.len() as int)
    &&& stats.latest as int == max_time(fs, label, c, fs.len() as int)
    &&& stats.distance_sum <= 64 * MAX_FRAMES * MAX_FRAMES
    &&& stats.pairs <= MAX_FRAMES * MAX_FRAMES
    &&& stats.members <= MAX_FRAMES
    &&& stats.time_sum <= MAX_FRAMES * 0x1_0000_0000_0000_0000
}

proof fn lemma_member_count_bound(label: Seq<usize>, c: int, m: int)
    requires
        0 <= m,
    ensures
        0 <= member_count(label, c, m) <= m,
    decreases m,
{
    if m > 0 {
        lemma_member_count_bound(label, c, m - 1);
    }
}

/// Gathers the statistics of component `c`.
pub fn component_stats(fs: &Vec<Frame>, label: &Vec<usize>, c: usize, m: usize) -> (r: ComponentStats)
    requires
        fs@.len() <= MAX_FRAMES,
        label@.len() == fs@.len(),
    ensures
        stats_of(fs@, label@, c as int, m as int, r),
{
    let n = fs.len();
    let mut members: u128 = 0;
    let mut time_sum: u128 = 0;
    let mut distance_sum: u128 = 0;
    let mut earliest: u64 = u64::MAX;
    let mut latest: u64 = 0;
    let mut i: usize = 0;
    while i < n
        invariant
            n == fs@.len(),
            n <= MAX_FRAMES,
            label@.len() == n,
            i <= n,
            members as int == member_count(label@, c as int, i as int),
            members <= i,
            time_sum as int == time_total(fs@, label@, c as int, i as int),
            time_sum <= i * 0x1_0000_0000_0000_0000,
            distance_sum as int == distance_total(fs@, label@, c as int, i as int),
            distance_sum <= 64 * n * i,
            earliest as int == min_time(fs@, label@, c as int, i as int),
            latest as int == max_time(fs@, label@, c as int, i as int),
        decreases n - i,
    {
        if label[i] == c {
            members = members + 1;
            assert(time_sum + fs@[i as int].time_ms <= (i + 1) * 0x1_0000_0000_0000_0000 && (i + 1) * 0x1_0000_0000_0000_0000 <= MAX_FRAMES * 0x1_0000_0000_0000_0000) by (nonlinear_arith)
                requires time_sum <= i * 0x1_0000_0000_0000_0000, fs[i as int].time_ms < 0x1_0000_0000_0000_0000, i < n, n <= MAX_FRAMES;
            time_sum = time_sum + fs[i].time_ms as u128;
            if fs[i].time_ms < earliest {
                earliest = fs[i].time_ms;
            }
            if fs[i].time_ms > latest {
                latest = fs[i].time_ms;
            }
            let mut row: u128 = 0;
            let mut j: usize = 0;
            while j < n
                invariant
                    n == fs@.len(),
                    label@.len() == n,
                    i < n,
                    j <= n,
                    row as int == distance_row(fs@, label@, c as int, i as int, j as int),
                    row <= 64 * j,
                decreases n - j,
            {
                if label[j] == c && j != i {
                    let d = hamming_distance(fs[i].hash, fs[j].hash);
                    row = row + d as u128;
                }
                j = j + 1;
            }
            assert(distance_sum + row <= 64 * n * (i + 1) && 64 * n * (i + 1) <= 64 * MAX_FRAMES * MAX_FRAMES) by (nonlinear_arith)
                requires distance_sum <= 64 * n * i, row <= 64 * n, i < n, n <= MAX_FRAMES;
            distance_sum = distance_sum + row;
        }
        assert(distance_sum <= 64 * n * (i + 1) && time_sum <= (i + 1) * 0x1_0000_0000_0000_0000) by (nonlinear_arith)
            requires distance_sum <= 64 * n * (i + 1) || distance_sum <= 64 * n * i, time_sum <= (i + 1) * 0x1_0000_0000_0000_0000 || time_sum <= i * 0x1_0000_0000_0000_0000;
        i = i + 1;
    }
    proof {
        lemma_member_count_bound(label@, c as int, n as int);
        assert(distance_sum <= 64 * MAX_FRAMES * MAX_FRAMES) by (nonlinear_arith)
            requires distance_sum <= 64 * n * n, n <= MAX_FRAMES;
        assert(time_sum <= MAX_FRAMES * 0x1_0000_0000_0000_0000) by (nonlinear_arith)
            requires time_sum <= n * 0x1_0000_0000_0000_0000, n <= MAX_FRAMES;
    }
    let mut pairs: u128 = 0;
    if members > 0 {
        assert(members * (members - 1) <= MAX_FRAMES * MAX_FRAMES) by (nonlinear_arith)
            requires members <= MAX_FRAMES, members > 0;
        pairs = members * (members - 1);
    } else {
        assert(members * (members - 1) == 0) by (nonlinear_arith)
            requires members == 0;
    }
    let support = count_support(fs, label, c, m);
    ComponentStats { support, distance_sum, pairs, time_sum, members, earliest, latest }
}

/// Counts the episodes among `0..m` that component `c` touches.
pub fn count_support(fs: &Vec<Frame>, label: &Vec<usize>, c: usize, m: usize) -> (r: usize)
    requires
        label@.len() == fs@.len(),
    ensures
        r as int == support_count(fs@, label@, c as int, m as int),
{
    let n = fs.len();
    let mut count: usize = 0;
    let mut e: usize = 0;
    while e < m
        invariant
            n == fs@.len(),
            label@.len() == n,
            e <= m,
            count <= e,
            count as int == support_count(fs@, label@, c as int, e as int),
        decreases m - e,
    {
        let mut found = false;
        let mut i: usize = 0;
        while i < n
            invariant
                n == fs@.len(),
                label@.len() == n,
                i <= n,
                found == exists|k: int| 0 <= k < i && member(label@, c as int, k) && fs@[k].episode as int == e,
            decreases n - i,
        {
            if label[i] == c && fs[i].episode == e {
                found = true;
                assert(member(label@, c as int, i as int) && fs@[i as int].episode as int == e);
            }
            i = i + 1;
        }
        proof {
            assert(found == touches(fs@, label@, c as int, e as int));
        }
        if found {
            count = count + 1;
        }
        e = e + 1;
    }
    count
}

/// Counts the episodes that produced at least one candidate.
pub fn count_active(eps: &Vec<Vec<Candidate>>) -> (r: usize)
    ensures
        r as int == active_count(eps@, eps@.len() as int),
        r <= eps@.len(),
{
    let mut count: usize = 0;
    let mut e: usize = 0;
    while e < eps.len()
        invariant
            e <= eps@.len(),
            count <= e,
            count as int == active_count(eps@, e as int),
        decreases eps@.len() - e,
    {
        if eps[e].len() > 0 {
            count = count + 1;
        }
        e = e + 1;
    }
    count
}

/// A denominator made positive: `max(b, 1)`.
pub open spec fn den(b: int) -> int {
    if b > 0 {
        b
    } else {
        1
    }
}

proof fn lemma_ratio_chain(a: int, b: int, x: int, y: int, p: int, q: int)
    requires
        b > 0,
        y > 0,
        q > 0,
    ensures
        a * y < x * b && x * q < p * y ==> a * q < p * b,
        a * y < x * b && x * q == p * y ==> a * q < p * b,
        a * y == x * b && x * q < p * y ==> a * q < p * b,
        a * y == x * b && x * q == p * y ==> a * q == p * b,
{
    if a * y < x * b && x * q < p * y {
        assert(a * q < p * b) by (nonlinear_arith)
            requires a * y < x * b, x * q < p * y, b > 0, y > 0, q > 0;
    }
    if a * y < x * b && x * q == p * y {
        assert(a * q < p * b) by (nonlinear_arith)
            requires a * y < x * b, x * q == p * y, b > 0, y > 0, q > 0;
    }
    if a * y == x * b && x * q < p * y {
        assert(a * q < p * b) by (nonlinear_arith)
            requires a * y == x * b, x * q < p * y, b > 0, y > 0, q > 0;
    }
    if a * y == x * b && x * q == p * y {
        assert(a * q == p * b) by (nonlinear_arith)
            requires a * y == x * b, x * q == p * y, b > 0, y > 0, q > 0;
    }
}

/// The ranking of components is transitive.
pub proof fn lemma_ranks_above_transitive(fs: Seq<Frame>, label: Seq<usize>, m: int, a: int, b: int, c: int)
    requires
        ranks_above(fs, label, m, a, b),
        ranks_above(fs, label, m, b, c),
    ensures
        ranks_above(fs, label, m, a, c),
{
    let ka = rank_key(fs, label, a, m);
    let kb = rank_key(fs, label, b, m);
    let kc = rank_key(fs, label, c, m);
    lemma_ratio_chain(ka.1, den(ka.2), kb.1, den(kb.2), kc.1, den(kc.2));
    lemma_ratio_chain(ka.3, den(ka.4), kb.3, den(kb.4), kc.3, den(kc.4));
}

/// Decides `ranks_above` from the two components' statistics.
pub fn stats_rank_above(a: &ComponentStats, b: &ComponentStats) -> (r: bool)
    requires
        a.distance_sum <= 64 * MAX_FRAMES * MAX_FRAMES,
        a.pairs <= MAX_FRAMES * MAX_FRAMES,
        a.members <= MAX_FRAMES,
        a.time_sum <= MAX_FRAMES * 0x1_0000_0000_0000_0000,
        b.distance_sum <= 64 * MAX_FRAMES * MAX_FRAMES,
        b.pairs <= MAX_FRAMES * MAX_FRAMES,
        b.members <= MAX_FRAMES,
        b.time_sum <= MAX_FRAMES * 0x1_0000_0000_0000_0000,
    ensures
        r == ({
            ||| a.support > b.support
            ||| a.support == b.support && ratio_below(a.distance_sum as int, a.pairs as int, b.distance_sum as int, b.pairs as int)
            ||| a.support == b.support && ratio_equal(a.distance_sum as int, a.pairs as int, b.distance_sum as int, b.pairs as int)
                && ratio_below(a.time_sum as int, a.members as int, b.time_sum as int, b.members as int)
        }),
{
    if a.support != b.support {
        return a.support > b.support;
    }
    let pa: u128 = if a.pairs > 0 { a.pairs } else { 1 };
    let pb: u128 = if b.pairs > 0 { b.pairs } else { 1 };
    let ma: u128 = if a.members > 0 { a.members } else { 1 };
    let mb: u128 = if b.members > 0 { b.members } else { 1 };
    assert(a.distance_sum * pb <= 64 * MAX_FRAMES * MAX_FRAMES * (MAX_FRAMES * MAX_FRAMES)) by (nonlinear_arith)
        requires a.distance_sum <= 64 * MAX_FRAMES * MAX_FRAMES, pb <= MAX_FRAMES * MAX_FRAMES;
    assert(b.distance_sum * pa <= 64 * MAX_FRAMES * MAX_FRAMES * (MAX_FRAMES * MAX_FRAMES)) by (nonlinear_arith)
        requires b.distance_sum <= 64 * MAX_FRAMES * MAX_FRAMES, pa <= MAX_FRAMES * MAX_FRAMES;
    assert(a.time_sum * mb <= MAX_FRAMES * 0x1_0000_0000_0000_0000 * MAX_FRAMES) by (nonlinear_arith)
        requires a.time_sum <= MAX_FRAMES * 0x1_0000_0000_0000_0000, mb <= MAX_FRAMES;
    assert(b.time_sum * ma <= MAX_FRAMES * 0x1_0000_0000_0000_0000 * MAX_FRAMES) by (nonlinear_arith)
        requires b.time_sum <= MAX_FRAMES * 0x1_0000_0000_0000_0000, ma <= MAX_FRAMES;
    let da = a.distance_sum * pb;
    let db = b.distance_sum * pa;
    if da != db {
        return da < db;
    }
    a.time_sum * mb < b.time_sum * ma
}

/// The outcome of a selection among the components of `label`: `None` when
/// no component touches `q` episodes, else a component that does and that
/// no component ranks above.
pub open spec fn best_of(fs: Seq<Frame>, label: Seq<usize>, m: int, q: int, r: Option<usize>) -> bool {
    match r {
        None => forall|c: int| #[trigger] is_root(label, c) ==> support_count(fs, label, c, m) < q,
        Some(b) => {
            &&& is_root(label, b as int)
            &&& support_count(fs, label, b as int, m) >= q
            &&& forall|c: int| #[trigger] is_root(label, c) ==> !ranks_above(fs, label, m, c, b as int)
        },
    }
}

/// Picks the best component that touches at least `q` of the episodes `0..m`.
pub fn best_component(fs: &Vec<Frame>, label: &Vec<usize>, m: usize, q: usize) -> (r: Option<(usize, ComponentStats)>)
    requires
        fs@.len() <= MAX_FRAMES,
        label@.len() == fs@.len(),
    ensures
        best_of(fs@, label@, m as int, q as int, match r { Some(p) => Some(p.0), None => None }),
        match r {
            Some(p) => stats_of(fs@, label@, p.0 as int, m as int, p.1),
            None => true,
        },
{
    let n = fs.len();
    let mut best: Option<(usize, ComponentStats)> = None;
    let mut c: usize = 0;
    while c < n
        invariant
            n == fs@.len(),
            n <= MAX_FRAMES,
            label@.len() == n,
            c <= n,
            match best {
                None => forall|d: int| 0 <= d < c && #[trigger] is_root(label@, d) ==> support_count(fs@, label@, d, m as int) < q,
                Some(p) => {
                    &&& is_root(label@, p.0 as int)
                    &&& support_count(fs@, label@, p.0 as int, m as int) >= q
                    &&& stats_of(fs@, label@, p.0 as int, m as int, p.1)
                    &&& forall|d: int| 0 <= d < c && #[trigger] is_root(label@, d) ==> !ranks_above(fs@, label@, m as int, d, p.0 as int)
                },
            },
        decreases n - c,
    {
        if label[c] == c {
            let st = component_stats(fs, label, c, m);
            if st.support >= q {
                match best {
                    None => {
                        best = Some((c, st));
                    },
                    Some(p) => {
                        if stats_rank_above(&st, &p.1) {
                            proof {
                                assert forall|d: int| 0 <= d < c + 1 && #[trigger] is_root(label@, d) implies !ranks_above(fs@, label@, m as int, d, c as int) by {
                                    if d < c && ranks_above(fs@, label@, m as int, d, c as int) {
                                        lemma_ranks_above_transitive(fs@, label@, m as int, d, c as int, p.0 as int);
                                    }
                                }
                            }
                            best = Some((c, st));
                        }
                    },
                }
            }
        }
        c = c + 1;
    }
    proof {
        match best {
            None => {
                assert forall|d: int| #[trigger] is_root(label@, d) implies support_count(fs@, label@, d, m as int) < q by {
                    assert(0 <= d < c);
                }
            },
            Some(p) => {
                assert forall|d: int| #[trigger] is_root(label@, d) implies !ranks_above(fs@, label@, m as int, d, p.0 as int) by {
                    assert(0 <= d < c);
                }
            },
        }
    }
    best
}

/// How many of the first `m` frames of component `c` carry fingerprint `x`.
pub open spec fn hash_count(fs: Seq<Frame>, label: Seq<usize>, c: int, x: u64, m: int) -> int
    decreases m,
{
    if m <= 0 {
        0
    } else {
        hash_count(fs, label, c, x, m - 1) + (if member(label, c, m - 1) && fs[m - 1].hash == x { 1int } else { 0int })
    }
}

/// Sum of the Hamming distances from `x` to the first `m` frames of
/// component `c`.
pub open spec fn hash_spread(fs: Seq<Frame>, label: Seq<usize>, c: int, x: u64, m: int) -> int
    decreases m,
{
    if m <= 0 {
        0
    } else {
        hash_spread(fs, label, c, x, m - 1) + (if member(label, c, m - 1) { hamming(x, fs[m - 1].hash) as int } else { 0int })
    }
}

/// Fingerprint `y` is a better representative of component `c` than `x`: it
/// is carried by more of its frames, or by as many and lies closer to all of
/// them.
pub open spec fn better_representative(fs: Seq<Frame>, label: Seq<usize>, c: int, y: u64, x: u64) -> bool {
    let n = fs.len() as int;
    ||| hash_count(fs, label, c, y, n) > hash_count(fs, label, c, x, n)
    ||| hash_count(fs, label, c, y, n) == hash_count(fs, label, c, x, n)
        && hash_spread(fs, label, c, y, n) < hash_spread(fs, label, c, x, n)
}

/// `x` is a representative fingerprint of component `c`: one of its frames
/// carries it, and no fingerprint of its frames is a better one.
pub open spec fn is_representative(fs: Seq<Frame>, label: Seq<usize>, c: int, x: u64) -> bool {
    &&& exists|h: int| 0 <= h < fs.len() && member(label, c, h) && fs[h].hash == x
    &&& forall|j: int| 0 <= j < fs.len() && member(label, c, j) ==> !better_representative(fs, label, c, #[trigger] fs[j].hash, x)
}

/// Counts the frames of component `c` that carry `x`, and sums the distances
/// from `x` to all its frames.
fn hash_standing(fs: &Vec<Frame>, label: &Vec<usize>, c: usize, x: u64) -> (r: (u64, u64))
    requires
        fs@.len() <= MAX_FRAMES,
        label@.len() == fs@.len(),
    ensures
        r.0 as int == hash_count(fs@, label@, c as int, x, fs@.len() as int),
        r.1 as int == hash_spread(fs@, label@, c as int, x, fs@.len() as int),
{
    let n = fs.len();
    let mut count: u64 = 0;
    let mut spread: u64 = 0;
    let mut i: usize = 0;
    while i < n
        invariant
            n == fs@.len(),
            n <= MAX_FRAMES,
            label@.len() == n,
            i <= n,
            count <= i,
            spread <= 64 * i,
            count as int == hash_count(fs@, label@, c as int, x, i as int),
            spread as int == hash_spread(fs@, label@, c as int, x, i as int),
        decreases n - i,
    {
        if label[i] == c {
            if fs[i].hash == x {
                count = count + 1;
            }
            let d = hamming_distance(x, fs[i].hash);
            spread = spread + d as u64;
        }
        i = i + 1;
    }
    (count, spread)
}

/// Picks the representative fingerprint of component `c`, whose root frame
/// is `c` itself.
pub fn representative(fs: &Vec<Frame>, label: &Vec<usize>, c: usize) -> (r: u64)
    requires
        fs@.len() <= MAX_FRAMES,
        label@.len() == fs@.len(),
        is_root(label@, c as int),
    ensures
        is_representative(fs@, label@, c as int, r),
{
    let n = fs.len();
    let mut best: u64 = fs[c].hash;
    let mut standing = hash_standing(fs, label, c, best);
    assert(member(label@, c as int, c as int) && fs@[c as int].hash == best);
    let mut j: usize = 0;
    while j < n
        invariant
            n == fs@.len(),
            n <= MAX_FRAMES,
            label@.len() == n,
            j <= n,
            is_root(label@, c as int),
            exists|h: int| 0 <= h < n && member(label@, c as int, h) && fs@[h].hash == best,
            standing.0 as int == hash_count(fs@, label@, c as int, best, n as int),
            standing.1 as int == hash_spread(fs@, label@, c as int, best, n as int),
            forall|k: int| 0 <= k < j && member(label@, c as int, k) ==> !better_representative(fs@, label@, c as int, #[trigger] fs@[k].hash, best),
        decreases n - j,
    {
        if label[j] == c {
            let x = fs[j].hash;
            let st = hash_standing(fs, label, c, x);
            if st.0 > standing.0 || (st.0 == standing.0 && st.1 < standing.1) {
                best = x;
                standing = st;
                assert(member(label@, c as int, j as int) && fs@[j as int].hash == best);
            }
        }
        j = j + 1;
    }
    best
}

/// A consensus segment of one window: its boundary in milliseconds of
/// relative time, its representative fingerprint, and how many episodes
/// support it.
#[derive(Clone, Copy, Debug, PartialEq, Eq)]
pub struct ConsensusSegment {
    pub start_ms: u64,
    pub end_ms: u64,
    pub hash: u64,
    pub support: usize,
}

/// `a - b`, or 0 where that is negative.
pub open spec fn minus_or_zero(a: int, b: int) -> int {
    if a >= b {
        a - b
    } else {
        0
    }
}

/// `a + b`, or `u64::MAX` where that is larger.
pub open spec fn plus_capped(a: int, b: int) -> int {
    if a + b <= u64::MAX {
        a + b
    } else {
        u64::MAX as int
    }
}

/// The correlation's answer for the components named by `label`, with the
/// episodes `0..m` and quorum `q`: `None` when no component touches `q`
/// episodes; else the segment of a best component, which spans its frames'
/// times widened by one frame interval on each side.
pub open spec fn consensus_from(fs: Seq<Frame>, label: Seq<usize>, m: int, q: int, cfg: CorrelationConfig, r: Option<ConsensusSegment>) -> bool {
    match r {
        None => best_of(fs, label, m, q, None),
        Some(s) => exists|c: usize| {
            &&& #[trigger] best_of(fs, label, m, q, Some(c))
            &&& s.support as int == support_count(fs, label, c as int, m)
            &&& s.start_ms as int == minus_or_zero(min_time(fs, label, c as int, fs.len() as int), cfg.frame_interval_ms as int)
            &&& s.end_ms as int == plus_capped(max_time(fs, label, c as int, fs.len() as int), cfg.frame_interval_ms as int)
            &&& is_representative(fs, label, c as int, s.hash)
        },
    }
}

/// The consensus segment of one window of a group, given each episode's
/// candidates in that window: the similarity graph links candidates of
/// different episodes that show the same picture at aligned times; its best
/// connected component that touches a strict majority of the episodes with
/// candidates gives the segment, and where none does there is no consensus.
/// A group with a single episode that has candidates has a quorum of one.
pub fn correlate(eps: &Vec<Vec<Candidate>>, cfg: &CorrelationConfig) -> (r: Option<ConsensusSegment>)
    requires
        frames_of(eps@).len() <= MAX_FRAMES,
    ensures
        exists|label: Seq<usize>| {
            &&& #[trigger] is_component_labeling(*cfg, frames_of(eps@), label)
            &&& consensus_from(frames_of(eps@), label, eps@.len() as int, quorum(active_count(eps@, eps@.len() as int)), *cfg, r)
        },
{
    let fs = flatten_frames(eps);
    let label = label_components(cfg, &fs);
    let active = count_active(eps);
    let q: usize = active / 2 + 1;
    match best_component(&fs, &label, eps.len(), q) {
        None => {
            assert(consensus_from(fs@, label@, eps@.len() as int, q as int, *cfg, None));
            None
        },
        Some(p) => {
            let c = p.0;
            let st = p.1;
            let hash = representative(&fs, &label, c);
            let start_ms: u64 = if st.earliest >= cfg.frame_interval_ms {
                st.earliest - cfg.frame_interval_ms
            } else {
                0
            };
            let end_ms: u64 = if st.latest <= u64::MAX - cfg.frame_interval_ms {
                st.latest + cfg.frame_interval_ms
            } else {
                u64::MAX
            };
            let seg = ConsensusSegment { start_ms, end_ms, hash, support: st.support };
            assert(best_of(fs@, label@, eps@.len() as int, q as int, Some(c)));
            Some(seg)
        },
    }
}

} // verus!
