use vstd::prelude::*;
use crate::fingerprint::{hamming, hamming_distance};

verus! {

/// One scene cut found in an episode's window: its time from the window's
/// reference point, in milliseconds, and the perceptual fingerprint of the
/// frame there.
#[derive(Clone, Copy, Debug, PartialEq, Eq)]
pub struct Candidate {
    pub time_ms: u64,
    pub hash: u64,
}

/// A candidate together with the index of the episode it came from.
#[derive(Clone, Copy, Debug, PartialEq, Eq)]
pub struct Frame {
    pub episode: usize,
    pub time_ms: u64,
    pub hash: u64,
}

/// The tunable policy of the correlation.
#[derive(Clone, Copy, Debug, PartialEq, Eq)]
pub struct CorrelationConfig {
    /// Largest Hamming distance at which two fingerprints show the same picture.
    pub max_distance: u32,
    /// Largest difference of relative time, in milliseconds, at which two
    /// candidates are aligned.
    pub max_time_gap_ms: u64,
    /// Nominal frame interval, in milliseconds, by which a boundary is widened
    /// on each side.
    pub frame_interval_ms: u64,
}

/// The absolute difference of two times.
pub open spec fn time_gap(a: u64, b: u64) -> int {
    if a >= b {
        a - b
    } else {
        b - a
    }
}

/// Two frames are linked in the similarity graph when they come from
/// different episodes, show the same picture and are aligned in time.
pub open spec fn linked(cfg: CorrelationConfig, a: Frame, b: Frame) -> bool {
    &&& a.episode != b.episode
    &&& hamming(a.hash, b.hash) <= cfg.max_distance
    &&& time_gap(a.time_ms, b.time_ms) <= cfg.max_time_gap_ms
}

/// The frames of a candidate sequence, tagged with episode index `e`.
pub open spec fn tag_frames(cs: Seq<Candidate>, e: int) -> Seq<Frame> {
    cs.map_values(|c: Candidate| Frame { episode: e as usize, time_ms: c.time_ms, hash: c.hash })
}

/// All frames of a group, episode by episode, each in its episode's order.
pub open spec fn frames_of(eps: Seq<Vec<Candidate>>) -> Seq<Frame>
    decreases eps.len(),
{
    if eps.len() == 0 {
        Seq::empty()
    } else {
        frames_of(eps.drop_last()) + tag_frames(eps.last()@, eps.len() - 1)
    }
}

proof fn lemma_frames_episodes(eps: Seq<Vec<Candidate>>)
    ensures
        forall|i: int| 0 <= i < frames_of(eps).len() ==> (#[trigger] frames_of(eps)[i]).episode < eps.len(),
    decreases eps.len(),
{
    if eps.len() > 0 {
        lemma_frames_episodes(eps.drop_last());
        let prev = frames_of(eps.drop_last());
        assert forall|i: int| 0 <= i < frames_of(eps).len() implies (#[trigger] frames_of(eps)[i]).episode < eps.len() by {
            if i >= prev.len() {
                assert(frames_of(eps)[i] == tag_frames(eps.last()@, eps.len() - 1)[i - prev.len()]);
            } else {
                assert(frames_of(eps)[i] == prev[i]);
            }
        }
    }
}

/// Decides whether two frames are linked.
pub fn frames_linked(cfg: &CorrelationConfig, a: &Frame, b: &Frame) -> (r: bool)
    ensures
        r == linked(*cfg, *a, *b),
{
    if a.episode == b.episode {
        return false;
    }
    let gap: u64 = if a.time_ms >= b.time_ms {
        a.time_ms - b.time_ms
    } else {
        b.time_ms - a.time_ms
    };
    gap <= cfg.max_time_gap_ms && hamming_distance(a.hash, b.hash) <= cfg.max_distance
}

/// Lays out the candidates of all episodes of a group as one sequence of
/// frames, each tagged with the index of its episode.
pub fn flatten_frames(eps: &Vec<Vec<Candidate>>) -> (r: Vec<Frame>)
    ensures
        r@ == frames_of(eps@),
        forall|i: int| 0 <= i < r@.len() ==> (#[trigger] r@[i]).episode < eps@.len(),
{
    let mut out: Vec<Frame> = Vec::new();
    let mut e: usize = 0;
    while e < eps.len()
        invariant
            e <= eps@.len(),
            out@ == frames_of(eps@.subrange(0, e as int)),
        decreases eps@.len() - e,
    {
        let cs = &eps[e];
        let ghost base = out@;
        let mut k: usize = 0;
        while k < cs.len()
            invariant
                e < eps@.len(),
                cs == &eps@[e as int],
                k <= cs@.len(),
                out@ == base + tag_frames(cs@.subrange(0, k as int), e as int),
            decreases cs@.len() - k,
        {
            out.push(Frame { episode: e, time_ms: cs[k].time_ms, hash: cs[k].hash });
            k = k + 1;
            assert(out@ =~= base + tag_frames(cs@.subrange(0, k as int), e as int));
        }
        assert(eps@.subrange(0, e as int + 1).drop_last() =~= eps@.subrange(0, e as int));
        assert(cs@.subrange(0, k as int) =~= cs@);
        e = e + 1;
    }
    assert(eps@.subrange(0, eps@.len() as int) =~= eps@);
    proof {
        lemma_frames_episodes(eps@);
    }
    out
}

/// Every frame linked to frame `u` carries `u`'s label.
pub open spec fn closed_at(cfg: CorrelationConfig, fs: Seq<Frame>, label: Seq<usize>, u: int) -> bool {
    forall|v: int| 0 <= v < fs.len() && linked(cfg, fs[u], fs[v]) ==> label[v] == label[u]
}

/// `parent` and `depth` certify that each frame is joined, by links along a
/// path of strictly decreasing depth, to the frame its label names.
pub open spec fn rooted(fs: Seq<Frame>, cfg: CorrelationConfig, label: Seq<usize>, parent: Seq<int>, depth: Seq<int>, i: int) -> bool {
    if label[i] == i {
        depth[i] == 0
    } else {
        &&& 0 <= parent[i] < fs.len()
        &&& label[parent[i]] == label[i]
        &&& linked(cfg, fs[parent[i]], fs[i])
        &&& 0 <= depth[parent[i]] < depth[i]
    }
}

/// `label` names the connected components of the similarity graph: each
/// frame is labelled by a frame of its component that labels itself, linked
/// frames share their label, and every frame is joined by links to the frame
/// its label names. Together these make two frames share a label exactly
/// when they are connected.
pub open spec fn is_component_labeling(cfg: CorrelationConfig, fs: Seq<Frame>, label: Seq<usize>) -> bool {
    &&& label.len() == fs.len()
    &&& forall|i: int| 0 <= i < fs.len() ==> (#[trigger] label[i]) < fs.len() && label[label[i] as int] == label[i]
    &&& forall|u: int| 0 <= u < fs.len() ==> #[trigger] closed_at(cfg, fs, label, u)
    &&& exists|parent: Seq<int>, depth: Seq<int>|
        parent.len() == fs.len() && depth.len() == fs.len()
        && forall|i: int| 0 <= i < fs.len() ==> #[trigger] rooted(fs, cfg, label, parent, depth, i)
}

/// How many of the first `m` labels still mark a frame as unreached (`n`).
pub open spec fn unreached_count(label: Seq<usize>, n: usize, m: int) -> int
    decreases m,
{
    if m <= 0 {
        0
    } else {
        unreached_count(label, n, m - 1) + (if label[m - 1] == n { 1int } else { 0int })
    }
}

proof fn lemma_unreached_count(label: Seq<usize>, n: usize, m: int, v: int, x: usize)
    requires
        0 <= m <= label.len(),
        0 <= v < label.len(),
        label[v] == n,
        x != n,
    ensures
        0 <= unreached_count(label, n, m) <= m,
        v < m ==> unreached_count(label.update(v, x), n, m) == unreached_count(label, n, m) - 1,
        v >= m ==> unreached_count(label.update(v, x), n, m) == unreached_count(label, n, m),
    decreases m,
{
    if m > 0 {
        lemma_unreached_count(label, n, m - 1, v, x);
    }
}

proof fn lemma_unreached_bounds(label: Seq<usize>, n: usize, m: int)
    requires
        0 <= m <= label.len(),
    ensures
        0 <= unreached_count(label, n, m) <= m,
    decreases m,
{
    if m > 0 {
        lemma_unreached_bounds(label, n, m - 1);
    }
}

proof fn lemma_all_unreached(label: Seq<usize>, n: usize, m: int)
    requires
        0 <= m <= label.len(),
        forall|i: int| 0 <= i < label.len() ==> label[i] == n,
    ensures
        unreached_count(label, n, m) == m,
    decreases m,
{
    if m > 0 {
        lemma_all_unreached(label, n, m - 1);
    }
}

proof fn lemma_linked_symmetric(cfg: CorrelationConfig, a: Frame, b: Frame)
    ensures
        linked(cfg, a, b) == linked(cfg, b, a),
{
    let (p, q) = (a.hash, b.hash);
    assert(p ^ q == q ^ p) by (bit_vector);
}

/// What holds of the labels before the search from frame `r`: frames below
/// `r` are reached, and every reached frame has a label below `r`, is rooted
/// and has all its links inside its component.
#[verifier::opaque]
spec fn outer_inv(cfg: CorrelationConfig, fs: Seq<Frame>, label: Seq<usize>, r: int, parent: Seq<int>, depth: Seq<int>) -> bool {
    let n = fs.len();
    &&& label.len() == n && parent.len() == n && depth.len() == n
    &&& 0 <= r <= n
    &&& forall|i: int| 0 <= i < r ==> (#[trigger] label[i]) < n
    &&& forall|i: int| 0 <= i < n ==> (#[trigger] label[i]) == n || (label[i] < r && label[label[i] as int] == label[i]
        && rooted(fs, cfg, label, parent, depth, i) && closed_at(cfg, fs, label, i))
}

/// What holds during the search from frame `r`: the frames reached from it
/// are those of `queue`, the first `head` of which have been explored.
#[verifier::opaque]
spec fn bfs_inv(cfg: CorrelationConfig, fs: Seq<Frame>, label: Seq<usize>, queue: Seq<usize>, head: int, r: int, parent: Seq<int>, depth: Seq<int>) -> bool {
    let n = fs.len();
    &&& label.len() == n && parent.len() == n && depth.len() == n
    &&& 0 <= r < n && label[r] as int == r
    &&& 0 <= head <= queue.len()
    &&& forall|i: int| 0 <= i < r ==> (#[trigger] label[i]) < n
    &&& forall|k: int| 0 <= k < queue.len() ==> (#[trigger] queue[k]) < n && label[queue[k] as int] as int == r
    &&& forall|i: int| 0 <= i < n && (#[trigger] label[i]) as int == r ==> exists|k: int| 0 <= k < queue.len() && queue[k] == i
    &&& forall|k: int| 0 <= k < head ==> closed_at(cfg, fs, label, #[trigger] queue[k] as int)
    &&& forall|i: int| 0 <= i < n ==> (#[trigger] label[i]) == n || label[i] as int == r || (label[i] < r && closed_at(cfg, fs, label, i))
    &&& forall|i: int| 0 <= i < n ==> (#[trigger] label[i]) == n || (label[i] <= r && label[label[i] as int] == label[i]
        && rooted(fs, cfg, label, parent, depth, i))
}

proof fn lemma_outer_init(cfg: CorrelationConfig, fs: Seq<Frame>, label: Seq<usize>, parent: Seq<int>, depth: Seq<int>)
    requires
        label.len() == fs.len() && parent.len() == fs.len() && depth.len() == fs.len(),
        forall|i: int| 0 <= i < fs.len() ==> label[i] == fs.len(),
    ensures
        outer_inv(cfg, fs, label, 0, parent, depth),
{
    reveal(outer_inv);
}

proof fn lemma_outer_skip(cfg: CorrelationConfig, fs: Seq<Frame>, label: Seq<usize>, r: int, parent: Seq<int>, depth: Seq<int>)
    requires
        outer_inv(cfg, fs, label, r, parent, depth),
        r < fs.len(),
        label[r] != fs.len(),
    ensures
        outer_inv(cfg, fs, label, r + 1, parent, depth),
{
    reveal(outer_inv);
}

proof fn lemma_outer_done(cfg: CorrelationConfig, fs: Seq<Frame>, label: Seq<usize>, parent: Seq<int>, depth: Seq<int>)
    requires
        outer_inv(cfg, fs, label, fs.len() as int, parent, depth),
    ensures
        is_component_labeling(cfg, fs, label),
{
    reveal(outer_inv);
    let n = fs.len();
    assert forall|i: int| 0 <= i < n implies #[trigger] rooted(fs, cfg, label, parent, depth, i) by {
        assert(label[i] < n);
    }
    assert forall|u: int| 0 <= u < n implies #[trigger] closed_at(cfg, fs, label, u) by {
        assert(label[u] < n);
    }
}

proof fn lemma_bfs_start(cfg: CorrelationConfig, fs: Seq<Frame>, label: Seq<usize>, r: int, parent: Seq<int>, depth: Seq<int>)
    requires
        outer_inv(cfg, fs, label, r, parent, depth),
        0 <= r < fs.len(),
        label[r] == fs.len(),
    ensures
        bfs_inv(cfg, fs, label.update(r, r as usize), seq![r as usize], 0, r, parent, depth.update(r, 0)),
{
    reveal(outer_inv);
    reveal(bfs_inv);
    let n = fs.len();
    let l2 = label.update(r, r as usize);
    let d2 = depth.update(r, 0);
    let q = seq![r as usize];
    assert forall|i: int| 0 <= i < n implies (#[trigger] l2[i]) == n || l2[i] as int == r || (l2[i] < r && closed_at(cfg, fs, l2, i)) by {
        if i != r && label[i] != n {
            assert(closed_at(cfg, fs, label, i));
            assert forall|v: int| 0 <= v < n && linked(cfg, fs[i], fs[v]) implies l2[v] == l2[i] by {
                assert(label[v] == label[i]);
            }
        }
    }
    assert forall|i: int| 0 <= i < n implies (#[trigger] l2[i]) == n || (l2[i] <= r && l2[l2[i] as int] == l2[i] && rooted(fs, cfg, l2, parent, d2, i)) by {
        if i != r && label[i] != n {
            assert(label[label[i] as int] == label[i]);
            if label[i] != i {
                assert(label[parent[i]] == label[i]);
            }
        }
    }
    assert forall|i: int| 0 <= i < n && (#[trigger] l2[i]) as int == r implies exists|k: int| 0 <= k < q.len() && q[k] == i by {
        assert(q[0] == i);
    }
}

proof fn lemma_bfs_step(cfg: CorrelationConfig, fs: Seq<Frame>, label: Seq<usize>, queue: Seq<usize>, head: int, r: int, parent: Seq<int>, depth: Seq<int>, u: int, v: int)
    requires
        bfs_inv(cfg, fs, label, queue, head, r, parent, depth),
        head < queue.len(),
        u == queue[head],
        0 <= v < fs.len(),
        label[v] == fs.len(),
        linked(cfg, fs[u], fs[v]),
    ensures
        bfs_inv(cfg, fs, label.update(v, r as usize), queue.push(v as usize), head, r, parent.update(v, u), depth.update(v, depth[u] + 1)),
{
    reveal(bfs_inv);
    let n = fs.len();
    let l2 = label.update(v, r as usize);
    let q2 = queue.push(v as usize);
    let p2 = parent.update(v, u);
    let d2 = depth.update(v, depth[u] + 1);
    assert(label[u] as int == r);
    assert forall|k: int| 0 <= k < head implies closed_at(cfg, fs, l2, #[trigger] q2[k] as int) by {
        let q = q2[k] as int;
        assert(queue[k] == q2[k]);
        assert(closed_at(cfg, fs, label, q));
        assert forall|w: int| 0 <= w < n && linked(cfg, fs[q], fs[w]) implies l2[w] == l2[q] by {
            if w == v {
                assert(label[w] == label[q]);
            }
        }
    }
    assert forall|i: int| 0 <= i < n implies (#[trigger] l2[i]) == n || l2[i] as int == r || (l2[i] < r && closed_at(cfg, fs, l2, i)) by {
        if i != v && label[i] != n && label[i] as int != r {
            assert(closed_at(cfg, fs, label, i));
            assert forall|w: int| 0 <= w < n && linked(cfg, fs[i], fs[w]) implies l2[w] == l2[i] by {
                if w == v {
                    assert(label[w] == label[i]);
                }
            }
        }
    }
    assert forall|i: int| 0 <= i < n implies (#[trigger] l2[i]) == n || (l2[i] <= r && l2[l2[i] as int] == l2[i] && rooted(fs, cfg, l2, p2, d2, i)) by {
        if i != v && label[i] != n {
            assert(label[label[i] as int] == label[i]);
            if label[i] != i {
                assert(label[parent[i]] == label[i]);
            }
        }
    }
    assert forall|i: int| 0 <= i < n && (#[trigger] l2[i]) as int == r implies exists|k: int| 0 <= k < q2.len() && q2[k] == i by {
        if i == v {
            assert(q2[q2.len() - 1] == i);
        } else {
            assert(label[i] as int == r);
            let k = choose|k: int| 0 <= k < queue.len() && queue[k] == i;
            assert(q2[k] == i);
        }
    }
    assert forall|k: int| 0 <= k < q2.len() implies (#[trigger] q2[k]) < n && l2[q2[k] as int] as int == r by {
        if k < queue.len() {
            assert(queue[k] == q2[k]);
        }
    }
}

proof fn lemma_bfs_seen(cfg: CorrelationConfig, fs: Seq<Frame>, label: Seq<usize>, queue: Seq<usize>, head: int, r: int, parent: Seq<int>, depth: Seq<int>, u: int, v: int)
    requires
        bfs_inv(cfg, fs, label, queue, head, r, parent, depth),
        head < queue.len(),
        u == queue[head],
        0 <= v < fs.len(),
        label[v] != fs.len(),
        linked(cfg, fs[u], fs[v]),
    ensures
        label[v] as int == r,
{
    reveal(bfs_inv);
    assert(label[u] as int == r);
    if label[v] as int != r {
        lemma_linked_symmetric(cfg, fs[u], fs[v]);
        assert(closed_at(cfg, fs, label, v));
    }
}

proof fn lemma_bfs_advance(cfg: CorrelationConfig, fs: Seq<Frame>, label: Seq<usize>, queue: Seq<usize>, head: int, r: int, parent: Seq<int>, depth: Seq<int>)
    requires
        bfs_inv(cfg, fs, label, queue, head, r, parent, depth),
        head < queue.len(),
        forall|w: int| 0 <= w < fs.len() && linked(cfg, fs[queue[head] as int], #[trigger] fs[w]) ==> label[w] as int == r,
    ensures
        bfs_inv(cfg, fs, label, queue, head + 1, r, parent, depth),
{
    reveal(bfs_inv);
    let u = queue[head] as int;
    assert(label[u] as int == r);
    assert(closed_at(cfg, fs, label, u));
}

proof fn lemma_bfs_facts(cfg: CorrelationConfig, fs: Seq<Frame>, label: Seq<usize>, queue: Seq<usize>, head: int, r: int, parent: Seq<int>, depth: Seq<int>)
    requires
        bfs_inv(cfg, fs, label, queue, head, r, parent, depth),
    ensures
        label.len() == fs.len(),
        parent.len() == fs.len(),
        depth.len() == fs.len(),
        0 <= head <= queue.len(),
        forall|k: int| 0 <= k < queue.len() ==> (#[trigger] queue[k]) < fs.len(),
{
    reveal(bfs_inv);
}

proof fn lemma_bfs_finish(cfg: CorrelationConfig, fs: Seq<Frame>, label: Seq<usize>, queue: Seq<usize>, r: int, parent: Seq<int>, depth: Seq<int>)
    requires
        bfs_inv(cfg, fs, label, queue, queue.len() as int, r, parent, depth),
    ensures
        outer_inv(cfg, fs, label, r + 1, parent, depth),
{
    reveal(bfs_inv);
    reveal(outer_inv);
    let n = fs.len();
    assert forall|i: int| 0 <= i < n implies (#[trigger] label[i]) == n || (label[i] < r + 1 && label[label[i] as int] == label[i]
        && rooted(fs, cfg, label, parent, depth, i) && closed_at(cfg, fs, label, i)) by {
        if label[i] as int == r {
            let k = choose|k: int| 0 <= k < queue.len() && queue[k] == i;
            assert(closed_at(cfg, fs, label, queue[k] as int));
        }
    }
    assert forall|i: int| 0 <= i < r + 1 implies (#[trigger] label[i]) < n by {
        if i == r {
            assert(label[r] as int == r);
        }
    }
}

/// Labels the connected components of the similarity graph over `fs` by a
/// breadth-first search from each frame not yet reached.
pub fn label_components(cfg: &CorrelationConfig, fs: &Vec<Frame>) -> (label: Vec<usize>)
    ensures
        is_component_labeling(*cfg, fs@, label@),
{
    let n = fs.len();
    let mut label: Vec<usize> = Vec::new();
    let mut k: usize = 0;
    while k < n
        invariant
            n == fs@.len(),
            k <= n,
            label@.len() == k,
            forall|i: int| 0 <= i < k ==> label@[i] == n,
        decreases n - k,
    {
        label.push(n);
        k = k + 1;
    }
    let ghost mut parent: Seq<int> = Seq::new(n as nat, |i: int| i);
    let ghost mut depth: Seq<int> = Seq::new(n as nat, |i: int| 0);
    let ghost mut unl: int = n as int;
    proof {
        lemma_all_unreached(label@, n, n as int);
        lemma_outer_init(*cfg, fs@, label@, parent, depth);
    }
    let mut r: usize = 0;
    while r < n
        invariant
            n == fs@.len(),
            r <= n,
            label@.len() == n,
            parent.len() == n,
            depth.len() == n,
            unl == unreached_count(label@, n, n as int),
            outer_inv(*cfg, fs@, label@, r as int, parent, depth),
        decreases n - r,
    {
        if label[r] == n {
            proof {
                lemma_unreached_count(label@, n, n as int, r as int, r);
                unl = unl - 1;
                lemma_bfs_start(*cfg, fs@, label@, r as int, parent, depth);
                depth = depth.update(r as int, 0);
            }
            label.set(r, r);
            let mut queue: Vec<usize> = Vec::new();
            queue.push(r);
            let mut head: usize = 0;
            proof {
                assert(queue@ =~= seq![r]);
            }
            while head < queue.len()
                invariant
                    n == fs@.len(),
                    r < n,
                    label@.len() == n,
                    parent.len() == n,
                    depth.len() == n,
                    unl == unreached_count(label@, n, n as int),
                    bfs_inv(*cfg, fs@, label@, queue@, head as int, r as int, parent, depth),
                decreases unl + queue@.len() - head,
            {
                proof {
                    lemma_bfs_facts(*cfg, fs@, label@, queue@, head as int, r as int, parent, depth);
                    lemma_unreached_bounds(label@, n, n as int);
                }
                let u = queue[head];
                let ghost unl0 = unl;
                let ghost queue0 = queue@.len();
                let mut v: usize = 0;
                while v < n
                    invariant
                        n == fs@.len(),
                        r < n,
                        label@.len() == n,
                        parent.len() == n,
                        depth.len() == n,
                        unl == unreached_count(label@, n, n as int),
                        unl + queue@.len() == unl0 + queue0,
                        head < queue@.len(),
                        u == queue@[head as int],
                        u < n,
                        v <= n,
                        bfs_inv(*cfg, fs@, label@, queue@, head as int, r as int, parent, depth),
                        forall|w: int| 0 <= w < v && linked(*cfg, fs@[u as int], #[trigger] fs@[w]) ==> label@[w] as int == r,
                    decreases n - v,
                {
                    if label[v] == n && frames_linked(cfg, &fs[u], &fs[v]) {
                        proof {
                            lemma_bfs_step(*cfg, fs@, label@, queue@, head as int, r as int, parent, depth, u as int, v as int);
                            lemma_unreached_count(label@, n, n as int, v as int, r);
                            unl = unl - 1;
                            parent = parent.update(v as int, u as int);
                            depth = depth.update(v as int, depth[u as int] + 1);
                        }
                        label.set(v, r);
                        queue.push(v);
                    } else {
                        proof {
                            if label@[v as int] != n && linked(*cfg, fs@[u as int], fs@[v as int]) {
                                lemma_bfs_seen(*cfg, fs@, label@, queue@, head as int, r as int, parent, depth, u as int, v as int);
                            }
                        }
                    }
                    v = v + 1;
                }
                proof {
                    lemma_bfs_advance(*cfg, fs@, label@, queue@, head as int, r as int, parent, depth);
                }
                head = head + 1;
            }
            proof {
                lemma_bfs_facts(*cfg, fs@, label@, queue@, head as int, r as int, parent, depth);
                lemma_bfs_finish(*cfg, fs@, label@, queue@, r as int, parent, depth);
            }
        } else {
            proof {
                lemma_outer_skip(*cfg, fs@, label@, r as int, parent, depth);
            }
        }
        r = r + 1;
    }
    proof {
        lemma_outer_done(*cfg, fs@, label@, parent, depth);
    }
    label
}

} // verus!
