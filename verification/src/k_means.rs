//! Colour quantisation by k-means clustering, and the nearest-colour lookup
//! that maps a colour onto a palette.
//!
//! A round sorts every point into the bucket of its nearest centroid and
//! replaces each centroid by the mean of its bucket. A bucket that stayed
//! empty is respawned at a random colour one time in four and dropped
//! otherwise, so a palette may shrink and grow again from round to round.

use vstd::prelude::*;
use crate::color::Color;

verus! {

/// Why a clustering was refused.
#[derive(Clone, Copy, Debug, PartialEq, Eq, Structural)]
pub enum QuantizeError {
    /// No cluster was asked for.
    InvalidArgument,
}

/// What a capped clustering ended with.
#[derive(Clone, Debug)]
pub struct Clustering {
    /// The centroids of the last round.
    pub palette: Vec<Color>,
    /// Whether a round already reproduced `palette` exactly.
    pub converged: bool,
}

/// The distance between two channel values.
pub open spec fn gap(a: u8, b: u8) -> int {
    if a >= b {
        a - b
    } else {
        b - a
    }
}

/// The squared Euclidean distance between two colours.
pub open spec fn dist_sq_spec(p: Color, q: Color) -> int {
    gap(p.r, q.r) * gap(p.r, q.r) + gap(p.g, q.g) * gap(p.g, q.g) + gap(p.b, q.b) * gap(
        p.b,
        q.b,
    )
}

/// `i` is the position of the entry of `palette` nearest to `p`: no entry is
/// nearer, and every earlier entry is strictly farther.
pub open spec fn is_nearest(p: Color, palette: Seq<Color>, i: int) -> bool {
    &&& 0 <= i < palette.len()
    &&& forall|j: int|
        0 <= j < palette.len() ==> dist_sq_spec(p, palette[i]) <= dist_sq_spec(
            p,
            #[trigger] palette[j],
        )
    &&& forall|j: int|
        0 <= j < i ==> dist_sq_spec(p, palette[i]) < dist_sq_spec(p, #[trigger] palette[j])
}

/// The position of the entry of a non-empty `palette` nearest to `p`.
pub open spec fn nearest_index(p: Color, palette: Seq<Color>) -> int {
    choose|i: int| is_nearest(p, palette, i)
}

/// The points of `points` whose nearest centroid is number `j`, in order.
pub open spec fn bucket(points: Seq<Color>, centroids: Seq<Color>, j: int) -> Seq<Color>
    decreases points.len(),
{
    if points.len() == 0 {
        Seq::empty()
    } else {
        let rest = bucket(points.drop_last(), centroids, j);
        if nearest_index(points.last(), centroids) == j {
            rest.push(points.last())
        } else {
            rest
        }
    }
}

/// The `k` buckets that `points` fall into around `centroids`.
pub open spec fn buckets(points: Seq<Color>, centroids: Seq<Color>, k: int) -> Seq<Seq<Color>> {
    Seq::new(k as nat, |j: int| bucket(points, centroids, j))
}

/// The contents of a list of clusters.
pub open spec fn cluster_views(clusters: Seq<Vec<Color>>) -> Seq<Seq<Color>> {
    Seq::new(clusters.len(), |j: int| clusters[j]@)
}

/// One channel of a colour: 0 is red, 1 is green, anything else is blue.
pub open spec fn channel(c: Color, ch: int) -> int {
    if ch == 0 {
        c.r as int
    } else if ch == 1 {
        c.g as int
    } else {
        c.b as int
    }
}

/// The sum of one channel over `points`.
pub open spec fn channel_total(points: Seq<Color>, ch: int) -> int
    decreases points.len(),
{
    if points.len() == 0 {
        0
    } else {
        channel_total(points.drop_last(), ch) + channel(points.last(), ch)
    }
}

/// The channel-wise mean of a non-empty `points`, each channel rounded down.
pub open spec fn mean_color(points: Seq<Color>) -> Color {
    Color {
        r: (channel_total(points, 0) / (points.len() as int)) as u8,
        g: (channel_total(points, 1) / (points.len() as int)) as u8,
        b: (channel_total(points, 2) / (points.len() as int)) as u8,
    }
}

/// The centroid that a cluster gives: its mean, or for an empty cluster
/// whatever `replacement` holds.
pub open spec fn centroid_spec(points: Seq<Color>, replacement: Option<Color>) -> Option<Color> {
    if points.len() == 0 {
        replacement
    } else {
        Some(mean_color(points))
    }
}

/// `out` is a centroid list that `clusters` can give: in order, the mean of
/// each non-empty cluster, and for each empty cluster either one colour of any
/// value or nothing.
pub open spec fn is_refit(clusters: Seq<Seq<Color>>, out: Seq<Color>) -> bool
    decreases clusters.len(),
{
    if clusters.len() == 0 {
        out.len() == 0
    } else if clusters.last().len() > 0 {
        out.len() > 0 && out.last() == mean_color(clusters.last()) && is_refit(
            clusters.drop_last(),
            out.drop_last(),
        )
    } else {
        is_refit(clusters.drop_last(), out) || (out.len() > 0 && is_refit(
            clusters.drop_last(),
            out.drop_last(),
        ))
    }
}

/// A round of clustering `points` into `k` buckets around `palette` can give
/// `palette` back unchanged.
pub open spec fn is_stable(k: int, points: Seq<Color>, palette: Seq<Color>) -> bool {
    is_refit(buckets(points, palette, k), palette)
}

/// What holds of every clustering of `points` into at most `k` colours.
pub open spec fn is_clustering(k: int, points: Seq<Color>, c: Clustering) -> bool {
    &&& c.palette@.len() <= k
    &&& points.len() > 0 ==> c.palette@.len() > 0
    &&& c.converged ==> is_stable(k, points, c.palette@)
}

/// `chain` lists the centroids of successive rounds on `points`, each round
/// giving other centroids than it began with.
pub open spec fn is_walk(k: int, points: Seq<Color>, chain: Seq<Seq<Color>>) -> bool {
    forall|i: int|
        0 <= i < chain.len() - 1 ==> is_refit(buckets(points, #[trigger] chain[i], k), chain[i + 1])
            && chain[i + 1] != chain[i]
}

/// `chain` leads from `start` to `palette` as a clustering under a cap of
/// `max_rounds` rounds does: either a round reproduced `palette` before the
/// cap was spent, or `max_rounds` rounds were made and none reproduced its
/// centroids.
pub open spec fn ends_walk(
    k: int,
    points: Seq<Color>,
    start: Seq<Color>,
    max_rounds: int,
    palette: Seq<Color>,
    converged: bool,
    chain: Seq<Seq<Color>>,
) -> bool {
    &&& is_walk(k, points, chain)
    &&& chain.len() >= 1
    &&& chain[0] == start
    &&& chain.last() == palette
    &&& if converged {
        chain.len() <= max_rounds && is_stable(k, points, palette)
    } else {
        chain.len() == max_rounds + 1
    }
}

/// `palette` is what clustering `points` from `start` can end with under a
/// cap of `max_rounds` rounds.
pub open spec fn is_outcome(
    k: int,
    points: Seq<Color>,
    start: Seq<Color>,
    max_rounds: int,
    palette: Seq<Color>,
    converged: bool,
) -> bool {
    exists|chain: Seq<Seq<Color>>| #[trigger]
        ends_walk(k, points, start, max_rounds, palette, converged, chain)
}

/// `palette` is an outcome of clustering from some `k` centroids.
pub open spec fn is_outcome_of_k(
    k: int,
    points: Seq<Color>,
    max_rounds: int,
    palette: Seq<Color>,
    converged: bool,
) -> bool {
    exists|start: Seq<Color>|
        start.len() == k && (#[trigger] is_outcome(
            k,
            points,
            start,
            max_rounds,
            palette,
            converged,
        ))
}

/// `palette` is what clustering `points` into at most `k` colours can
/// return: at most `k` colours, at least one where there are points, and an
/// outcome of rounds from some `k` centroids under a cap of `usize::MAX`.
pub open spec fn is_palette_of(k: int, points: Seq<Color>, palette: Seq<Color>) -> bool {
    &&& palette.len() <= k
    &&& points.len() > 0 ==> palette.len() > 0
    &&& exists|converged: bool| #[trigger]
        is_outcome_of_k(k, points, usize::MAX as int, palette, converged)
}

/// At most one position is the nearest.
pub proof fn lemma_nearest_unique(p: Color, palette: Seq<Color>, i: int, j: int)
    requires
        is_nearest(p, palette, i),
        is_nearest(p, palette, j),
    ensures
        i == j,
{
    if i < j {
        assert(dist_sq_spec(p, palette[j]) < dist_sq_spec(p, palette[i]));
        assert(dist_sq_spec(p, palette[i]) <= dist_sq_spec(p, palette[j]));
    } else if j < i {
        assert(dist_sq_spec(p, palette[i]) < dist_sq_spec(p, palette[j]));
        assert(dist_sq_spec(p, palette[j]) <= dist_sq_spec(p, palette[i]));
    }
}

/// Every non-empty palette has a nearest entry.
pub proof fn lemma_nearest_exists(p: Color, palette: Seq<Color>)
    requires
        palette.len() > 0,
    ensures
        is_nearest(p, palette, nearest_index(p, palette)),
    decreases palette.len(),
{
    if palette.len() == 1 {
        assert(is_nearest(p, palette, 0));
    } else {
        let front = palette.drop_last();
        lemma_nearest_exists(p, front);
        let i = nearest_index(p, front);
        assert(forall|j: int| 0 <= j < front.len() ==> front[j] == palette[j]);
        if dist_sq_spec(p, palette.last()) < dist_sq_spec(p, palette[i]) {
            let n = palette.len() - 1;
            assert forall|j: int| 0 <= j < n implies dist_sq_spec(p, palette[n]) < dist_sq_spec(
                p,
                #[trigger] palette[j],
            ) by {
                assert(dist_sq_spec(p, front[i]) <= dist_sq_spec(p, front[j]));
            }
            assert(is_nearest(p, palette, n));
        } else {
            assert forall|j: int| 0 <= j < palette.len() implies dist_sq_spec(p, palette[i])
                <= dist_sq_spec(p, #[trigger] palette[j]) by {
                if j < front.len() {
                    assert(dist_sq_spec(p, front[i]) <= dist_sq_spec(p, front[j]));
                }
            }
            assert forall|j: int| 0 <= j < i implies dist_sq_spec(p, palette[i]) < dist_sq_spec(
                p,
                #[trigger] palette[j],
            ) by {
                assert(dist_sq_spec(p, front[i]) < dist_sq_spec(p, front[j]));
            }
            assert(is_nearest(p, palette, i));
        }
    }
}

/// A centroid list that `clusters` can give has at most one colour for each
/// cluster, and at least one as soon as a cluster is not empty.
pub proof fn lemma_refit_len(clusters: Seq<Seq<Color>>, out: Seq<Color>)
    requires
        is_refit(clusters, out),
    ensures
        out.len() <= clusters.len(),
        (exists|j: int| 0 <= j < clusters.len() && (#[trigger] clusters[j]).len() > 0)
            ==> out.len() > 0,
    decreases clusters.len(),
{
    if clusters.len() > 0 {
        let front = clusters.drop_last();
        if clusters.last().len() > 0 {
            lemma_refit_len(front, out.drop_last());
        } else {
            if is_refit(front, out) {
                lemma_refit_len(front, out);
            } else {
                lemma_refit_len(front, out.drop_last());
            }
            if exists|j: int| 0 <= j < clusters.len() && (#[trigger] clusters[j]).len() > 0 {
                let j = choose|j: int| 0 <= j < clusters.len() && (#[trigger] clusters[j]).len() > 0;
                assert(j < clusters.len() - 1);
                assert(front[j].len() > 0);
            }
        }
    }
}

/// Without an empty cluster a round leaves nothing to chance: two centroid
/// lists that `clusters` can give are the same list.
pub proof fn lemma_refit_unique(clusters: Seq<Seq<Color>>, a: Seq<Color>, b: Seq<Color>)
    requires
        forall|j: int| 0 <= j < clusters.len() ==> (#[trigger] clusters[j]).len() > 0,
        is_refit(clusters, a),
        is_refit(clusters, b),
    ensures
        a == b,
        a.len() == clusters.len(),
    decreases clusters.len(),
{
    if clusters.len() == 0 {
        assert(a =~= b);
    } else {
        let front = clusters.drop_last();
        assert(clusters.last().len() > 0);
        assert forall|j: int| 0 <= j < front.len() implies (#[trigger] front[j]).len() > 0 by {
            assert(front[j] == clusters[j]);
        }
        lemma_refit_unique(front, a.drop_last(), b.drop_last());
        assert(a =~= a.drop_last().push(a.last()));
        assert(b =~= b.drop_last().push(b.last()));
    }
}

/// Once a round without an empty bucket has reproduced its palette, every
/// further round reproduces it too.
pub proof fn lemma_stable_stays(k: int, points: Seq<Color>, palette: Seq<Color>, next: Seq<Color>)
    requires
        0 <= k,
        is_stable(k, points, palette),
        forall|j: int| 0 <= j < k ==> (#[trigger] bucket(points, palette, j)).len() > 0,
        is_refit(buckets(points, palette, k), next),
    ensures
        next == palette,
{
    let bs = buckets(points, palette, k);
    assert forall|j: int| 0 <= j < bs.len() implies (#[trigger] bs[j]).len() > 0 by {
        assert(bs[j] == bucket(points, palette, j));
    }
    lemma_refit_unique(bs, palette, next);
}

/// As long as no bucket stays empty, clustering leaves nothing to chance: two
/// chains of rounds from the same centroids agree round by round.
pub proof fn lemma_walk_unique(
    k: int,
    points: Seq<Color>,
    a: Seq<Seq<Color>>,
    b: Seq<Seq<Color>>,
    i: int,
)
    requires
        0 <= k,
        is_walk(k, points, a),
        is_walk(k, points, b),
        0 <= i < a.len(),
        i < b.len(),
        a[0] == b[0],
        forall|t: int, j: int|
            0 <= t < i && 0 <= j < k ==> (#[trigger] bucket(points, a[t], j)).len() > 0,
    ensures
        a[i] == b[i],
    decreases i,
{
    if i > 0 {
        lemma_walk_unique(k, points, a, b, i - 1);
        let before = a[i - 1];
        assert(is_refit(buckets(points, before, k), a[i - 1 + 1]));
        assert(b[i - 1] == before);
        assert(is_refit(buckets(points, b[i - 1], k), b[i - 1 + 1]));
        let bs = buckets(points, before, k);
        assert forall|j: int| 0 <= j < bs.len() implies (#[trigger] bs[j]).len() > 0 by {
            assert(bs[j] == bucket(points, a[i - 1], j));
        }
        lemma_refit_unique(bs, a[i], b[i]);
    }
}

/// The squared Euclidean distance between two colours.
pub fn dist_sq(p: Color, q: Color) -> (d: u32)
    ensures
        d == dist_sq_spec(p, q),
        d <= 195075,
{
    let dr: u32 = if p.r >= q.r {
        (p.r - q.r) as u32
    } else {
        (q.r - p.r) as u32
    };
    let dg: u32 = if p.g >= q.g {
        (p.g - q.g) as u32
    } else {
        (q.g - p.g) as u32
    };
    let db: u32 = if p.b >= q.b {
        (p.b - q.b) as u32
    } else {
        (q.b - p.b) as u32
    };
    assert(dr * dr <= 65025 && dg * dg <= 65025 && db * db <= 65025) by (nonlinear_arith)
        requires
            dr <= 255,
            dg <= 255,
            db <= 255,
    ;
    dr * dr + dg * dg + db * db
}

/// The position in a non-empty `palette` of the entry nearest to `p`; of
/// several equally near entries, the first.
pub fn nearest(p: Color, palette: &[Color]) -> (i: usize)
    requires
        palette@.len() > 0,
    ensures
        is_nearest(p, palette@, i as int),
        i == nearest_index(p, palette@),
{
    let mut best: usize = 0;
    let mut best_dist: u32 = dist_sq(p, palette[0]);
    let mut j: usize = 1;
    while j < palette.len()
        invariant
            1 <= j <= palette@.len(),
            best < j,
            best_dist == dist_sq_spec(p, palette@[best as int]),
            forall|t: int|
                0 <= t < j ==> dist_sq_spec(p, palette@[best as int]) <= dist_sq_spec(
                    p,
                    #[trigger] palette@[t],
                ),
            forall|t: int|
                0 <= t < best ==> dist_sq_spec(p, palette@[best as int]) < dist_sq_spec(
                    p,
                    #[trigger] palette@[t],
                ),
        decreases palette@.len() - j,
    {
        let d: u32 = dist_sq(p, palette[j]);
        if d < best_dist {
            best_dist = d;
            best = j;
        }
        j += 1;
    }
    proof {
        lemma_nearest_unique(p, palette@, best as int, nearest_index(p, palette@));
    }
    best
}

/// The entry of a non-empty `palette` nearest to `p`; of several equally
/// near entries, the first.
pub fn closest(p: Color, points: &[Color]) -> (near: Color)
    requires
        points@.len() > 0,
    ensures
        near == points@[nearest_index(p, points@)],
        is_nearest(p, points@, nearest_index(p, points@)),
        points@.contains(near),
{
    let i = nearest(p, points);
    points[i]
}

/// The mean of a cluster, or `replacement` when the cluster is empty.
pub fn centroid_or(points: &[Color], replacement: Option<Color>) -> (centroid: Option<Color>)
    ensures
        centroid == centroid_spec(points@, replacement),
{
    let n = points.len();
    if n == 0 {
        return replacement;
    }
    let mut r: u128 = 0;
    let mut g: u128 = 0;
    let mut b: u128 = 0;
    let mut i: usize = 0;
    while i < n
        invariant
            i <= n,
            n == points@.len(),
            r == channel_total(points@.take(i as int), 0),
            g == channel_total(points@.take(i as int), 1),
            b == channel_total(points@.take(i as int), 2),
            r <= 255 * i,
            g <= 255 * i,
            b <= 255 * i,
        decreases n - i,
    {
        let p = points[i];
        proof {
            assert(points@.take(i + 1).drop_last() == points@.take(i as int));
        }
        r = r + p.r as u128;
        g = g + p.g as u128;
        b = b + p.b as u128;
        i += 1;
    }
    proof {
        assert(points@.take(n as int) == points@);
    }
    let count = n as u128;
    let mr = r / count;
    let mg = g / count;
    let mb = b / count;
    assert(mr <= 255 && mg <= 255 && mb <= 255) by (nonlinear_arith)
        requires
            count > 0,
            r <= 255 * count,
            g <= 255 * count,
            b <= 255 * count,
            mr == r / count,
            mg == g / count,
            mb == b / count,
    ;
    Some(Color { r: mr as u8, g: mg as u8, b: mb as u8 })
}

/// One uniformly drawn channel value, from `rand::random`. Nothing is claimed
/// of the value beyond its type.
#[verifier::external_body]
fn random_channel() -> (v: u8) {
    rand::random::<u8>()
}

/// A biased coin, from `rand::random_ratio`, which is true with probability
/// `numerator / denominator` and refuses a ratio that is not between zero and
/// one. Nothing is claimed of the outcome.
#[verifier::external_body]
fn random_ratio(numerator: u32, denominator: u32) -> (hit: bool)
    requires
        denominator > 0,
        numerator <= denominator,
{
    rand::random_ratio(numerator, denominator)
}

/// A colour with each channel drawn uniformly at random.
pub fn rand_point() -> Color {
    let r = random_channel();
    let g = random_channel();
    let b = random_channel();
    Color { r, g, b }
}

/// What takes the place of an empty cluster once the coin has fallen: a
/// random colour on a hit, nothing otherwise.
pub fn respawn_on(hit: bool) -> (replacement: Option<Color>)
    ensures
        replacement is Some <==> hit,
{
    if hit {
        Some(rand_point())
    } else {
        None
    }
}

/// What takes the place of an empty cluster: one time in four a random
/// colour, otherwise nothing.
pub fn respawn() -> Option<Color> {
    respawn_on(random_ratio(1, 4))
}

/// The new centroid of a cluster: its mean, or for an empty cluster the
/// outcome of `respawn`.
pub fn calculate_centroid(points: &[Color]) -> (centroid: Option<Color>)
    ensures
        points@.len() > 0 ==> centroid == Some(mean_color(points@)),
{
    if points.len() == 0 {
        let replacement = respawn();
        centroid_or(points, replacement)
    } else {
        centroid_or(points, None)
    }
}

/// Sorts `points` into `k` buckets, each point into the bucket of its
/// nearest centroid.
pub fn assign(points: &[Color], centroids: &[Color], k: usize) -> (clusters: Vec<Vec<Color>>)
    requires
        centroids@.len() <= k,
        points@.len() > 0 ==> centroids@.len() > 0,
    ensures
        cluster_views(clusters@) == buckets(points@, centroids@, k as int),
{
    let mut clusters: Vec<Vec<Color>> = Vec::new();
    let mut j: usize = 0;
    while j < k
        invariant
            j <= k,
            clusters@.len() == j,
            forall|t: int| 0 <= t < j ==> (#[trigger] clusters@[t])@.len() == 0,
        decreases k - j,
    {
        clusters.push(Vec::new());
        j += 1;
    }
    let mut i: usize = 0;
    while i < points.len()
        invariant
            i <= points@.len(),
            clusters@.len() == k,
            centroids@.len() <= k,
            points@.len() > 0 ==> centroids@.len() > 0,
            forall|t: int|
                0 <= t < k ==> (#[trigger] clusters@[t])@ == bucket(
                    points@.take(i as int),
                    centroids@,
                    t,
                ),
        decreases points@.len() - i,
    {
        let p = points[i];
        let idx = nearest(p, centroids);
        let ghost before = clusters@;
        clusters[idx].push(p);
        proof {
            assert(points@.take(i + 1).drop_last() == points@.take(i as int));
            assert(points@.take(i + 1).last() == p);
            assert forall|t: int| 0 <= t < k implies (#[trigger] clusters@[t])@ == bucket(
                points@.take(i + 1),
                centroids@,
                t,
            ) by {
                assert(before[t]@ == bucket(points@.take(i as int), centroids@, t));
            }
        }
        i += 1;
    }
    proof {
        assert(points@.take(points@.len() as int) == points@);
        assert(cluster_views(clusters@) =~= buckets(points@, centroids@, k as int));
    }
    clusters
}

/// The centroids that a list of clusters gives: in order, the mean of each
/// non-empty cluster, and for each empty one the outcome of `respawn`.
pub fn refit(clusters: &Vec<Vec<Color>>) -> (centroids: Vec<Color>)
    ensures
        is_refit(cluster_views(clusters@), centroids@),
{
    let mut centroids: Vec<Color> = Vec::new();
    let mut j: usize = 0;
    while j < clusters.len()
        invariant
            j <= clusters@.len(),
            is_refit(cluster_views(clusters@).take(j as int), centroids@),
        decreases clusters@.len() - j,
    {
        let ghost before = centroids@;
        let ghost upto = cluster_views(clusters@).take(j + 1);
        proof {
            assert(upto.drop_last() == cluster_views(clusters@).take(j as int));
            assert(upto.last() == clusters@[j as int]@);
        }
        match calculate_centroid(clusters[j].as_slice()) {
            Some(c) => {
                centroids.push(c);
                proof {
                    assert(centroids@.drop_last() == before);
                }
            },
            None => {},
        }
        j += 1;
    }
    proof {
        assert(cluster_views(clusters@).take(clusters@.len() as int) == cluster_views(clusters@));
    }
    centroids
}

/// Whether two palettes hold the same colours in the same order.
pub fn same_palette(a: &Vec<Color>, b: &Vec<Color>) -> (same: bool)
    ensures
        same == (a@ == b@),
{
    if a.len() != b.len() {
        return false;
    }
    let mut i: usize = 0;
    while i < a.len()
        invariant
            i <= a@.len(),
            a@.len() == b@.len(),
            forall|t: int| 0 <= t < i ==> a@[t] == b@[t],
        decreases a@.len() - i,
    {
        if a[i] != b[i] {
            return false;
        }
        i += 1;
    }
    proof {
        assert(a@ =~= b@);
    }
    true
}

/// `k` colours, each drawn at random.
pub fn random_palette(k: usize) -> (palette: Vec<Color>)
    ensures
        palette@.len() == k,
{
    let mut palette: Vec<Color> = Vec::new();
    let mut j: usize = 0;
    while j < k
        invariant
            j <= k,
            palette@.len() == j,
        decreases k - j,
    {
        palette.push(rand_point());
        j += 1;
    }
    palette
}

/// One round: the centroids that follow `centroids` for `points` and `k`
/// buckets.
pub fn round(k: usize, points: &[Color], centroids: &Vec<Color>) -> (next: Vec<Color>)
    requires
        centroids@.len() <= k,
        points@.len() > 0 ==> centroids@.len() > 0,
    ensures
        is_refit(buckets(points@, centroids@, k as int), next@),
        next@.len() <= k,
        points@.len() > 0 ==> next@.len() > 0,
{
    let clusters = assign(points, centroids.as_slice(), k);
    let next = refit(&clusters);
    proof {
        let bs = buckets(points@, centroids@, k as int);
        lemma_refit_len(bs, next@);
        if points@.len() > 0 {
            let j = nearest_index(points@.last(), centroids@);
            lemma_nearest_exists(points@.last(), centroids@);
            assert(bs[j] == bucket(points@, centroids@, j));
            assert(bs[j].len() > 0);
        }
    }
    next
}

/// Clusters `points` into at most `k` colours from the centroids in `start`,
/// giving up after `max_rounds` rounds. Rounds are repeated until one
/// reproduces its centroids exactly.
pub fn k_means_from(k: usize, points: &[Color], start: Vec<Color>, max_rounds: usize) -> (c:
    Clustering)
    requires
        start@.len() <= k,
        points@.len() > 0 ==> start@.len() > 0,
    ensures
        is_clustering(k as int, points@, c),
        is_outcome(k as int, points@, start@, max_rounds as int, c.palette@, c.converged),
        max_rounds == 0 ==> !c.converged && c.palette@ == start@,
{
    let ghost origin = start@;
    let ghost mut chain: Seq<Seq<Color>> = seq![origin];
    let mut centroids = start;
    let mut converged = false;
    let mut rounds: usize = 0;
    while !converged && rounds < max_rounds
        invariant
            rounds <= max_rounds,
            centroids@.len() <= k,
            points@.len() > 0 ==> centroids@.len() > 0,
            converged ==> is_stable(k as int, points@, centroids@),
            is_walk(k as int, points@, chain),
            chain.len() == (if converged { rounds as int } else { rounds + 1 }),
            chain.len() >= 1,
            chain[0] == origin,
            chain.last() == centroids@,
        decreases max_rounds - rounds,
    {
        let next = round(k, points, &centroids);
        if same_palette(&next, &centroids) {
            converged = true;
        } else {
            proof {
                let longer = chain.push(next@);
                assert forall|i: int| 0 <= i < longer.len() - 1 implies is_refit(
                    buckets(points@, #[trigger] longer[i], k as int),
                    longer[i + 1],
                ) && longer[i + 1] != longer[i] by {
                    if i < chain.len() - 1 {
                        assert(longer[i] == chain[i] && longer[i + 1] == chain[i + 1]);
                    }
                }
                chain = longer;
            }
            centroids = next;
        }
        rounds += 1;
    }
    proof {
        assert(ends_walk(
            k as int,
            points@,
            origin,
            max_rounds as int,
            centroids@,
            converged,
            chain,
        ));
    }
    Clustering { palette: centroids, converged }
}

/// Clusters `points` into at most `k` colours, giving up after `max_rounds`
/// rounds. Starts from `k` random centroids. Refused when `k` is 0.
pub fn k_means_capped(k: usize, points: &[Color], max_rounds: usize) -> (res: Result<
    Clustering,
    QuantizeError,
>)
    ensures
        k == 0 <==> res == Err::<Clustering, QuantizeError>(QuantizeError::InvalidArgument),
        k > 0 <==> res is Ok,
        res matches Ok(c) ==> is_clustering(k as int, points@, c),
        res matches Ok(c) ==> is_outcome_of_k(
            k as int,
            points@,
            max_rounds as int,
            c.palette@,
            c.converged,
        ),
        res matches Ok(c) ==> max_rounds == 0 ==> !c.converged && c.palette@.len() == k,
{
    if k == 0 {
        return Err(QuantizeError::InvalidArgument);
    }
    let start = random_palette(k);
    let ghost origin = start@;
    let c = k_means_from(k, points, start, max_rounds);
    proof {
        assert(is_outcome(k as int, points@, origin, max_rounds as int, c.palette@, c.converged));
    }
    Ok(c)
}

/// Clusters `points` into at most `k` colours: rounds are repeated until one
/// reproduces its centroids exactly, or `usize::MAX` of them have passed.
pub fn k_means(k: usize, points: &[Color]) -> (res: Result<Vec<Color>, QuantizeError>)
    ensures
        k == 0 <==> res == Err::<Vec<Color>, QuantizeError>(QuantizeError::InvalidArgument),
        k > 0 <==> res is Ok,
        res matches Ok(palette) ==> is_palette_of(k as int, points@, palette@),
{
    match k_means_capped(k, points, usize::MAX) {
        Ok(c) => {
            proof {
                assert(is_outcome_of_k(
                    k as int,
                    points@,
                    usize::MAX as int,
                    c.palette@,
                    c.converged,
                ));
            }
            Ok(c.palette)
        },
        Err(e) => Err(e),
    }
}

} // verus!
