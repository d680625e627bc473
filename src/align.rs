//! Combining a foreign and a native track into one bilingual timeline.
//!
//! Every cue boundary of either track cuts the timeline; each piece between
//! two consecutive boundaries carries the text that each track shows there,
//! pieces where neither shows text are dropped, and neighbouring pieces that
//! touch and carry the same text are joined.
use vstd::prelude::*;

use crate::cue::{
    clone_lines, lines_view, same_lines, BilingualCue, BilingualFile, BilingualModel, Cue,
    CueModel, SubtitleFile,
};
use crate::time::Time;

verus! {

/// `c` shows text at time `t` (cues are half-open: `[start, end)`).
pub open spec fn covers(c: CueModel, t: nat) -> bool {
    c.start <= t < c.end && c.lines.len() > 0
}

/// The lines a track shows at `t`: those of the last cue that covers `t`, or none.
pub open spec fn active(cues: Seq<CueModel>, t: nat) -> Seq<Seq<char>>
    decreases cues.len(),
{
    if cues.len() == 0 {
        seq![]
    } else if covers(cues.last(), t) {
        cues.last().lines
    } else {
        active(cues.drop_last(), t)
    }
}

/// `t` is the start or the end of a cue of `cues`.
pub open spec fn is_boundary(cues: Seq<CueModel>, t: nat) -> bool {
    exists|i: int| 0 <= i < cues.len() && (cues[i].start == t || cues[i].end == t)
}

pub open spec fn strictly_increasing(s: Seq<nat>) -> bool {
    forall|i: int, j: int| 0 <= i < j < s.len() ==> s[i] < s[j]
}

/// `pts` lists every boundary of either track once, in increasing order.
pub open spec fn boundary_points(f: Seq<CueModel>, n: Seq<CueModel>, pts: Seq<nat>) -> bool {
    &&& strictly_increasing(pts)
    &&& forall|t: nat| #![trigger pts.contains(t)] #![trigger is_boundary(f, t)] #![trigger is_boundary(n, t)]
        pts.contains(t) <==> (is_boundary(f, t) || is_boundary(n, t))
}

/// Two strictly increasing sequences holding the same values are equal.
proof fn lemma_increasing_unique(a: Seq<nat>, b: Seq<nat>)
    requires
        strictly_increasing(a),
        strictly_increasing(b),
        forall|x: nat| a.contains(x) <==> b.contains(x),
    ensures
        a == b,
    decreases a.len() + b.len(),
{
    if a.len() == 0 || b.len() == 0 {
        if b.len() > 0 {
            assert(b.contains(b[0]));
        }
        if a.len() > 0 {
            assert(a.contains(a[0]));
        }
        assert(a =~= b);
    } else {
        let x = a.last();
        let y = b.last();
        assert(a.contains(x) && b.contains(y));
        let i = choose|i: int| 0 <= i < b.len() && b[i] == x;
        let j = choose|j: int| 0 <= j < a.len() && a[j] == y;
        if i < b.len() - 1 {
            assert(b[i] < b[b.len() - 1]);
            if j < a.len() - 1 {
                assert(a[j] < a[a.len() - 1]);
            }
        }
        if j < a.len() - 1 {
            assert(a[j] < a[a.len() - 1]);
        }
        assert(x == y);
        let a2 = a.drop_last();
        let b2 = b.drop_last();
        assert forall|z: nat| a2.contains(z) <==> b2.contains(z) by {
            if a2.contains(z) {
                let k = choose|k: int| 0 <= k < a2.len() && a2[k] == z;
                assert(a[k] < a[a.len() - 1]);
                assert(a.contains(z));
                let m = choose|m: int| 0 <= m < b.len() && b[m] == z;
                assert(m != b.len() - 1);
                assert(b2[m] == z);
            }
            if b2.contains(z) {
                let k = choose|k: int| 0 <= k < b2.len() && b2[k] == z;
                assert(b[k] < b[b.len() - 1]);
                assert(b.contains(z));
                let m = choose|m: int| 0 <= m < a.len() && a[m] == z;
                assert(m != a.len() - 1);
                assert(a2[m] == z);
            }
        }
        lemma_increasing_unique(a2, b2);
        assert(a =~= a2.push(x));
        assert(b =~= b2.push(y));
    }
}

/// The boundary points of two tracks are determined by the tracks, so the
/// combined timeline is too.
pub proof fn lemma_boundary_points_unique(f: Seq<CueModel>, n: Seq<CueModel>, p: Seq<nat>, q: Seq<nat>)
    requires
        boundary_points(f, n, p),
        boundary_points(f, n, q),
    ensures
        p == q,
        combined(f, n, p) == combined(f, n, q),
{
    assert forall|x: nat| p.contains(x) <==> q.contains(x) by {
        assert(p.contains(x) <==> (is_boundary(f, x) || is_boundary(n, x)));
        assert(q.contains(x) <==> (is_boundary(f, x) || is_boundary(n, x)));
    }
    lemma_increasing_unique(p, q);
}

/// One bilingual piece per pair of consecutive points, leaving out those
/// during which neither track shows text.
pub open spec fn pieces(f: Seq<CueModel>, n: Seq<CueModel>, pts: Seq<nat>) -> Seq<BilingualModel>
    decreases pts.len(),
{
    if pts.len() < 2 {
        seq![]
    } else {
        let k = pts.len() - 2;
        let prev = pieces(f, n, pts.drop_last());
        let a = active(f, pts[k]);
        let b = active(n, pts[k]);
        if a.len() == 0 && b.len() == 0 {
            prev
        } else {
            prev.push(BilingualModel { start: pts[k], end: pts[k + 1], foreign: a, native: b })
        }
    }
}

/// `x` starts where `p` ends and carries the same text.
pub open spec fn joinable(p: BilingualModel, x: BilingualModel) -> bool {
    p.end == x.start && p.foreign == x.foreign && p.native == x.native
}

/// `s` with each run of joinable neighbours joined into one piece.
pub open spec fn coalesce(s: Seq<BilingualModel>) -> Seq<BilingualModel>
    decreases s.len(),
{
    if s.len() == 0 {
        seq![]
    } else {
        let p = coalesce(s.drop_last());
        let x = s.last();
        if p.len() > 0 && joinable(p.last(), x) {
            p.update(
                p.len() - 1,
                BilingualModel { start: p.last().start, end: x.end, foreign: x.foreign, native: x.native },
            )
        } else {
            p.push(x)
        }
    }
}

/// Each piece is non-empty and ends no later than the next one starts.
pub open spec fn ordered_disjoint(s: Seq<BilingualModel>) -> bool {
    &&& forall|i: int| 0 <= i < s.len() ==> s[i].start < #[trigger] s[i].end
    &&& forall|i: int| 0 <= i < s.len() - 1 ==> #[trigger] s[i].end <= s[i + 1].start
}

/// No two neighbours could be joined.
pub open spec fn no_joinable_neighbours(s: Seq<BilingualModel>) -> bool {
    forall|i: int| 0 <= i < s.len() - 1 ==> !joinable(#[trigger] s[i], s[i + 1])
}

/// The combined timeline of `f` and `n` cut at `pts`.
pub open spec fn combined(f: Seq<CueModel>, n: Seq<CueModel>, pts: Seq<nat>) -> Seq<BilingualModel> {
    coalesce(pieces(f, n, pts))
}

proof fn lemma_pieces_ordered(f: Seq<CueModel>, n: Seq<CueModel>, pts: Seq<nat>)
    requires
        strictly_increasing(pts),
    ensures
        ordered_disjoint(pieces(f, n, pts)),
        pieces(f, n, pts).len() > 0 ==> pieces(f, n, pts).last().end <= pts.last(),
    decreases pts.len(),
{
    if pts.len() >= 2 {
        let q = pts.drop_last();
        lemma_pieces_ordered(f, n, q);
        let prev = pieces(f, n, q);
        if prev.len() > 0 {
            assert(prev.last().end <= q.last());
        }
    }
}

proof fn lemma_coalesce(s: Seq<BilingualModel>)
    requires
        ordered_disjoint(s),
    ensures
        ordered_disjoint(coalesce(s)),
        no_joinable_neighbours(coalesce(s)),
        coalesce(s).len() == 0 <==> s.len() == 0,
        s.len() > 0 ==> coalesce(s).last().end == s.last().end,
    decreases s.len(),
{
    if s.len() > 0 {
        let q = s.drop_last();
        assert(ordered_disjoint(q));
        lemma_coalesce(q);
        let p = coalesce(q);
        let r = coalesce(s);
        if p.len() > 0 {
            assert(p.last().end == q.last().end);
            assert(q.last().end <= s.last().start) by {
                assert(s[s.len() - 2].end <= s[s.len() - 1].start);
            }
        }
        if p.len() > 0 && joinable(p.last(), s.last()) {
            assert forall|i: int| 0 <= i < r.len() - 1 implies #[trigger] r[i].end <= r[i + 1].start by {
                if i + 1 < p.len() - 1 {
                    assert(p[i].end <= p[i + 1].start);
                } else {
                    assert(p[i].end <= p[i + 1].start);
                }
            }
            assert forall|i: int| 0 <= i < r.len() - 1 implies !joinable(#[trigger] r[i], r[i + 1]) by {
                assert(!joinable(p[i], p[i + 1]));
            }
        } else {
            assert forall|i: int| 0 <= i < r.len() - 1 implies #[trigger] r[i].end <= r[i + 1].start by {
                if i < p.len() - 1 {
                    assert(p[i].end <= p[i + 1].start);
                }
            }
            assert forall|i: int| 0 <= i < r.len() - 1 implies !joinable(#[trigger] r[i], r[i + 1]) by {
                if i < p.len() - 1 {
                    assert(!joinable(p[i], p[i + 1]));
                }
            }
        }
    }
}

/// Combining yields pieces that are non-empty, in increasing order and
/// disjoint, with no two touching pieces carrying the same text.
pub proof fn lemma_combined_ordered(f: Seq<CueModel>, n: Seq<CueModel>, pts: Seq<nat>)
    requires
        boundary_points(f, n, pts),
    ensures
        ordered_disjoint(combined(f, n, pts)),
        no_joinable_neighbours(combined(f, n, pts)),
{
    lemma_pieces_ordered(f, n, pts);
    lemma_coalesce(pieces(f, n, pts));
}

/// Some piece of `s` contains `t`.
pub open spec fn covered(s: Seq<BilingualModel>, t: nat) -> bool {
    exists|k: int| 0 <= k < s.len() && #[trigger] s[k].start <= t && t < s[k].end
}

/// Some cue of `cues` shows text at `t`.
pub open spec fn track_covers(cues: Seq<CueModel>, t: nat) -> bool {
    exists|i: int| 0 <= i < cues.len() && covers(#[trigger] cues[i], t)
}

proof fn lemma_active_nonempty(cues: Seq<CueModel>, t: nat)
    ensures
        active(cues, t).len() > 0 <==> track_covers(cues, t),
    decreases cues.len(),
{
    if cues.len() > 0 {
        let d = cues.drop_last();
        lemma_active_nonempty(d, t);
        if track_covers(cues, t) && !covers(cues.last(), t) {
            let i = choose|i: int| 0 <= i < cues.len() && covers(#[trigger] cues[i], t);
            assert(d[i] == cues[i]);
        }
        if track_covers(d, t) {
            let i = choose|i: int| 0 <= i < d.len() && covers(#[trigger] d[i], t);
            assert(cues[i] == d[i]);
        }
        if covers(cues.last(), t) {
            assert(covers(cues[cues.len() - 1], t));
        }
    }
}

/// A track shows the same text at `a` and at `t` when none of its cues
/// starts or ends in `(a, t]`.
proof fn lemma_active_steady(cues: Seq<CueModel>, a: nat, t: nat)
    requires
        a <= t,
        forall|i: int| 0 <= i < cues.len() ==> !(a < (#[trigger] cues[i]).start <= t) && !(a < cues[i].end <= t),
    ensures
        active(cues, a) == active(cues, t),
    decreases cues.len(),
{
    if cues.len() > 0 {
        let d = cues.drop_last();
        assert(forall|i: int| 0 <= i < d.len() ==> d[i] == cues[i]);
        lemma_active_steady(d, a, t);
        let c = cues[cues.len() - 1];
        assert(!(a < c.start <= t) && !(a < c.end <= t));
    }
}

proof fn lemma_pieces_coverage(f: Seq<CueModel>, n: Seq<CueModel>, pts: Seq<nat>, t: nat)
    ensures
        covered(pieces(f, n, pts), t) <==> exists|k: int| 0 <= k < pts.len() - 1 && #[trigger] pts[k] <= t && t
            < pts[k + 1] && (active(f, pts[k]).len() > 0 || active(n, pts[k]).len() > 0),
    decreases pts.len(),
{
    if pts.len() >= 2 {
        let q = pts.drop_last();
        lemma_pieces_coverage(f, n, q, t);
        let prev = pieces(f, n, q);
        let r = pieces(f, n, pts);
        let j = pts.len() - 2;
        if covered(r, t) {
            let k = choose|k: int| 0 <= k < r.len() && #[trigger] r[k].start <= t && t < r[k].end;
            if k < prev.len() {
                assert(prev[k] == r[k]);
                let m = choose|m: int| 0 <= m < q.len() - 1 && #[trigger] q[m] <= t && t < q[m + 1] && (active(f, q[m]).len() > 0 || active(n, q[m]).len() > 0);
                assert(pts[m] <= t);
            } else {
                assert(pts[j] <= t);
            }
        }
        if exists|k: int| 0 <= k < pts.len() - 1 && #[trigger] pts[k] <= t && t < pts[k + 1] && (active(f, pts[k]).len() > 0 || active(n, pts[k]).len() > 0) {
            let k = choose|k: int| 0 <= k < pts.len() - 1 && #[trigger] pts[k] <= t && t < pts[k + 1] && (active(f, pts[k]).len() > 0 || active(n, pts[k]).len() > 0);
            if k < j {
                assert(q[k] <= t);
                let m = choose|m: int| 0 <= m < prev.len() && #[trigger] prev[m].start <= t && t < prev[m].end;
                assert(r[m] == prev[m]);
            } else {
                assert(r[r.len() - 1].start <= t);
            }
        }
    }
}

proof fn lemma_coalesce_coverage(s: Seq<BilingualModel>, t: nat)
    requires
        ordered_disjoint(s),
    ensures
        covered(coalesce(s), t) <==> covered(s, t),
    decreases s.len(),
{
    if s.len() > 0 {
        let q = s.drop_last();
        assert(ordered_disjoint(q));
        lemma_coalesce_coverage(q, t);
        lemma_coalesce(q);
        let p = coalesce(q);
        let r = coalesce(s);
        let x = s.last();
        if covered(q, t) {
            let k = choose|k: int| 0 <= k < q.len() && #[trigger] q[k].start <= t && t < q[k].end;
            assert(s[k] == q[k]);
        }
        if covered(s, t) && !(x.start <= t && t < x.end) {
            let k = choose|k: int| 0 <= k < s.len() && #[trigger] s[k].start <= t && t < s[k].end;
            assert(q[k] == s[k]);
        }
        if x.start <= t && t < x.end {
            assert(s[s.len() - 1].start <= t);
        }
        if p.len() > 0 && joinable(p.last(), x) {
            if covered(p, t) {
                let k = choose|k: int| 0 <= k < p.len() && #[trigger] p[k].start <= t && t < p[k].end;
                if k == p.len() - 1 {
                    assert(r[k].start <= t);
                } else {
                    assert(r[k] == p[k]);
                }
            }
            if x.start <= t && t < x.end {
                assert(r[p.len() - 1].start <= t);
            }
            if covered(r, t) {
                let k = choose|k: int| 0 <= k < r.len() && #[trigger] r[k].start <= t && t < r[k].end;
                if k < p.len() - 1 {
                    assert(p[k] == r[k]);
                } else if t < p.last().end {
                    assert(p[p.len() - 1].start <= t);
                } else {
                    assert(x.start <= t);
                }
            }
        } else {
            if covered(p, t) {
                let k = choose|k: int| 0 <= k < p.len() && #[trigger] p[k].start <= t && t < p[k].end;
                assert(r[k] == p[k]);
            }
            if x.start <= t && t < x.end {
                assert(r[r.len() - 1].start <= t);
            }
            if covered(r, t) {
                let k = choose|k: int| 0 <= k < r.len() && #[trigger] r[k].start <= t && t < r[k].end;
                if k < p.len() {
                    assert(p[k] == r[k]);
                }
            }
        }
    }
}

/// The index `k` with `pts[k] <= t < pts[k + 1]`.
proof fn lemma_find_interval(pts: Seq<nat>, t: nat) -> (k: int)
    requires
        strictly_increasing(pts),
        pts.len() >= 2,
        pts[0] <= t < pts.last(),
    ensures
        0 <= k < pts.len() - 1,
        pts[k] <= t < pts[k + 1],
    decreases pts.len(),
{
    let j = pts.len() - 2;
    if pts[j] <= t {
        j
    } else {
        let q = pts.drop_last();
        lemma_find_interval(q, t)
    }
}

/// The interval of consecutive points that holds a time lying inside a cue
/// whose two ends are points.
proof fn lemma_interval_of_cue(pts: Seq<nat>, c: CueModel, t: nat) -> (k: int)
    requires
        strictly_increasing(pts),
        pts.contains(c.start),
        pts.contains(c.end),
        c.start <= t < c.end,
    ensures
        0 <= k < pts.len() - 1,
        pts[k] <= t < pts[k + 1],
{
    let a = choose|a: int| 0 <= a < pts.len() && pts[a] == c.start;
    let b = choose|b: int| 0 <= b < pts.len() && pts[b] == c.end;
    if a > 0 {
        assert(pts[0] < pts[a]);
    }
    if b < pts.len() - 1 {
        assert(pts[b] < pts[pts.len() - 1]);
    }
    if b <= a {
        if b < a {
            assert(pts[b] < pts[a]);
        }
    }
    lemma_find_interval(pts, t)
}

proof fn lemma_track_piece(f: Seq<CueModel>, n: Seq<CueModel>, pts: Seq<nat>, t: nat, side: Seq<CueModel>)
    requires
        boundary_points(f, n, pts),
        side == f || side == n,
        track_covers(side, t),
    ensures
        exists|k: int| 0 <= k < pts.len() - 1 && #[trigger] pts[k] <= t && t < pts[k + 1] && (active(f, pts[k]).len()
            > 0 || active(n, pts[k]).len() > 0),
{
    let i = choose|i: int| 0 <= i < side.len() && covers(#[trigger] side[i], t);
    let c = side[i];
    assert(is_boundary(side, c.start) && is_boundary(side, c.end));
    assert(pts.contains(c.start) && pts.contains(c.end));
    let k = lemma_interval_of_cue(pts, c, t);
    lemma_steady_between(f, n, pts, k, t);
    lemma_active_nonempty(side, t);
    assert(pts[k] <= t && t < pts[k + 1]);
}

/// A time lies in some combined piece exactly when a cue of either track
/// shows text at that time: combining gains and loses no covered time.
pub proof fn lemma_combined_coverage(f: Seq<CueModel>, n: Seq<CueModel>, pts: Seq<nat>, t: nat)
    requires
        boundary_points(f, n, pts),
    ensures
        covered(combined(f, n, pts), t) <==> (track_covers(f, t) || track_covers(n, t)),
{
    lemma_pieces_ordered(f, n, pts);
    lemma_coalesce_coverage(pieces(f, n, pts), t);
    lemma_pieces_coverage(f, n, pts, t);
    if track_covers(f, t) {
        lemma_track_piece(f, n, pts, t, f);
    }
    if track_covers(n, t) {
        lemma_track_piece(f, n, pts, t, n);
    }
    if covered(combined(f, n, pts), t) {
        let k = choose|k: int| 0 <= k < pts.len() - 1 && #[trigger] pts[k] <= t && t < pts[k + 1] && (active(f, pts[k]).len() > 0 || active(n, pts[k]).len() > 0);
        lemma_steady_between(f, n, pts, k, t);
        lemma_active_nonempty(f, t);
        lemma_active_nonempty(n, t);
    }
}

/// Between two consecutive points each track shows what it shows at the first.
proof fn lemma_steady_between(f: Seq<CueModel>, n: Seq<CueModel>, pts: Seq<nat>, k: int, t: nat)
    requires
        boundary_points(f, n, pts),
        0 <= k < pts.len() - 1,
        pts[k] <= t < pts[k + 1],
    ensures
        active(f, pts[k]) == active(f, t),
        active(n, pts[k]) == active(n, t),
{
    assert forall|x: nat| pts[k] < x <= t implies !pts.contains(x) by {
        if pts.contains(x) {
            let m = choose|m: int| 0 <= m < pts.len() && pts[m] == x;
            if m <= k {
                if m < k {
                    assert(pts[m] < pts[k]);
                }
            } else if m > k + 1 {
                assert(pts[k + 1] < pts[m]);
            }
        }
    }
    assert forall|i: int| 0 <= i < f.len() implies !(pts[k] < (#[trigger] f[i]).start <= t) && !(pts[k] < f[i].end <= t) by {
        assert(is_boundary(f, f[i].start) && is_boundary(f, f[i].end));
    }
    assert forall|i: int| 0 <= i < n.len() implies !(pts[k] < (#[trigger] n[i]).start <= t) && !(pts[k] < n[i].end <= t) by {
        assert(is_boundary(n, n[i].start) && is_boundary(n, n[i].end));
    }
    lemma_active_steady(f, pts[k], t);
    lemma_active_steady(n, pts[k], t);
}

/// The index of the last cue of `cues` that shows text at `t`.
fn active_index(cues: &Vec<Cue>, t: u64) -> (r: Option<usize>)
    ensures
        match r {
            Some(i) => i < cues@.len() && active(cues_models(cues@), t as nat) == cues@[i as int]@.lines
                && cues@[i as int]@.lines.len() > 0,
            None => active(cues_models(cues@), t as nat).len() == 0,
        },
{
    let ghost m = cues_models(cues@);
    let mut i: usize = cues.len();
    assert(m.subrange(0, i as int) =~= m);
    while i > 0
        invariant
            i <= cues@.len(),
            m == cues_models(cues@),
            active(m, t as nat) == active(m.subrange(0, i as int), t as nat),
        decreases i,
    {
        i = i - 1;
        let c = &cues[i];
        let ghost sub = m.subrange(0, i + 1);
        assert(sub.drop_last() =~= m.subrange(0, i as int));
        assert(sub.last() == cues@[i as int]@);
        if c.start.ms <= t && t < c.end.ms && c.lines.len() > 0 {
            return Some(i);
        }
    }
    None
}

/// The models of a sequence of cues.
pub open spec fn cues_models(v: Seq<Cue>) -> Seq<CueModel> {
    Seq::new(v.len(), |i: int| v[i]@)
}

/// The millisecond counts of `v`.
pub open spec fn nats(v: Seq<u64>) -> Seq<nat> {
    Seq::new(v.len(), |i: int| v[i] as nat)
}

/// Adds `t` to the strictly increasing `pts` unless it is there.
fn insert_point(pts: &mut Vec<u64>, t: u64)
    requires
        strictly_increasing(nats(old(pts)@)),
    ensures
        strictly_increasing(nats(final(pts)@)),
        forall|x: nat| nats(final(pts)@).contains(x) <==> (nats(old(pts)@).contains(x) || x == t),
{
    let ghost o = nats(pts@);
    let mut i: usize = 0;
    while i < pts.len() && pts[i] < t
        invariant
            i <= pts@.len(),
            pts@ == old(pts)@,
            forall|j: int| 0 <= j < i ==> pts@[j] < t,
        decreases pts@.len() - i,
    {
        i = i + 1;
    }
    if i < pts.len() && pts[i] == t {
        assert(o[i as int] == t);
        return;
    }
    assert forall|j: int| i <= j < o.len() implies o[j] > t by {
        if j > i {
            assert(o[i as int] < o[j]);
        }
    }
    pts.insert(i, t);
    let ghost nw = nats(pts@);
    assert(nw =~= o.insert(i as int, t as nat));
    assert forall|a: int, b: int| 0 <= a < b < nw.len() implies nw[a] < nw[b] by {
        if b < i {
            assert(o[a] < o[b]);
        } else if b == i {
            assert(o[a] < t);
        } else if a < i {
            assert(nw[b] == o[b - 1]);
            assert(o[a] < t);
        } else if a == i {
            assert(nw[b] == o[b - 1]);
        } else {
            assert(o[a - 1] < o[b - 1]);
        }
    }
    assert forall|x: nat| nw.contains(x) <==> (o.contains(x) || x == t) by {
        if nw.contains(x) {
            let k = choose|k: int| 0 <= k < nw.len() && nw[k] == x;
            if k < i {
                assert(o[k] == x);
            } else if k > i {
                assert(o[k - 1] == x);
            }
        }
        if o.contains(x) {
            let k = choose|k: int| 0 <= k < o.len() && o[k] == x;
            if k < i {
                assert(nw[k] == x);
            } else {
                assert(nw[k + 1] == x);
            }
        }
        if x == t {
            assert(nw[i as int] == x);
        }
    }
}

/// Adds every start and end of `file` to the strictly increasing `pts`.
fn add_boundaries(pts: &mut Vec<u64>, file: &SubtitleFile)
    requires
        strictly_increasing(nats(old(pts)@)),
    ensures
        strictly_increasing(nats(final(pts)@)),
        forall|x: nat| #![trigger nats(final(pts)@).contains(x)] #![trigger is_boundary(file@, x)]
            nats(final(pts)@).contains(x) <==> (nats(old(pts)@).contains(x) || is_boundary(file@, x)),
{
    let ghost o = nats((*pts)@);
    let mut i: usize = 0;
    while i < file.cues.len()
        invariant
            i <= file@.len(),
            strictly_increasing(nats((*pts)@)),
            forall|x: nat| nats((*pts)@).contains(x) <==> (o.contains(x) || is_boundary(file@.subrange(0, i as int), x)),
        decreases file@.len() - i,
    {
        let ghost p0 = nats((*pts)@);
        assert(forall|x: nat| p0.contains(x) <==> (o.contains(x) || is_boundary(file@.subrange(0, i as int), x)));
        insert_point(pts, file.cues[i].start.ms);
        let ghost p1 = nats((*pts)@);
        insert_point(pts, file.cues[i].end.ms);
        assert(file@[i as int] == file.cues@[i as int]@);
        proof {
            lemma_boundary_step(file@, i as int);
            let c = file@[i as int];
            assert forall|x: nat| nats((*pts)@).contains(x) <==> (o.contains(x)
                || is_boundary(file@.subrange(0, i + 1), x)) by {
                assert(nats((*pts)@).contains(x) <==> (p1.contains(x) || x == c.end));
                assert(p1.contains(x) <==> (p0.contains(x) || x == c.start));
                assert(p0.contains(x) <==> (o.contains(x) || is_boundary(file@.subrange(0, i as int), x)));
                assert(is_boundary(file@.subrange(0, i + 1), x) <==> (is_boundary(file@.subrange(0, i as int), x)
                    || x == c.start || x == c.end));
            }
        }
        i = i + 1;
    }
    assert(file@.subrange(0, file@.len() as int) =~= file@);
    assert forall|x: nat| nats((*pts)@).contains(x) <==> (o.contains(x) || is_boundary(file@, x)) by {
        assert(nats((*pts)@).contains(x) <==> (o.contains(x) || is_boundary(file@.subrange(0, i as int), x)));
    }
}

/// Every start and end of both tracks, once each, in increasing order.
pub fn boundaries(foreign: &SubtitleFile, native: &SubtitleFile) -> (r: Vec<u64>)
    ensures
        boundary_points(foreign@, native@, nats(r@)),
{
    let mut pts: Vec<u64> = Vec::new();
    assert(nats(pts@) =~= Seq::<nat>::empty());
    add_boundaries(&mut pts, foreign);
    let ghost p1 = nats(pts@);
    add_boundaries(&mut pts, native);
    assert forall|t: nat| nats(pts@).contains(t) <==> (is_boundary(foreign@, t) || is_boundary(native@, t)) by {
        assert(nats(pts@).contains(t) <==> (p1.contains(t) || is_boundary(native@, t)));
        assert(p1.contains(t) <==> (Seq::<nat>::empty().contains(t) || is_boundary(foreign@, t)));
    }
    pts
}

proof fn lemma_boundary_step(s: Seq<CueModel>, i: int)
    requires
        0 <= i < s.len(),
    ensures
        forall|x: nat| is_boundary(s.subrange(0, i + 1), x) <==> (is_boundary(s.subrange(0, i), x)
            || x == s[i].start || x == s[i].end),
{
    let a = s.subrange(0, i + 1);
    let b = s.subrange(0, i);
    assert forall|x: nat| is_boundary(a, x) <==> (is_boundary(b, x) || x == s[i].start || x == s[i].end) by {
        if is_boundary(a, x) {
            let k = choose|k: int| 0 <= k < a.len() && (a[k].start == x || a[k].end == x);
            if k < i {
                assert(b[k] == a[k]);
            }
        }
        if is_boundary(b, x) {
            let k = choose|k: int| 0 <= k < b.len() && (b[k].start == x || b[k].end == x);
            assert(a[k] == b[k]);
        }
        if x == s[i].start || x == s[i].end {
            assert(a[i] == s[i]);
        }
    }
}

/// The pieces of the timeline cut at `pts`, before joining.
fn cut(foreign: &SubtitleFile, native: &SubtitleFile, pts: &Vec<u64>) -> (r: Vec<BilingualCue>)
    ensures
        models(r@) == pieces(foreign@, native@, nats(pts@)),
{
    let mut out: Vec<BilingualCue> = Vec::new();
    if pts.len() < 2 {
        assert(models(out@) =~= Seq::<BilingualModel>::empty());
        return out;
    }
    let mut k: usize = 0;
    assert(nats(pts@).subrange(0, 1).len() < 2);
    assert(models(out@) =~= pieces(foreign@, native@, nats(pts@).subrange(0, 1)));
    while k < pts.len() - 1
        invariant
            2 <= pts@.len(),
            k < pts@.len(),
            models(out@) == pieces(foreign@, native@, nats(pts@).subrange(0, k + 1)),
        decreases pts@.len() - k,
    {
        let t = pts[k];
        let a = active_index(&foreign.cues, t);
        let b = active_index(&native.cues, t);
        let ghost q = nats(pts@).subrange(0, k + 2);
        assert(q.drop_last() =~= nats(pts@).subrange(0, k + 1));
        assert(foreign@ == cues_models(foreign.cues@));
        assert(native@ == cues_models(native.cues@));
        if a.is_some() || b.is_some() {
            let foreign_lines = match a {
                Some(i) => clone_lines(&foreign.cues[i].lines),
                None => Vec::new(),
            };
            let native_lines = match b {
                Some(i) => clone_lines(&native.cues[i].lines),
                None => Vec::new(),
            };
            assert(lines_view(foreign_lines@) == active(foreign@, t as nat)) by {
                if a.is_none() {
                    assert(lines_view(foreign_lines@) =~= Seq::<Seq<char>>::empty());
                }
            }
            assert(lines_view(native_lines@) == active(native@, t as nat)) by {
                if b.is_none() {
                    assert(lines_view(native_lines@) =~= Seq::<Seq<char>>::empty());
                }
            }
            let ghost before = out@;
            out.push(BilingualCue {
                start: Time { ms: t },
                end: Time { ms: pts[k + 1] },
                foreign_lines,
                native_lines,
            });
            assert(models(out@) =~= models(before).push(out@.last()@));
        }
        k = k + 1;
    }
    assert(nats(pts@).subrange(0, k + 1) =~= nats(pts@));
    out
}

/// The models of a sequence of bilingual cues.
pub open spec fn models(v: Seq<BilingualCue>) -> Seq<BilingualModel> {
    Seq::new(v.len(), |i: int| v[i]@)
}

/// Joins each run of touching pieces that carry the same text.
fn join(raw: Vec<BilingualCue>) -> (r: Vec<BilingualCue>)
    ensures
        models(r@) == coalesce(models(raw@)),
{
    let mut out: Vec<BilingualCue> = Vec::new();
    let mut rest = raw;
    let ghost all = models(rest@);
    let mut taken: Vec<BilingualCue> = Vec::new();
    let mut i: usize = 0;
    assert(models(out@) =~= coalesce(all.subrange(0, 0)));
    while i < rest.len()
        invariant
            i <= rest@.len(),
            all == models(rest@),
            models(out@) == coalesce(all.subrange(0, i as int)),
        decreases rest@.len() - i,
    {
        let ghost sub = all.subrange(0, i + 1);
        assert(sub.drop_last() =~= all.subrange(0, i as int));
        let x = &rest[i];
        let n = out.len();
        if n > 0 && out[n - 1].end.ms == x.start.ms && same_lines(&out[n - 1].foreign_lines, &x.foreign_lines)
            && same_lines(&out[n - 1].native_lines, &x.native_lines) {
            let ghost before = models(out@);
            let last = out.pop().unwrap();
            out.push(BilingualCue {
                start: last.start,
                end: x.end,
                foreign_lines: last.foreign_lines,
                native_lines: last.native_lines,
            });
            assert(models(out@) =~= before.update(
                before.len() - 1,
                BilingualModel { start: before.last().start, end: x@.end, foreign: x@.foreign, native: x@.native },
            ));
        } else {
            let ghost before = models(out@);
            out.push(BilingualCue {
                start: x.start,
                end: x.end,
                foreign_lines: clone_lines(&x.foreign_lines),
                native_lines: clone_lines(&x.native_lines),
            });
            assert(models(out@) =~= before.push(x@));
        }
        i = i + 1;
    }
    assert(all.subrange(0, i as int) =~= all);
    out
}

/// The cues of one track re-emitted as bilingual cues, the other side empty.
pub open spec fn one_sided(cues: Seq<CueModel>, foreign_side: bool) -> Seq<BilingualModel> {
    Seq::new(
        cues.len(),
        |i: int|
            BilingualModel {
                start: cues[i].start,
                end: cues[i].end,
                foreign: if foreign_side { cues[i].lines } else { seq![] },
                native: if foreign_side { seq![] } else { cues[i].lines },
            },
    )
}

/// `r` is the combination of `f` and `n`: when one track is empty, the other
/// re-emitted as it is; otherwise the timeline cut at the boundary points.
pub open spec fn combines(f: Seq<CueModel>, n: Seq<CueModel>, r: Seq<BilingualModel>) -> bool {
    if n.len() == 0 {
        r == one_sided(f, true)
    } else if f.len() == 0 {
        r == one_sided(n, false)
    } else {
        exists|pts: Seq<nat>| #[trigger] boundary_points(f, n, pts) && r == combined(f, n, pts)
    }
}

/// Re-emits the cues of one track as bilingual cues.
fn re_emit(file: &SubtitleFile, foreign_side: bool) -> (r: Vec<BilingualCue>)
    ensures
        models(r@) == one_sided(file@, foreign_side),
{
    let mut out: Vec<BilingualCue> = Vec::new();
    let mut i: usize = 0;
    while i < file.cues.len()
        invariant
            i <= file@.len(),
            out@.len() == i,
            forall|j: int| 0 <= j < i ==> (#[trigger] out@[j])@ == one_sided(file@, foreign_side)[j],
        decreases file@.len() - i,
    {
        let c = &file.cues[i];
        assert(file@[i as int] == c@);
        let text = clone_lines(&c.lines);
        let none: Vec<String> = Vec::new();
        assert(lines_view(none@) =~= Seq::<Seq<char>>::empty());
        let b = if foreign_side {
            BilingualCue { start: c.start, end: c.end, foreign_lines: text, native_lines: none }
        } else {
            BilingualCue { start: c.start, end: c.end, foreign_lines: none, native_lines: text }
        };
        out.push(b);
        i = i + 1;
    }
    assert(models(out@) =~= one_sided(file@, foreign_side));
    out
}

/// Combines a foreign and a native track into one bilingual timeline.
///
/// When one track is empty, the other is re-emitted cue by cue. Otherwise the
/// result is the timeline cut at every boundary of either track, each piece
/// carrying the text that each track shows during it, with pieces where
/// neither shows text left out and touching pieces with the same text joined.
pub fn combine_files(foreign: &SubtitleFile, native: &SubtitleFile) -> (r: BilingualFile)
    ensures
        combines(foreign@, native@, r@),
        foreign@.len() > 0 && native@.len() > 0 ==> {
            &&& ordered_disjoint(r@)
            &&& no_joinable_neighbours(r@)
            &&& forall|t: nat| #[trigger] covered(r@, t) <==> (track_covers(foreign@, t) || track_covers(native@, t))
        },
{
    if native.cues.len() == 0 {
        let r = BilingualFile { cues: re_emit(foreign, true) };
        assert(r@ =~= models(r.cues@));
        return r;
    }
    if foreign.cues.len() == 0 {
        let r = BilingualFile { cues: re_emit(native, false) };
        assert(r@ =~= models(r.cues@));
        return r;
    }
    let pts = boundaries(foreign, native);
    let raw = cut(foreign, native, &pts);
    let cues = join(raw);
    let r = BilingualFile { cues };
    proof {
        assert(r@ =~= models(r.cues@));
        lemma_combined_ordered(foreign@, native@, nats(pts@));
        assert forall|t: nat| #[trigger] covered(r@, t) <==> (track_covers(foreign@, t) || track_covers(native@, t)) by {
            lemma_combined_coverage(foreign@, native@, nats(pts@), t);
        }
    }
    r
}

} // verus!
