use vstd::prelude::*;
use crate::fingerprint::{Feature, hamming, lemma_distance_bound};
use crate::score::{Fraction, score_lt};
use crate::search::DatabaseConfiguration;

verus! {

/// A partial alignment: the query step it was seeded at and the key
/// positions it has visited, one per query step.
#[derive(Debug)]
pub struct Beam {
    pub query_start: usize,
    pub path: Vec<usize>,
}

impl Beam {
    /// The key position the beam started at.
    pub fn key_start(&self) -> (r: usize)
        requires
            self.path@.len() > 0,
        ensures
            r == self.path@[0],
    {
        self.path[0]
    }

    /// The key position the beam has reached.
    pub fn key_end(&self) -> (r: usize)
        requires
            self.path@.len() > 0,
        ensures
            r == self.path@.last(),
    {
        self.path[self.path.len() - 1]
    }
}

/// The mathematical value of a scored beam.
pub struct ScoredBeam {
    pub score: Fraction,
    pub query_start: usize,
    pub path: Seq<usize>,
}

/// The mathematical value of an executable scored beam.
pub open spec fn scored_view(e: (Fraction, Beam)) -> ScoredBeam {
    ScoredBeam { score: e.0, query_start: e.1.query_start, path: e.1.path@ }
}

/// The mathematical value of a key's beams.
pub open spec fn beams_view(v: Seq<(Fraction, Beam)>) -> Seq<ScoredBeam> {
    v.map_values(|e: (Fraction, Beam)| scored_view(e))
}

/// The Hamming distance from `f` to every fingerprint of a key.
pub open spec fn key_distances(f: u64, key: Seq<Feature>) -> Seq<nat> {
    key.map_values(|k: Feature| hamming(f, k.0))
}

/// Index of the smallest distance in `[lo, hi)`, the lowest index among equals.
pub open spec fn nearest(dist: Seq<nat>, lo: int, hi: int) -> int
    decreases hi - lo,
{
    if hi <= lo + 1 {
        lo
    } else {
        let r = nearest(dist, lo, hi - 1);
        if dist[hi - 1] < dist[r] {
            hi - 1
        } else {
            r
        }
    }
}

/// A beam carried one query step further: it moves to the nearest of the next
/// `ws` key positions, or ends where the key has none left.
pub open spec fn extend(b: ScoredBeam, dist: Seq<nat>, ws: nat) -> Option<ScoredBeam> {
    let start = b.path.last() + 1;
    let end = if start + ws < dist.len() { start + ws } else { dist.len() as int };
    if start < end {
        let j = nearest(dist, start, end);
        Some(
            ScoredBeam {
                score: Fraction { n: (b.score.n + dist[j]) as u32, d: (b.score.d + 1) as u32 },
                query_start: b.query_start,
                path: b.path.push(j as usize),
            },
        )
    } else {
        None
    }
}

/// Puts a candidate at its end position unless a strictly better one is there.
pub open spec fn place(t: Seq<Option<ScoredBeam>>, c: ScoredBeam) -> Seq<Option<ScoredBeam>> {
    let e = c.path.last() as int;
    match t[e] {
        Some(o) => if score_lt(c.score, o.score) {
            t.update(e, Some(c))
        } else {
            t
        },
        None => t.update(e, Some(c)),
    }
}

/// The recombination table after extending `old`, last beam first.
pub open spec fn extended_table(old: Seq<ScoredBeam>, dist: Seq<nat>, ws: nat) -> Seq<Option<ScoredBeam>>
    decreases old.len(),
{
    if old.len() == 0 {
        Seq::new(dist.len(), |j: int| None)
    } else {
        let t = extended_table(old.drop_first(), dist, ws);
        match extend(old[0], dist, ws) {
            Some(c) => place(t, c),
            None => t,
        }
    }
}

/// The fresh beam rooted at key position `j`.
pub open spec fn seed(j: int, dist: Seq<nat>, head: usize, cfg: DatabaseConfiguration) -> ScoredBeam {
    ScoredBeam {
        score: Fraction {
            n: (cfg.search_score_penalty + dist[j]) as u32,
            d: (cfg.search_length_penalty + 1) as u32,
        },
        query_start: head,
        path: seq![j as usize],
    }
}

/// The winner at end position `j`: the extended beam there, unless the seed is
/// strictly better.
pub open spec fn candidate(slot: Option<ScoredBeam>, s: ScoredBeam) -> ScoredBeam {
    match slot {
        Some(o) => if score_lt(s.score, o.score) {
            s
        } else {
            o
        },
        None => s,
    }
}

/// One candidate per key position, after extension and seeding.
pub open spec fn candidates(
    old: Seq<ScoredBeam>,
    dist: Seq<nat>,
    head: usize,
    cfg: DatabaseConfiguration,
) -> Seq<ScoredBeam> {
    let t = extended_table(old, dist, cfg.search_window_size as nat);
    Seq::new(dist.len(), |j: int| candidate(t[j], seed(j, dist, head, cfg)))
}

/// Candidate `i` ranks before candidate `j`: smaller score, or an equal score at
/// a lower position.
pub open spec fn ranks_before(c: Seq<ScoredBeam>, i: int, j: int) -> bool {
    score_lt(c[i].score, c[j].score) || (!score_lt(c[j].score, c[i].score) && i < j)
}

/// How many of the first `k` candidates rank before candidate `j`.
pub open spec fn count_before(c: Seq<ScoredBeam>, j: int, k: int) -> nat
    decreases k,
{
    if k <= 0 {
        0
    } else {
        count_before(c, j, k - 1) + (if ranks_before(c, k - 1, j) { 1nat } else { 0nat })
    }
}

/// The rank of candidate `j` among all candidates, 0 for the best.
pub open spec fn rank(c: Seq<ScoredBeam>, j: int) -> nat {
    count_before(c, j, c.len() as int)
}

/// The first `k` candidates that survive trimming to `count` beams, in key order.
pub open spec fn kept(c: Seq<ScoredBeam>, count: nat, k: int) -> Seq<ScoredBeam>
    decreases k,
{
    if k <= 0 {
        Seq::empty()
    } else {
        let s = kept(c, count, k - 1);
        if rank(c, k - 1) < count && s.len() < count {
            s.push(c[k - 1])
        } else {
            s
        }
    }
}

/// The beams of one key after one query step.
pub open spec fn step_beams(
    old: Seq<ScoredBeam>,
    key: Seq<Feature>,
    f: u64,
    head: usize,
    cfg: DatabaseConfiguration,
) -> Seq<ScoredBeam> {
    let c = candidates(old, key_distances(f, key), head, cfg);
    kept(c, cfg.search_beam_count as nat, c.len() as int)
}


/// The distances as mathematical integers.
pub open spec fn nat_seq(s: Seq<u32>) -> Seq<nat> {
    s.map_values(|x: u32| x as nat)
}

/// The mathematical value of a recombination table entry.
pub open spec fn slot_view(o: Option<(Fraction, Beam)>) -> Option<ScoredBeam> {
    match o {
        Some(e) => Some(scored_view(e)),
        None => None,
    }
}

/// The mathematical value of a recombination table.
pub open spec fn table_view(t: Seq<Option<(Fraction, Beam)>>) -> Seq<Option<ScoredBeam>> {
    t.map_values(|o: Option<(Fraction, Beam)>| slot_view(o))
}

/// Key positions strictly increase along the path.
pub open spec fn strictly_increasing(p: Seq<usize>) -> bool {
    forall|i: int, j: int| 0 <= i < j < p.len() ==> p[i] < p[j]
}

/// A beam over a key of `len` fingerprints, alive after `head` query steps.
pub open spec fn beam_wf(b: ScoredBeam, len: nat, head: nat, cfg: DatabaseConfiguration) -> bool {
    &&& b.path.len() > 0
    &&& strictly_increasing(b.path)
    &&& b.path.last() < len
    &&& b.query_start + b.path.len() == head
    &&& b.score.d == cfg.search_length_penalty + b.path.len()
    &&& b.score.n <= cfg.search_score_penalty + 64 * b.path.len()
}

/// The beams of one key: each well formed, at most the beam count of them, in
/// strictly increasing order of their end positions.
pub open spec fn beams_wf(bs: Seq<ScoredBeam>, len: nat, head: nat, cfg: DatabaseConfiguration) -> bool {
    &&& bs.len() <= cfg.search_beam_count
    &&& forall|i: int| 0 <= i < bs.len() ==> beam_wf(#[trigger] bs[i], len, head, cfg)
    &&& forall|i: int, j: int| 0 <= i < j < bs.len() ==> bs[i].path.last() < bs[j].path.last()
}

/// Scores stay within 32 bits through the next query step.
pub open spec fn step_fits(head: nat, cfg: DatabaseConfiguration) -> bool {
    &&& cfg.search_score_penalty + 64 * (head + 1) <= u32::MAX
    &&& cfg.search_length_penalty + head + 1 <= u32::MAX
}

/// Every entry of a table sits at its own end position.
pub open spec fn table_wf(t: Seq<Option<ScoredBeam>>, head: nat, cfg: DatabaseConfiguration) -> bool {
    forall|e: int| 0 <= e < t.len() ==> match #[trigger] t[e] {
        Some(b) => beam_wf(b, t.len(), head, cfg) && b.path.last() == e,
        None => true,
    }
}

pub(crate) proof fn lemma_nearest_range(dist: Seq<nat>, lo: int, hi: int)
    requires
        lo < hi,
    ensures
        lo <= nearest(dist, lo, hi) < hi,
    decreases hi - lo,
{
    if hi > lo + 1 {
        lemma_nearest_range(dist, lo, hi - 1);
    }
}

pub(crate) proof fn lemma_extend_wf(b: ScoredBeam, dist: Seq<nat>, ws: nat, head: nat, cfg: DatabaseConfiguration)
    requires
        beam_wf(b, dist.len(), head, cfg),
        step_fits(head, cfg),
        forall|i: int| 0 <= i < dist.len() ==> dist[i] <= 64,
        dist.len() <= usize::MAX,
    ensures
        extend(b, dist, ws) matches Some(c) ==> beam_wf(c, dist.len(), head + 1, cfg),
{
    let start = b.path.last() + 1;
    let end = if start + ws < dist.len() { start + ws } else { dist.len() as int };
    if start < end {
        lemma_nearest_range(dist, start, end);
        let j = nearest(dist, start, end);
        let c = extend(b, dist, ws)->Some_0;
        assert(c.path =~= b.path.push(j as usize));
        assert forall|x: int, y: int| 0 <= x < y < c.path.len() implies c.path[x] < c.path[y] by {
            if y == c.path.len() - 1 {
                assert(c.path[y] == j);
                if x < b.path.len() - 1 {
                    assert(b.path[x] < b.path[b.path.len() - 1]);
                }
            }
        }
        assert(b.path.len() <= head);
    }
}

proof fn lemma_place_wf(t: Seq<Option<ScoredBeam>>, c: ScoredBeam, head: nat, cfg: DatabaseConfiguration)
    requires
        table_wf(t, head, cfg),
        beam_wf(c, t.len(), head, cfg),
    ensures
        table_wf(place(t, c), head, cfg),
        place(t, c).len() == t.len(),
{
}

proof fn lemma_extended_table_wf(old: Seq<ScoredBeam>, dist: Seq<nat>, ws: nat, head: nat, cfg: DatabaseConfiguration)
    requires
        forall|i: int| 0 <= i < old.len() ==> beam_wf(#[trigger] old[i], dist.len(), head, cfg),
        step_fits(head, cfg),
        forall|i: int| 0 <= i < dist.len() ==> dist[i] <= 64,
        dist.len() <= usize::MAX,
    ensures
        extended_table(old, dist, ws).len() == dist.len(),
        table_wf(extended_table(old, dist, ws), head + 1, cfg),
    decreases old.len(),
{
    if old.len() > 0 {
        let rest = old.drop_first();
        assert forall|i: int| 0 <= i < rest.len() implies beam_wf(#[trigger] rest[i], dist.len(), head, cfg) by {
            assert(rest[i] == old[i + 1]);
        }
        lemma_extended_table_wf(rest, dist, ws, head, cfg);
        lemma_extend_wf(old[0], dist, ws, head, cfg);
        if let Some(c) = extend(old[0], dist, ws) {
            lemma_place_wf(extended_table(rest, dist, ws), c, head + 1, cfg);
        }
    }
}

pub(crate) proof fn lemma_candidates_wf(old: Seq<ScoredBeam>, dist: Seq<nat>, head: usize, cfg: DatabaseConfiguration)
    requires
        forall|i: int| 0 <= i < old.len() ==> beam_wf(#[trigger] old[i], dist.len(), head as nat, cfg),
        step_fits(head as nat, cfg),
        forall|i: int| 0 <= i < dist.len() ==> dist[i] <= 64,
        dist.len() <= usize::MAX,
    ensures
        candidates(old, dist, head, cfg).len() == dist.len(),
        forall|j: int| 0 <= j < dist.len() ==> {
            let c = #[trigger] candidates(old, dist, head, cfg)[j];
            beam_wf(c, dist.len(), (head + 1) as nat, cfg) && c.path.last() == j
        },
{
    let ws = cfg.search_window_size as nat;
    lemma_extended_table_wf(old, dist, ws, head as nat, cfg);
    let t = extended_table(old, dist, ws);
    assert forall|j: int| 0 <= j < dist.len() implies {
        let c = #[trigger] candidates(old, dist, head, cfg)[j];
        beam_wf(c, dist.len(), (head + 1) as nat, cfg) && c.path.last() == j
    } by {
        let s = seed(j, dist, head, cfg);
        assert(s.path.len() == 1);
        assert(beam_wf(s, dist.len(), (head + 1) as nat, cfg));
        assert(table_wf(t, (head + 1) as nat, cfg));
        match t[j] {
            Some(o) => {},
            None => {},
        }
    }
}

proof fn lemma_count_before_bound(c: Seq<ScoredBeam>, j: int, k: int)
    requires
        0 <= j < c.len(),
        0 <= k <= c.len(),
    ensures
        count_before(c, j, k) + (if j < k { 1nat } else { 0nat }) <= k,
    decreases k,
{
    if k > 0 {
        lemma_count_before_bound(c, j, k - 1);
    }
}

pub(crate) proof fn lemma_kept_props(c: Seq<ScoredBeam>, count: nat, k: int)
    requires
        0 <= k <= c.len(),
        forall|j: int| 0 <= j < c.len() ==> (#[trigger] c[j]).path.last() == j,
    ensures
        kept(c, count, k).len() <= count,
        kept(c, count, k).len() <= k,
        forall|i: int| 0 <= i < kept(c, count, k).len() ==> exists|j: int|
            0 <= j < k && #[trigger] kept(c, count, k)[i] == c[j],
        forall|i: int, l: int| 0 <= i < l < kept(c, count, k).len() ==>
            kept(c, count, k)[i].path.last() < kept(c, count, k)[l].path.last(),
        forall|i: int| 0 <= i < kept(c, count, k).len() ==> kept(c, count, k)[i].path.last() < k,
    decreases k,
{
    if k > 0 {
        lemma_kept_props(c, count, k - 1);
        let s = kept(c, count, k - 1);
        if rank(c, k - 1) < count && s.len() < count {
            let t = s.push(c[k - 1]);
            assert(kept(c, count, k) == t);
            assert forall|i: int| 0 <= i < t.len() implies exists|j: int| 0 <= j < k && #[trigger] t[i] == c[j] by {
                if i < s.len() {
                    let j = choose|j: int| 0 <= j < k - 1 && s[i] == c[j];
                    assert(t[i] == c[j]);
                } else {
                    assert(t[i] == c[k - 1]);
                }
            }
        } else {
            assert forall|i: int| 0 <= i < s.len() implies exists|j: int| 0 <= j < k && #[trigger] s[i] == c[j] by {
                let j = choose|j: int| 0 <= j < k - 1 && s[i] == c[j];
                assert(s[i] == c[j]);
            }
        }
    }
}

proof fn lemma_kept_all(c: Seq<ScoredBeam>, count: nat, k: int)
    requires
        0 <= k <= c.len(),
        c.len() <= count,
    ensures
        kept(c, count, k) == c.take(k),
    decreases k,
{
    if k > 0 {
        lemma_kept_all(c, count, k - 1);
        lemma_count_before_bound(c, k - 1, c.len() as int);
        assert(c.take(k) =~= c.take(k - 1).push(c[k - 1]));
    }
}

/// The beams of one key stay well formed through a query step.
pub(crate) proof fn lemma_step_wf(old: Seq<ScoredBeam>, key: Seq<Feature>, f: u64, head: usize, cfg: DatabaseConfiguration)
    requires
        beams_wf(old, key.len(), head as nat, cfg),
        step_fits(head as nat, cfg),
        key.len() <= usize::MAX,
    ensures
        beams_wf(step_beams(old, key, f, head, cfg), key.len(), (head + 1) as nat, cfg),
{
    let dist = key_distances(f, key);
    assert forall|i: int| 0 <= i < dist.len() implies dist[i] <= 64 by {
        lemma_distance_bound(f, key[i].0);
    }
    lemma_candidates_wf(old, dist, head, cfg);
    let c = candidates(old, dist, head, cfg);
    lemma_kept_props(c, cfg.search_beam_count as nat, c.len() as int);
    let r = kept(c, cfg.search_beam_count as nat, c.len() as int);
    assert forall|i: int| 0 <= i < r.len() implies beam_wf(#[trigger] r[i], key.len(), (head + 1) as nat, cfg) by {
        let j = choose|j: int| 0 <= j < c.len() && r[i] == c[j];
    }
}


/// Carries one beam a query step further over the distances of its key.
fn extend_beam(score: Fraction, beam: Beam, dist: &Vec<u32>, ws: usize) -> (r: Option<(Fraction, Beam)>)
    requires
        beam.path@.len() > 0,
        beam.path@.last() < dist@.len(),
        score.n + 64 <= u32::MAX,
        score.d + 1 <= u32::MAX,
        forall|i: int| 0 <= i < dist@.len() ==> dist@[i] <= 64,
    ensures
        slot_view(r) == extend(scored_view((score, beam)), nat_seq(dist@), ws as nat),
{
    let ghost b = scored_view((score, beam));
    let ghost dv = nat_seq(dist@);
    let len = dist.len();
    let start = beam.key_end() + 1;
    if start >= len {
        return None;
    }
    let end = if ws < len - start {
        start + ws
    } else {
        len
    };
    if start >= end {
        return None;
    }
    let mut best: usize = start;
    let mut k: usize = start + 1;
    while k < end
        invariant
            start < k <= end <= len,
            len == dist@.len(),
            dv == nat_seq(dist@),
            start <= best < k,
            best == nearest(dv, start as int, k as int),
        decreases end - k,
    {
        if dist[k] < dist[best] {
            best = k;
        }
        k = k + 1;
    }
    let mut beam = beam;
    beam.path.push(best);
    let next = Fraction { n: score.n + dist[best], d: score.d + 1 };
    let r = Some((next, beam));
    proof {
        assert(scored_view((next, beam)).path =~= b.path.push(best));
    }
    r
}

/// Puts a candidate into the recombination table at its end position, unless
/// a strictly better one is there.
fn place_in(table: &mut Vec<Option<(Fraction, Beam)>>, score: Fraction, beam: Beam)
    requires
        beam.path@.len() > 0,
        beam.path@.last() < old(table)@.len(),
    ensures
        table_view(final(table)@) == place(table_view(old(table)@), scored_view((score, beam))),
        final(table)@.len() == old(table)@.len(),
{
    let e = beam.key_end();
    let replace = match &table[e] {
        Some(o) => score.less_than(&o.0),
        None => true,
    };
    let ghost before = table_view(table@);
    if replace {
        table[e] = Some((score, beam));
        proof {
            assert(table_view(table@) =~= before.update(e as int, Some(scored_view((score, beam)))));
        }
    }
}


/// Keeps the candidates whose rank is below `count`, in key order.
fn trim(cands: Vec<(Fraction, Beam)>, count: usize) -> (r: Vec<(Fraction, Beam)>)
    ensures
        beams_view(r@) == kept(beams_view(cands@), count as nat, cands@.len() as int),
{
    let ghost cv = beams_view(cands@);
    let len = cands.len();
    if len <= count {
        proof {
            lemma_kept_all(cv, count as nat, len as int);
            assert(cv.take(len as int) =~= cv);
        }
        return cands;
    }
    let mut cands = cands;
    let mut out: Vec<(Fraction, Beam)> = Vec::new();
    let mut j: usize = 0;
    while j < len
        invariant
            j <= len,
            len == cands@.len(),
            cv.len() == len,
            forall|x: int| j <= x < len ==> scored_view(#[trigger] cands@[x]) == cv[x],
            forall|x: int| 0 <= x < len ==> (#[trigger] cands@[x]).0 == cv[x].score,
            beams_view(out@) == kept(cv, count as nat, j as int),
        decreases len - j,
    {
        let mut r: usize = 0;
        let mut i: usize = 0;
        while i < len
            invariant
                i <= len,
                j < len,
                len == cands@.len(),
                cv.len() == len,
                forall|x: int| 0 <= x < len ==> (#[trigger] cands@[x]).0 == cv[x].score,
                r == count_before(cv, j as int, i as int),
                r <= i,
            decreases len - i,
        {
            let a = cands[i].0;
            let b = cands[j].0;
            if a.less_than(&b) || (!b.less_than(&a) && i < j) {
                r = r + 1;
            }
            i = i + 1;
        }
        if r < count && out.len() < count {
            let mut e = (cands[j].0, Beam { query_start: 0, path: Vec::new() });
            std::mem::swap(&mut cands[j], &mut e);
            let ghost prev = beams_view(out@);
            out.push(e);
            proof {
                assert(beams_view(out@) =~= prev.push(cv[j as int]));
            }
        }
        j = j + 1;
    }
    out
}


/// One query step over one key: extend the live beams, seed a beam at every
/// key position, keep the best candidate per end position, and trim to the
/// beam count.
pub(crate) fn step_key(
    beams: Vec<(Fraction, Beam)>,
    key: &Vec<Feature>,
    feature: Feature,
    head: usize,
    cfg: &DatabaseConfiguration,
) -> (r: Vec<(Fraction, Beam)>)
    requires
        beams_wf(beams_view(beams@), key@.len(), head as nat, *cfg),
        step_fits(head as nat, *cfg),
    ensures
        beams_view(r@) == step_beams(beams_view(beams@), key@, feature.0, head, *cfg),
        beams_wf(beams_view(r@), key@.len(), (head + 1) as nat, *cfg),
{
    let ghost oldv = beams_view(beams@);
    let ghost dv = key_distances(feature.0, key@);
    let ghost ws = cfg.search_window_size as nat;
    let len = key.len();
    proof {
        lemma_step_wf(oldv, key@, feature.0, head, *cfg);
        assert forall|i: int| 0 <= i < dv.len() implies dv[i] <= 64 by {
            lemma_distance_bound(feature.0, key@[i].0);
        }
        lemma_extended_table_wf(oldv, dv, ws, head as nat, *cfg);
    }

    // distances from the new fingerprint to every key fingerprint
    let mut dist: Vec<u32> = Vec::with_capacity(len);
    let mut j: usize = 0;
    while j < len
        invariant
            j <= len,
            len == key@.len(),
            dv == key_distances(feature.0, key@),
            dist@.len() == j,
            forall|i: int| 0 <= i < j ==> (#[trigger] dist@[i]) as nat == dv[i],
        decreases len - j,
    {
        let d = feature.distance(&key[j]);
        dist.push(d);
        j = j + 1;
    }
    proof {
        assert(nat_seq(dist@) =~= dv);
    }

    // extend the live beams into the recombination table, last beam first
    let mut table: Vec<Option<(Fraction, Beam)>> = Vec::with_capacity(len);
    let mut j: usize = 0;
    while j < len
        invariant
            j <= len,
            table@.len() == j,
            forall|i: int| 0 <= i < j ==> (#[trigger] table@[i]) is None,
        decreases len - j,
    {
        table.push(None);
        j = j + 1;
    }
    proof {
        assert(table_view(table@) =~= extended_table(oldv.subrange(oldv.len() as int, oldv.len() as int), dv, ws));
    }
    let mut rest = beams;
    while rest.len() > 0
        invariant
            rest@.len() <= oldv.len(),
            forall|i: int| 0 <= i < rest@.len() ==> scored_view(#[trigger] rest@[i]) == oldv[i],
            table_view(table@) == extended_table(oldv.subrange(rest@.len() as int, oldv.len() as int), dv, ws),
            table@.len() == len,
            dist@.len() == len,
            nat_seq(dist@) == dv,
            ws == cfg.search_window_size,
            forall|i: int| 0 <= i < dv.len() ==> dv[i] <= 64,
            beams_wf(oldv, key@.len(), head as nat, *cfg),
            step_fits(head as nat, *cfg),
            len == key@.len(),
        decreases rest@.len(),
    {
        let ghost m = rest@.len() - 1;
        let (score, beam) = rest.pop().unwrap();
        proof {
            assert(scored_view((score, beam)) == oldv[m]);
            assert(beam_wf(oldv[m], len as nat, head as nat, *cfg));
            assert(oldv.subrange(m, oldv.len() as int).drop_first() =~= oldv.subrange(m + 1, oldv.len() as int));
            assert(oldv.subrange(m, oldv.len() as int)[0] == oldv[m]);
            assert forall|i: int| 0 <= i < dist@.len() implies dist@[i] <= 64 by {
                assert(nat_seq(dist@)[i] == dist@[i] as nat);
            }
        }
        match extend_beam(score, beam, &dist, cfg.search_window_size) {
            Some((s2, b2)) => {
                proof {
                    lemma_extend_wf(oldv[m], dv, ws, head as nat, *cfg);
                }
                place_in(&mut table, s2, b2);
            },
            None => {},
        }
    }
    proof {
        assert(oldv.subrange(0, oldv.len() as int) =~= oldv);
    }
    let ghost tv = table_view(table@);

    // seed a beam at every key position; a seed replaces a strictly worse one
    let mut cands: Vec<(Fraction, Beam)> = Vec::with_capacity(len);
    let mut j: usize = 0;
    while j < len
        invariant
            j <= len,
            table@.len() == len,
            dist@.len() == len,
            nat_seq(dist@) == dv,
            tv.len() == len,
            tv == extended_table(oldv, dv, ws),
            ws == cfg.search_window_size,
            forall|i: int| j <= i < len ==> slot_view(#[trigger] table@[i]) == tv[i],
            forall|i: int| 0 <= i < dv.len() ==> dv[i] <= 64,
            step_fits(head as nat, *cfg),
            beams_view(cands@) == candidates(oldv, dv, head, *cfg).take(j as int),
        decreases len - j,
    {
        let mut slot: Option<(Fraction, Beam)> = None;
        std::mem::swap(&mut table[j], &mut slot);
        proof {
            assert(nat_seq(dist@)[j as int] == dist@[j as int] as nat);
        }
        let sd = Fraction { n: cfg.search_score_penalty + dist[j], d: cfg.search_length_penalty + 1 };
        let ghost sj = seed(j as int, dv, head, *cfg);
        let ghost sv = slot_view(slot);
        proof {
            assert(sv == tv[j as int]);
        }
        let c = match slot {
            Some(o) => if sd.less_than(&o.0) {
                let p = vec![j];
                proof {
                    assert(p@ =~= sj.path);
                }
                (sd, Beam { query_start: head, path: p })
            } else {
                o
            },
            None => {
                let p = vec![j];
                proof {
                    assert(p@ =~= sj.path);
                }
                (sd, Beam { query_start: head, path: p })
            },
        };
        proof {
            assert(scored_view(c) == candidate(sv, sj));
        }
        let ghost prev = beams_view(cands@);
        cands.push(c);
        proof {
            assert(scored_view(c) == candidates(oldv, dv, head, *cfg)[j as int]);
            let cs = candidates(oldv, dv, head, *cfg);
            assert(beams_view(cands@) =~= prev.push(scored_view(c)));
            assert(cs.take(j + 1) =~= cs.take(j as int).push(cs[j as int]));
        }
        j = j + 1;
    }
    proof {
        assert(candidates(oldv, dv, head, *cfg).take(len as int) =~= candidates(oldv, dv, head, *cfg));
    }
    trim(cands, cfg.search_beam_count)
}


/// Every entry of the table after extension is the extension of one of the
/// old beams.
pub(crate) proof fn lemma_extended_table_origin(
    old: Seq<ScoredBeam>,
    dist: Seq<nat>,
    ws: nat,
    head: nat,
    cfg: DatabaseConfiguration,
)
    requires
        forall|i: int| 0 <= i < old.len() ==> beam_wf(#[trigger] old[i], dist.len(), head, cfg),
        step_fits(head, cfg),
        forall|i: int| 0 <= i < dist.len() ==> dist[i] <= 64,
        dist.len() <= usize::MAX,
    ensures
        extended_table(old, dist, ws).len() == dist.len(),
        forall|e: int| 0 <= e < dist.len() ==> (#[trigger] extended_table(old, dist, ws)[e] matches Some(b)
            ==> exists|x: int| 0 <= x < old.len() && extend(old[x], dist, ws) == Some(b)),
    decreases old.len(),
{
    lemma_extended_table_wf(old, dist, ws, head, cfg);
    if old.len() > 0 {
        let rest = old.drop_first();
        assert forall|i: int| 0 <= i < rest.len() implies beam_wf(#[trigger] rest[i], dist.len(), head, cfg) by {
            assert(rest[i] == old[i + 1]);
        }
        lemma_extended_table_origin(rest, dist, ws, head, cfg);
        lemma_extended_table_wf(rest, dist, ws, head, cfg);
        lemma_extend_wf(old[0], dist, ws, head, cfg);
        let t0 = extended_table(rest, dist, ws);
        let t = extended_table(old, dist, ws);
        assert forall|e: int| 0 <= e < dist.len() implies (#[trigger] t[e] matches Some(b) ==> exists|x: int|
            0 <= x < old.len() && extend(old[x], dist, ws) == Some(b)) by {
            if let Some(b) = t[e] {
                match extend(old[0], dist, ws) {
                    Some(c) => {
                        if t[e] == t0[e] {
                            let x = choose|x: int| 0 <= x < rest.len() && extend(rest[x], dist, ws) == Some(b);
                            assert(rest[x] == old[x + 1]);
                        } else {
                            assert(b == c);
                        }
                    },
                    None => {
                        let x = choose|x: int| 0 <= x < rest.len() && extend(rest[x], dist, ws) == Some(b);
                        assert(rest[x] == old[x + 1]);
                    },
                }
            }
        }
    }
}

} // verus!
