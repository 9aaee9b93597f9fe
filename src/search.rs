use vstd::prelude::*;
use crate::fingerprint::Feature;
use crate::score::{Fraction, score_eq, score_lt, lemma_cross_trans};
use crate::beam::{
    Beam, ScoredBeam, beams_view, beams_wf, beam_wf, scored_view, step_beams, step_fits,
    strictly_increasing, extend, lemma_nearest_range, step_key, seed, key_distances, candidates,
    candidate, extended_table, kept, lemma_kept_props, lemma_candidates_wf, lemma_extended_table_origin,
    lemma_step_wf,
};
use crate::fingerprint::lemma_distance_bound;

verus! {

/// Search parameters.
#[derive(Clone, Copy, Debug)]
pub struct DatabaseConfiguration {
    pub sample_rate: usize,
    pub window_stride: usize,
    pub search_beam_count: usize,
    pub search_window_size: usize,
    pub search_length_penalty: u32,
    pub search_score_penalty: u32,
}

/// Rejected configuration values.
#[derive(Clone, Copy, Debug, PartialEq, Eq, Structural)]
pub enum ConfigurationError {
    InvalidConfiguration,
}

impl DatabaseConfiguration {
    /// All sizes are positive.
    pub open spec fn valid(&self) -> bool {
        &&& self.sample_rate > 0
        &&& self.window_stride > 0
        &&& self.search_beam_count > 0
        &&& self.search_window_size > 0
    }

    /// Builds a configuration, rejecting one with a zero size.
    pub fn new(
        sample_rate: usize,
        window_stride: usize,
        search_beam_count: usize,
        search_window_size: usize,
        search_length_penalty: u32,
        search_score_penalty: u32,
    ) -> (r: Result<DatabaseConfiguration, ConfigurationError>)
        ensures
            ({
                let c = DatabaseConfiguration {
                    sample_rate,
                    window_stride,
                    search_beam_count,
                    search_window_size,
                    search_length_penalty,
                    search_score_penalty,
                };
                match r {
                    Ok(v) => c.valid() && v == c,
                    Err(e) => !c.valid() && e == ConfigurationError::InvalidConfiguration,
                }
            }),
    {
        let c = DatabaseConfiguration {
            sample_rate,
            window_stride,
            search_beam_count,
            search_window_size,
            search_length_penalty,
            search_score_penalty,
        };
        if sample_rate > 0 && window_stride > 0 && search_beam_count > 0 && search_window_size > 0 {
            Ok(c)
        } else {
            Err(ConfigurationError::InvalidConfiguration)
        }
    }

    /// The configuration the engine ships with.
    pub fn default_configuration() -> (r: DatabaseConfiguration)
        ensures
            r.valid(),
            r.sample_rate == 11500,
            r.window_stride == 2048,
            r.search_beam_count == 1000,
            r.search_window_size == 3,
            r.search_length_penalty == 3,
            r.search_score_penalty == 100,
    {
        DatabaseConfiguration {
            sample_rate: 11500,
            window_stride: 2048,
            search_beam_count: 1000,
            search_window_size: 3,
            search_length_penalty: 3,
            search_score_penalty: 100,
        }
    }
}

/// One match: a key, a score, where the match lies in the key (as key
/// positions) and the query step at which it starts.
#[derive(Clone, Copy, Debug)]
pub struct QueryResult {
    pub uuid: u128,
    pub score: Fraction,
    pub key_start: usize,
    pub key_end: usize,
    pub query_start: usize,
}

/// Two results are equal when they name the same key, positions and query
/// step, and their scores are equal as rational numbers.
pub open spec fn same_result(a: QueryResult, b: QueryResult) -> bool {
    &&& a.uuid == b.uuid
    &&& score_eq(a.score, b.score)
    &&& a.key_start == b.key_start
    &&& a.key_end == b.key_end
    &&& a.query_start == b.query_start
}

impl PartialEq for QueryResult {
    fn eq(&self, other: &QueryResult) -> (r: bool) {
        self.uuid == other.uuid && self.score == other.score && self.key_start == other.key_start
            && self.key_end == other.key_end && self.query_start == other.query_start
    }
}

impl vstd::std_specs::cmp::PartialEqSpecImpl for QueryResult {
    open spec fn obeys_eq_spec() -> bool {
        true
    }

    open spec fn eq_spec(&self, other: &QueryResult) -> bool {
        same_result(*self, *other)
    }
}

/// The result that a beam of key `id` becomes.
pub open spec fn result_of(id: u128, b: ScoredBeam) -> QueryResult {
    QueryResult {
        uuid: id,
        score: b.score,
        key_start: b.path[0],
        key_end: b.path.last(),
        query_start: b.query_start,
    }
}

/// The results of the beams of the first `k` keys, key by key.
pub open spec fn all_results(entries: Seq<(u128, Seq<Feature>)>, beams: Seq<Seq<ScoredBeam>>, k: int) -> Seq<QueryResult>
    decreases k,
{
    if k <= 0 {
        Seq::empty()
    } else {
        all_results(entries, beams, k - 1) + beams[k - 1].map_values(|b: ScoredBeam| result_of(entries[k - 1].0, b))
    }
}

/// Result order: lower score first; among equal scores by key identifier,
/// then by end position.
pub open spec fn result_lt(a: QueryResult, b: QueryResult) -> bool {
    score_lt(a.score, b.score) || (!score_lt(b.score, a.score) && (a.uuid < b.uuid || (a.uuid == b.uuid
        && a.key_end < b.key_end)))
}

/// No result is preceded by one that comes after it in result order.
pub open spec fn sorted_results(r: Seq<QueryResult>) -> bool {
    forall|i: int, j: int| 0 <= i < j < r.len() ==> !result_lt(r[j], r[i])
}

proof fn lemma_result_lt_trans(a: QueryResult, b: QueryResult, c: QueryResult)
    requires
        a.score.d > 0,
        b.score.d > 0,
        c.score.d > 0,
        result_lt(a, b),
        result_lt(b, c),
    ensures
        result_lt(a, c),
{
    let (an, ad, bn, bd, cn, cd) = (
        a.score.n as int,
        a.score.d as int,
        b.score.n as int,
        b.score.d as int,
        c.score.n as int,
        c.score.d as int,
    );
    lemma_cross_trans(an, ad, bn, bd, cn, cd);
    lemma_cross_trans(cn, cd, bn, bd, an, ad);
}

/// Inserts `item` after every result that does not come after it.
fn insert_sorted(out: &mut Vec<QueryResult>, item: QueryResult)
    requires
        sorted_results(old(out)@),
        forall|i: int| 0 <= i < old(out)@.len() ==> (#[trigger] old(out)@[i]).score.d > 0,
        item.score.d > 0,
    ensures
        final(out)@.to_multiset() == old(out)@.to_multiset().insert(item),
        sorted_results(final(out)@),
        forall|i: int| 0 <= i < final(out)@.len() ==> (#[trigger] final(out)@[i]).score.d > 0,
{
    let n = out.len();
    let mut p: usize = 0;
    while p < n && !item.score.less_than(&out[p].score) && !(!out[p].score.less_than(&item.score) && (
    item.uuid < out[p].uuid || (item.uuid == out[p].uuid && item.key_end < out[p].key_end)))
        invariant
            p <= n,
            n == out@.len(),
            forall|q: int| 0 <= q < p ==> !result_lt(item, #[trigger] out@[q]),
        decreases n - p,
    {
        p = p + 1;
    }
    let ghost prev = out@;
    out.insert(p, item);
    proof {
        vstd::seq_lib::to_multiset_insert(prev, p as int, item);
        assert(out@ == prev.insert(p as int, item));
        assert forall|i: int, j: int| 0 <= i < j < out@.len() implies !result_lt(out@[j], out@[i]) by {
            if i < p && j == p {
            } else if i == p && j > p {
                if result_lt(out@[j], item) {
                    lemma_result_lt_trans(out@[j], item, prev[p as int]);
                }
            } else if i < p && j > p {
            } else {
            }
        }
    }
}

/// Registered keys: an identifier and a fingerprint sequence each, the
/// identifiers unique, in order of first registration.
pub struct Database {
    cfg: DatabaseConfiguration,
    keys: Vec<(u128, Vec<Feature>)>,
}

/// Index of the entry registered under `id`, if any.
pub open spec fn find_key(entries: Seq<(u128, Seq<Feature>)>, id: u128) -> Option<int> {
    if exists|i: int| 0 <= i < entries.len() && entries[i].0 == id {
        Some(choose|i: int| 0 <= i < entries.len() && entries[i].0 == id)
    } else {
        None
    }
}

/// No identifier occurs twice.
pub open spec fn unique_ids(entries: Seq<(u128, Seq<Feature>)>) -> bool {
    forall|i: int, j: int| 0 <= i < j < entries.len() ==> entries[i].0 != entries[j].0
}

impl Database {
    /// The registered keys, in order of first registration.
    pub closed spec fn entries(&self) -> Seq<(u128, Seq<Feature>)> {
        self.keys@.map_values(|e: (u128, Vec<Feature>)| (e.0, e.1@))
    }

    /// The search parameters.
    pub closed spec fn config(&self) -> DatabaseConfiguration {
        self.cfg
    }

    /// The identifiers are unique.
    pub open spec fn wf(&self) -> bool {
        &&& unique_ids(self.entries())
        &&& forall|i: int| 0 <= i < self.entries().len() ==> (#[trigger] self.entries()[i]).1.len() <= usize::MAX
    }

    /// An empty database.
    pub fn new(cfg: DatabaseConfiguration) -> (r: Database)
        requires
            cfg.valid(),
        ensures
            r.wf(),
            r.entries().len() == 0,
            r.config() == cfg,
    {
        let r = Database { cfg, keys: Vec::new() };
        proof {
            assert(r.entries() =~= Seq::empty());
        }
        r
    }

    /// An empty database, or `InvalidConfiguration` when `cfg` has a zero size.
    pub fn with_configuration(cfg: DatabaseConfiguration) -> (r: Result<Database, ConfigurationError>)
        ensures
            match r {
                Ok(db) => cfg.valid() && db.wf() && db.entries().len() == 0 && db.config() == cfg,
                Err(e) => !cfg.valid() && e == ConfigurationError::InvalidConfiguration,
            },
    {
        if cfg.sample_rate > 0 && cfg.window_stride > 0 && cfg.search_beam_count > 0 && cfg.search_window_size > 0 {
            Ok(Database::new(cfg))
        } else {
            Err(ConfigurationError::InvalidConfiguration)
        }
    }

    /// Number of registered keys.
    pub fn len(&self) -> (r: usize)
        ensures
            r == self.entries().len(),
    {
        self.keys.len()
    }

    /// Registers `features` under `key`, replacing what was registered under it.
    pub fn insert(&mut self, key: u128, features: Vec<Feature>)
        requires
            old(self).wf(),
        ensures
            final(self).wf(),
            final(self).config() == old(self).config(),
            match find_key(old(self).entries(), key) {
                Some(i) => final(self).entries() == old(self).entries().update(i, (key, features@)),
                None => final(self).entries() == old(self).entries().push((key, features@)),
            },
    {
        let ghost before = self.entries();
        let flen = features.len();
        let n = self.keys.len();
        let mut i: usize = 0;
        while i < n
            invariant
                i <= n,
                n == self.keys@.len(),
                before == self.entries(),
                before == old(self).entries(),
                unique_ids(before),
                self.cfg == old(self).cfg,
                forall|x: int| 0 <= x < i ==> before[x].0 != key,
                flen == features@.len(),
                forall|x: int| 0 <= x < before.len() ==> (#[trigger] before[x]).1.len() <= usize::MAX,
            decreases n - i,
        {
            if self.keys[i].0 == key {
                proof {
                    assert(before[i as int].0 == key);
                    let c = choose|x: int| 0 <= x < before.len() && before[x].0 == key;
                    assert(c == i) by {
                        if c != i {
                            assert(unique_ids(before));
                        }
                    }
                }
                self.keys.set(i, (key, features));
                proof {
                    assert(self.entries() =~= before.update(i as int, (key, features@)));
                    assert forall|x: int| 0 <= x < self.entries().len() implies (#[trigger] self.entries()[x]).1.len()
                        <= usize::MAX by {
                        if x != i {
                            assert(self.entries()[x] == before[x]);
                        }
                    }
                    assert(unique_ids(self.entries())) by {
                        assert forall|x: int, y: int| 0 <= x < y < self.entries().len() implies
                            self.entries()[x].0 != self.entries()[y].0 by {
                            assert(self.entries()[x].0 == before[x].0);
                            assert(self.entries()[y].0 == before[y].0);
                        }
                    }
                }
                return;
            }
            i = i + 1;
        }
        self.keys.push((key, features));
        proof {
            assert(self.entries() =~= before.push((key, features@)));
            assert forall|x: int| 0 <= x < self.entries().len() implies (#[trigger] self.entries()[x]).1.len()
                <= usize::MAX by {
                if x < before.len() {
                    assert(self.entries()[x] == before[x]);
                }
            }
        }
    }

    /// Starts a query over the keys registered now; the database cannot change
    /// while the query lives.
    pub fn new_query<'a>(&'a self) -> (r: Query<'a>)
        requires
            self.wf(),
        ensures
            r.wf(),
            r.database() == *self,
            r.head() == 0,
            r.beams() == Seq::new(self.entries().len(), |i: int| Seq::<ScoredBeam>::empty()),
    {
        let n = self.keys.len();
        let mut song_beams: Vec<Vec<(Fraction, Beam)>> = Vec::with_capacity(n);
        let mut i: usize = 0;
        while i < n
            invariant
                i <= n,
                n == self.keys@.len(),
                song_beams@.len() == i,
                forall|x: int| 0 <= x < i ==> (#[trigger] song_beams@[x])@.len() == 0,
            decreases n - i,
        {
            song_beams.push(Vec::with_capacity(self.cfg.search_beam_count));
            i = i + 1;
        }
        let r = Query { database: self, head: 0, song_beams };
        proof {
            assert forall|x: int| 0 <= x < r.beams().len() implies #[trigger] r.beams()[x] =~= Seq::<ScoredBeam>::empty() by {
                assert(song_beams@[x]@.len() == 0);
            }
            assert(r.beams() =~= Seq::new(self.entries().len(), |i: int| Seq::<ScoredBeam>::empty()));
            assert forall|i: int| 0 <= i < r.beams().len() implies beams_wf(
                #[trigger] r.beams()[i],
                r.database().entries()[i].1.len(),
                0,
                self.cfg,
            ) by {}
        }
        r
    }
}

/// A streaming query: the live beams of every key, advanced one query
/// fingerprint at a time.
pub struct Query<'a> {
    database: &'a Database,
    head: usize,
    song_beams: Vec<Vec<(Fraction, Beam)>>,
}

impl<'a> Query<'a> {
    /// The database searched.
    pub closed spec fn database(&self) -> Database {
        *self.database
    }

    /// Number of query fingerprints consumed so far.
    pub closed spec fn head(&self) -> nat {
        self.head as nat
    }

    /// The live beams of each key, in key order.
    pub closed spec fn beams(&self) -> Seq<Seq<ScoredBeam>> {
        self.song_beams@.map_values(|v: Vec<(Fraction, Beam)>| beams_view(v@))
    }

    /// One well-formed beam vector per registered key.
    pub open spec fn wf(&self) -> bool {
        &&& self.database().wf()
        &&& self.beams().len() == self.database().entries().len()
        &&& forall|i: int| 0 <= i < self.beams().len() ==> beams_wf(
            #[trigger] self.beams()[i],
            self.database().entries()[i].1.len(),
            self.head(),
            self.database().config(),
        )
    }

    /// Whether one more query fingerprint keeps every score within 32 bits.
    pub open spec fn can_update(&self) -> bool {
        &&& self.head() < usize::MAX
        &&& step_fits(self.head(), self.database().config())
    }

    /// Whether one more query fingerprint keeps every score within 32 bits.
    pub fn has_capacity(&self) -> (r: bool)
        ensures
            r == self.can_update(),
    {
        let cfg = &self.database.cfg;
        let h = self.head as u128;
        self.head < usize::MAX && (cfg.search_score_penalty as u128) + 64 * (h + 1) <= 0xffff_ffff
            && (cfg.search_length_penalty as u128) + h + 1 <= 0xffff_ffff
    }

    /// Consumes the next query fingerprint: every key's beams take one step.
    pub fn update(&mut self, new_feature: Feature)
        requires
            old(self).wf(),
            old(self).can_update(),
        ensures
            final(self).wf(),
            final(self).database() == old(self).database(),
            final(self).head() == old(self).head() + 1,
            final(self).beams().len() == old(self).beams().len(),
            forall|i: int| 0 <= i < old(self).beams().len() ==> #[trigger] final(self).beams()[i] == step_beams(
                old(self).beams()[i],
                old(self).database().entries()[i].1,
                new_feature.0,
                old(self).head() as usize,
                old(self).database().config(),
            ),
    {
        let n = self.song_beams.len();
        let ghost before = self.beams();
        let mut i: usize = 0;
        while i < n
            invariant
                i <= n,
                n == self.song_beams@.len(),
                n == before.len(),
                self.database == old(self).database,
                self.head == old(self).head,
                step_fits(self.head as nat, self.database.cfg),
                self.database().wf(),
                self.database().entries().len() == n,
                forall|x: int| 0 <= x < i ==> #[trigger] self.beams()[x] == step_beams(
                    before[x],
                    self.database().entries()[x].1,
                    new_feature.0,
                    self.head,
                    self.database.cfg,
                ),
                forall|x: int| 0 <= x < i ==> beams_wf(
                    #[trigger] self.beams()[x],
                    self.database().entries()[x].1.len(),
                    (self.head + 1) as nat,
                    self.database.cfg,
                ),
                forall|x: int| i <= x < n ==> #[trigger] self.beams()[x] == before[x],
                forall|x: int| 0 <= x < n ==> beams_wf(
                    #[trigger] before[x],
                    self.database().entries()[x].1.len(),
                    self.head as nat,
                    self.database.cfg,
                ),
            decreases n - i,
        {
            let mut beams: Vec<(Fraction, Beam)> = Vec::new();
            let ghost pre = self.song_beams@;
            let ghost pre_beams = self.beams();
            proof {
                assert forall|x: int| 0 <= x < n implies #[trigger] pre_beams[x] == beams_view(pre[x]@) by {}
                assert(self.beams()[i as int] == beams_view(self.song_beams@[i as int]@));
            }
            let ghost cur = self.song_beams@[i as int];
            std::mem::swap(&mut self.song_beams[i], &mut beams);
            proof {
                assert(beams == cur);
                assert(beams_view(beams@) == before[i as int]);
                assert(self.database.keys@[i as int].1@ == self.database().entries()[i as int].1);
            }
            let r = step_key(beams, &self.database.keys[i].1, new_feature, self.head, &self.database.cfg);
            let ghost sb = self.song_beams@;
            self.song_beams.set(i, r);
            proof {
                assert forall|x: int| 0 <= x < n && x != i implies sb[x] == #[trigger] pre[x] by {}
                assert forall|x: int| 0 <= x < n implies #[trigger] self.beams()[x] == (if x == i {
                    beams_view(r@)
                } else {
                    pre_beams[x]
                }) by {
                    assert(self.beams()[x] == beams_view(self.song_beams@[x]@));
                }
            }
            i = i + 1;
        }
        let ghost fin = self.beams();
        self.head = self.head + 1;
        proof {
            assert(self.beams() == fin);
        }
    }
}


impl<'a> Query<'a> {
    /// Ends the query: every live beam of every key becomes a result, best
    /// first.
    pub fn finalize(self) -> (r: Vec<QueryResult>)
        requires
            self.wf(),
        ensures
            r@.to_multiset() == all_results(self.database().entries(), self.beams(), self.beams().len() as int).to_multiset(),
            sorted_results(r@),
    {
        let ghost entries = self.database().entries();
        let ghost beams = self.beams();
        let n = self.song_beams.len();
        let mut out: Vec<QueryResult> = Vec::new();
        let mut k: usize = 0;
        while k < n
            invariant
                k <= n,
                n == self.song_beams@.len(),
                n == beams.len(),
                self.wf(),
                entries == self.database().entries(),
                beams == self.beams(),
                out@.to_multiset() == all_results(entries, beams, k as int).to_multiset(),
                sorted_results(out@),
                forall|i: int| 0 <= i < out@.len() ==> (#[trigger] out@[i]).score.d > 0,
            decreases n - k,
        {
            let id = self.database.keys[k].0;
            let bs = &self.song_beams[k];
            let ghost kb = beams[k as int];
            let ghost f = |b: ScoredBeam| result_of(entries[k as int].0, b);
            proof {
                assert(kb == beams_view(bs@));
                assert(entries[k as int].0 == id);
                assert(beams_wf(kb, entries[k as int].1.len(), self.head(), self.database().config()));
            }
            let mut b: usize = 0;
            while b < bs.len()
                invariant
                    b <= bs@.len(),
                    kb == beams_view(bs@),
                    beams_wf(kb, entries[k as int].1.len(), self.head(), self.database().config()),
                    entries[k as int].0 == id,
                    f == (|b: ScoredBeam| result_of(entries[k as int].0, b)),
                    out@.to_multiset() == (all_results(entries, beams, k as int) + kb.take(b as int).map_values(f)).to_multiset(),
                    sorted_results(out@),
                    forall|i: int| 0 <= i < out@.len() ==> (#[trigger] out@[i]).score.d > 0,
                decreases bs@.len() - b,
            {
                let e = &bs[b];
                proof {
                    assert(scored_view(*e) == kb[b as int]);
                    assert(beam_wf(kb[b as int], entries[k as int].1.len(), self.head(), self.database().config()));
                }
                let item = QueryResult {
                    uuid: id,
                    score: e.0,
                    key_start: e.1.key_start(),
                    key_end: e.1.key_end(),
                    query_start: e.1.query_start,
                };
                let ghost prev = out@;
                insert_sorted(&mut out, item);
                proof {
                    let acc = all_results(entries, beams, k as int);
                    assert(item == f(kb[b as int]));
                    assert(acc + kb.take(b + 1).map_values(f) =~= (acc + kb.take(b as int).map_values(f)).push(item));
                    vstd::seq_lib::to_multiset_build(acc + kb.take(b as int).map_values(f), item);
                }
                b = b + 1;
            }
            proof {
                assert(kb.take(bs@.len() as int) =~= kb);
                assert(all_results(entries, beams, k + 1) =~= all_results(entries, beams, k as int) + kb.map_values(f));
            }
            k = k + 1;
        }
        out
    }
}


/// The beams of every key after the first `n` fingerprints of `query`.
pub open spec fn beams_after(
    entries: Seq<(u128, Seq<Feature>)>,
    cfg: DatabaseConfiguration,
    query: Seq<Feature>,
    n: nat,
) -> Seq<Seq<ScoredBeam>>
    decreases n,
{
    if n == 0 {
        Seq::new(entries.len(), |i: int| Seq::<ScoredBeam>::empty())
    } else {
        let prev = beams_after(entries, cfg, query, (n - 1) as nat);
        Seq::new(
            entries.len(),
            |i: int| step_beams(prev[i], entries[i].1, query[n - 1].0, (n - 1) as usize, cfg),
        )
    }
}

impl Database {
    /// Whether a query of `n` fingerprints keeps every score within 32 bits.
    pub open spec fn fits_query(&self, n: nat) -> bool {
        n == 0 || (n - 1 < usize::MAX && step_fits((n - 1) as nat, self.config()))
    }

    /// Whether a query of `n` fingerprints keeps every score within 32 bits.
    pub fn can_search(&self, n: usize) -> (r: bool)
        ensures
            r == self.fits_query(n as nat),
    {
        if n == 0 {
            return true;
        }
        let h = (n - 1) as u128;
        n - 1 < usize::MAX && (self.cfg.search_score_penalty as u128) + 64 * (h + 1) <= 0xffff_ffff
            && (self.cfg.search_length_penalty as u128) + h + 1 <= 0xffff_ffff
    }

    /// Runs a whole query: every fingerprint of `query` in order, then the
    /// results of all live beams, best first.
    pub fn search(&self, query: &Vec<Feature>) -> (r: Vec<QueryResult>)
        requires
            self.wf(),
            self.fits_query(query@.len()),
        ensures
            r@.to_multiset() == all_results(
                self.entries(),
                beams_after(self.entries(), self.config(), query@, query@.len()),
                self.entries().len() as int,
            ).to_multiset(),
            sorted_results(r@),
    {
        let mut q = self.new_query();
        proof {
            assert(q.beams() =~= beams_after(self.entries(), self.config(), query@, 0));
        }
        let n = query.len();
        let mut i: usize = 0;
        while i < n
            invariant
                i <= n,
                n == query@.len(),
                self.fits_query(n as nat),
                q.wf(),
                q.database() == *self,
                q.head() == i,
                q.beams() == beams_after(self.entries(), self.config(), query@, i as nat),
            decreases n - i,
        {
            q.update(query[i]);
            proof {
                assert(q.beams() =~= beams_after(self.entries(), self.config(), query@, (i + 1) as nat));
            }
            i = i + 1;
        }
        q.finalize()
    }
}

/// In every well-formed query state, for every key: each beam's path is
/// strictly increasing, there are at most the beam count of beams, and no two
/// beams end at the same key position.
pub proof fn lemma_query_invariants(q: Query)
    requires
        q.wf(),
    ensures
        forall|i: int| 0 <= i < q.beams().len() ==> (#[trigger] q.beams()[i]).len()
            <= q.database().config().search_beam_count,
        forall|i: int, x: int| 0 <= i < q.beams().len() && 0 <= x < q.beams()[i].len() ==>
            strictly_increasing(#[trigger] q.beams()[i][x].path),
        forall|i: int, x: int, y: int| 0 <= i < q.beams().len() && 0 <= x < q.beams()[i].len() && 0 <= y
            < q.beams()[i].len() && x != y ==> (#[trigger] q.beams()[i][x]).path.last()
            != (#[trigger] q.beams()[i][y]).path.last(),
{
    assert forall|i: int, x: int| 0 <= i < q.beams().len() && 0 <= x < q.beams()[i].len() implies
        strictly_increasing(#[trigger] q.beams()[i][x].path) by {
        assert(beams_wf(q.beams()[i], q.database().entries()[i].1.len(), q.head(), q.database().config()));
        assert(beam_wf(q.beams()[i][x], q.database().entries()[i].1.len(), q.head(), q.database().config()));
    }
    assert forall|i: int, x: int, y: int| 0 <= i < q.beams().len() && 0 <= x < q.beams()[i].len() && 0 <= y
        < q.beams()[i].len() && x != y implies (#[trigger] q.beams()[i][x]).path.last()
        != (#[trigger] q.beams()[i][y]).path.last() by {
        assert(beams_wf(q.beams()[i], q.database().entries()[i].1.len(), q.head(), q.database().config()));
    }
}

/// Extending a beam over a step appends the chosen key position to its path,
/// adds that position's distance to the score's numerator and one to its
/// denominator.
pub proof fn lemma_extension_score(b: ScoredBeam, dist: Seq<nat>, ws: nat, head: nat, cfg: DatabaseConfiguration)
    requires
        beam_wf(b, dist.len(), head, cfg),
        step_fits(head, cfg),
        forall|i: int| 0 <= i < dist.len() ==> dist[i] <= 64,
        dist.len() <= usize::MAX,
    ensures
        extend(b, dist, ws) matches Some(c) ==> {
            let j = c.path.last() as int;
            &&& c.path == b.path.push(c.path.last())
            &&& b.path.last() < j < dist.len()
            &&& c.score.n == b.score.n + dist[j]
            &&& c.score.d == b.score.d + 1
            &&& c.query_start == b.query_start
        },
{
    let start = b.path.last() + 1;
    let end = if start + ws < dist.len() { start + ws } else { dist.len() as int };
    if start < end {
        lemma_nearest_range(dist, start, end);
        assert(b.path.len() <= head);
    }
}

/// After a query step every beam of a key is either a fresh seed at its end
/// position, or an old beam extended by one key position `j`: its path is the
/// old path followed by `j`, its numerator grows by the distance at `j` and its
/// denominator by one.
pub proof fn lemma_step_beam_origin(
    old: Seq<ScoredBeam>,
    key: Seq<Feature>,
    f: u64,
    head: usize,
    cfg: DatabaseConfiguration,
)
    requires
        beams_wf(old, key.len(), head as nat, cfg),
        step_fits(head as nat, cfg),
        key.len() <= usize::MAX,
    ensures
        forall|i: int| 0 <= i < step_beams(old, key, f, head, cfg).len() ==> {
            let b = #[trigger] step_beams(old, key, f, head, cfg)[i];
            let j = b.path.last() as int;
            let dist = key_distances(f, key);
            b == seed(j, dist, head, cfg) || exists|x: int|
                0 <= x < old.len() && {
                    &&& b.path == old[x].path.push(b.path.last())
                    &&& old[x].path.last() < j < key.len()
                    &&& b.score.n == old[x].score.n + dist[j]
                    &&& b.score.d == old[x].score.d + 1
                    &&& b.query_start == old[x].query_start
                }
        },
{
    let dist = key_distances(f, key);
    let ws = cfg.search_window_size as nat;
    assert forall|i: int| 0 <= i < dist.len() implies dist[i] <= 64 by {
        lemma_distance_bound(f, key[i].0);
    }
    lemma_candidates_wf(old, dist, head, cfg);
    lemma_extended_table_origin(old, dist, ws, head as nat, cfg);
    let c = candidates(old, dist, head, cfg);
    let t = extended_table(old, dist, ws);
    lemma_kept_props(c, cfg.search_beam_count as nat, c.len() as int);
    let r = step_beams(old, key, f, head, cfg);
    assert forall|i: int| 0 <= i < r.len() implies {
        let b = #[trigger] r[i];
        let j = b.path.last() as int;
        b == seed(j, dist, head, cfg) || exists|x: int|
            0 <= x < old.len() && {
                &&& b.path == old[x].path.push(b.path.last())
                &&& old[x].path.last() < j < key.len()
                &&& b.score.n == old[x].score.n + dist[j]
                &&& b.score.d == old[x].score.d + 1
                &&& b.query_start == old[x].query_start
            }
    } by {
        let b = r[i];
        let j = choose|j: int| 0 <= j < c.len() && r[i] == c[j];
        assert(b.path.last() == j);
        let s = seed(j, dist, head, cfg);
        if b != s {
            assert(c[j] == candidate(t[j], s));
            let o = t[j]->Some_0;
            assert(t[j] == Some(o));
            let x = choose|x: int| 0 <= x < old.len() && extend(old[x], dist, ws) == Some(o);
            assert(beam_wf(old[x], dist.len(), head as nat, cfg));
            lemma_extension_score(old[x], dist, ws, head as nat, cfg);
        }
    }
}

/// No two results share both key identifier and end position.
pub open spec fn distinct_matches(r: Seq<QueryResult>) -> bool {
    forall|i: int, j: int| 0 <= i < r.len() && 0 <= j < r.len() && i != j ==> (r[i].uuid != r[j].uuid
        || r[i].key_end != r[j].key_end)
}

proof fn lemma_all_results_ids(entries: Seq<(u128, Seq<Feature>)>, beams: Seq<Seq<ScoredBeam>>, k: int)
    requires
        0 <= k <= beams.len(),
        beams.len() <= entries.len(),
    ensures
        forall|p: int| 0 <= p < all_results(entries, beams, k).len() ==> exists|kk: int|
            0 <= kk < k && (#[trigger] all_results(entries, beams, k)[p]).uuid == entries[kk].0,
    decreases k,
{
    if k > 0 {
        lemma_all_results_ids(entries, beams, k - 1);
        let a = all_results(entries, beams, k - 1);
        let f = |b: ScoredBeam| result_of(entries[k - 1].0, b);
        let r = all_results(entries, beams, k);
        assert(r == a + beams[k - 1].map_values(f));
        assert forall|p: int| 0 <= p < r.len() implies exists|kk: int| 0 <= kk < k && (#[trigger] r[p]).uuid
            == entries[kk].0 by {
            if p < a.len() {
                let kk = choose|kk: int| 0 <= kk < k - 1 && a[p].uuid == entries[kk].0;
                assert(r[p] == a[p]);
            } else {
                assert(r[p].uuid == entries[k - 1].0);
            }
        }
    }
}

/// The beams of every key, each well formed, for unique identifiers.
pub open spec fn beam_sets_wf(
    entries: Seq<(u128, Seq<Feature>)>,
    beams: Seq<Seq<ScoredBeam>>,
    head: nat,
    cfg: DatabaseConfiguration,
) -> bool {
    &&& unique_ids(entries)
    &&& beams.len() == entries.len()
    &&& forall|i: int| 0 <= i < beams.len() ==> beams_wf(#[trigger] beams[i], entries[i].1.len(), head, cfg)
}

proof fn lemma_all_results_distinct(
    entries: Seq<(u128, Seq<Feature>)>,
    beams: Seq<Seq<ScoredBeam>>,
    head: nat,
    cfg: DatabaseConfiguration,
    k: int,
)
    requires
        beam_sets_wf(entries, beams, head, cfg),
        0 <= k <= beams.len(),
    ensures
        distinct_matches(all_results(entries, beams, k)),
    decreases k,
{
    if k > 0 {
        lemma_all_results_distinct(entries, beams, head, cfg, k - 1);
        lemma_all_results_ids(entries, beams, k - 1);
        let a = all_results(entries, beams, k - 1);
        let bs = beams[k - 1];
        let f = |b: ScoredBeam| result_of(entries[k - 1].0, b);
        let r = all_results(entries, beams, k);
        assert(r == a + bs.map_values(f));
        assert(beams_wf(bs, entries[k - 1].1.len(), head, cfg));
        assert forall|i: int, j: int| 0 <= i < r.len() && 0 <= j < r.len() && i != j implies (r[i].uuid
            != r[j].uuid || r[i].key_end != r[j].key_end) by {
            if i < a.len() && j < a.len() {
                assert(r[i] == a[i] && r[j] == a[j]);
            } else if i >= a.len() && j >= a.len() {
                let x = i - a.len();
                let y = j - a.len();
                assert(r[i] == result_of(entries[k - 1].0, bs[x]));
                assert(r[j] == result_of(entries[k - 1].0, bs[y]));
                if x < y {
                    assert(bs[x].path.last() < bs[y].path.last());
                } else {
                    assert(bs[y].path.last() < bs[x].path.last());
                }
            } else if i < a.len() {
                let kk = choose|kk: int| 0 <= kk < k - 1 && (#[trigger] a[i]).uuid == entries[kk].0;
                assert(r[i] == a[i]);
                assert(r[j].uuid == entries[k - 1].0);
                assert(entries[kk].0 != entries[k - 1].0);
            } else {
                let kk = choose|kk: int| 0 <= kk < k - 1 && (#[trigger] a[j]).uuid == entries[kk].0;
                assert(r[j] == a[j]);
                assert(r[i].uuid == entries[k - 1].0);
                assert(entries[kk].0 != entries[k - 1].0);
            }
        }
    }
}

proof fn lemma_sorted_unique(a: Seq<QueryResult>, b: Seq<QueryResult>)
    requires
        a.to_multiset() == b.to_multiset(),
        sorted_results(a),
        sorted_results(b),
        distinct_matches(a),
    ensures
        a == b,
    decreases a.len(),
{
    a.to_multiset_ensures();
    b.to_multiset_ensures();
    if a.len() == 0 {
        assert(b.len() == 0);
        assert(a =~= b);
    } else {
        assert(b.len() == a.len());
        assert(b.to_multiset().count(a[0]) > 0);
        assert(a.to_multiset().count(b[0]) > 0);
        let i = choose|i: int| 0 <= i < a.len() && a[i] == b[0];
        let j = choose|j: int| 0 <= j < b.len() && b[j] == a[0];
        if i > 0 {
            assert(!result_lt(a[i], a[0]));
        }
        if j > 0 {
            assert(!result_lt(b[j], b[0]));
        }
        assert(a[i].uuid == a[0].uuid && a[i].key_end == a[0].key_end);
        assert(i == 0);
        vstd::seq_lib::to_multiset_remove(a, 0);
        vstd::seq_lib::to_multiset_remove(b, 0);
        assert(a.remove(0) =~= a.drop_first());
        assert(b.remove(0) =~= b.drop_first());
        let a1 = a.drop_first();
        let b1 = b.drop_first();
        assert(distinct_matches(a1)) by {
            assert forall|x: int, y: int| 0 <= x < a1.len() && 0 <= y < a1.len() && x != y implies (a1[x].uuid
                != a1[y].uuid || a1[x].key_end != a1[y].key_end) by {
                assert(a1[x] == a[x + 1] && a1[y] == a[y + 1]);
            }
        }
        assert(sorted_results(a1)) by {
            assert forall|x: int, y: int| 0 <= x < y < a1.len() implies !result_lt(a1[y], a1[x]) by {
                assert(a1[x] == a[x + 1] && a1[y] == a[y + 1]);
            }
        }
        assert(sorted_results(b1)) by {
            assert forall|x: int, y: int| 0 <= x < y < b1.len() implies !result_lt(b1[y], b1[x]) by {
                assert(b1[x] == b[x + 1] && b1[y] == b[y + 1]);
            }
        }
        lemma_sorted_unique(a1, b1);
        assert(a =~= b) by {
            assert forall|x: int| 0 <= x < a.len() implies a[x] == b[x] by {
                if x > 0 {
                    assert(a[x] == a1[x - 1] && b[x] == b1[x - 1]);
                }
            }
        }
    }
}

/// The results of a query are determined by its state: any two sequences
/// that both hold exactly its beams' results, best first, are equal, in the
/// same order with the same scores and positions.
proof fn lemma_sorted_results_unique(
    entries: Seq<(u128, Seq<Feature>)>,
    beams: Seq<Seq<ScoredBeam>>,
    head: nat,
    cfg: DatabaseConfiguration,
    r1: Seq<QueryResult>,
    r2: Seq<QueryResult>,
)
    requires
        beam_sets_wf(entries, beams, head, cfg),
        r1.to_multiset() == all_results(entries, beams, beams.len() as int).to_multiset(),
        r2.to_multiset() == all_results(entries, beams, beams.len() as int).to_multiset(),
        sorted_results(r1),
        sorted_results(r2),
    ensures
        r1 == r2,
{
    let all = all_results(entries, beams, beams.len() as int);
    lemma_all_results_distinct(entries, beams, head, cfg, beams.len() as int);
    all.to_multiset_ensures();
    r1.to_multiset_ensures();
    assert(all.no_duplicates()) by {
        assert forall|i: int, j: int| 0 <= i < all.len() && 0 <= j < all.len() && i != j implies all[i] != all[j] by {
        }
    }
    all.lemma_multiset_has_no_duplicates();
    r1.lemma_multiset_has_no_duplicates_conv();
    assert(distinct_matches(r1)) by {
        assert forall|i: int, j: int| 0 <= i < r1.len() && 0 <= j < r1.len() && i != j implies (r1[i].uuid
            != r1[j].uuid || r1[i].key_end != r1[j].key_end) by {
            assert(r1.to_multiset().count(r1[i]) > 0);
            assert(r1.to_multiset().count(r1[j]) > 0);
            let x = choose|x: int| 0 <= x < all.len() && all[x] == r1[i];
            let y = choose|y: int| 0 <= y < all.len() && all[y] == r1[j];
            assert(r1[i] != r1[j]);
        }
    }
    lemma_sorted_unique(r1, r2);
}


/// The results of a query are determined by its state: any two sequences
/// that both hold exactly its beams' results, best first, are equal, in the
/// same order with the same scores and positions.
pub proof fn lemma_results_determined(q: Query, r1: Seq<QueryResult>, r2: Seq<QueryResult>)
    requires
        q.wf(),
        r1.to_multiset() == all_results(q.database().entries(), q.beams(), q.beams().len() as int).to_multiset(),
        r2.to_multiset() == all_results(q.database().entries(), q.beams(), q.beams().len() as int).to_multiset(),
        sorted_results(r1),
        sorted_results(r2),
    ensures
        r1 == r2,
{
    lemma_sorted_results_unique(q.database().entries(), q.beams(), q.head(), q.database().config(), r1, r2);
}

proof fn lemma_beams_after_wf(
    entries: Seq<(u128, Seq<Feature>)>,
    cfg: DatabaseConfiguration,
    query: Seq<Feature>,
    n: nat,
)
    requires
        unique_ids(entries),
        forall|i: int| 0 <= i < entries.len() ==> (#[trigger] entries[i]).1.len() <= usize::MAX,
        n == 0 || (n - 1 < usize::MAX && step_fits((n - 1) as nat, cfg)),
        n <= query.len(),
    ensures
        beam_sets_wf(entries, beams_after(entries, cfg, query, n), n, cfg),
    decreases n,
{
    let b = beams_after(entries, cfg, query, n);
    if n > 0 {
        let m = (n - 1) as nat;
        if m > 0 {
            assert(step_fits((m - 1) as nat, cfg));
        }
        lemma_beams_after_wf(entries, cfg, query, m);
        let prev = beams_after(entries, cfg, query, m);
        assert forall|i: int| 0 <= i < b.len() implies beams_wf(#[trigger] b[i], entries[i].1.len(), n, cfg) by {
            assert(beams_wf(prev[i], entries[i].1.len(), m, cfg));
            lemma_step_wf(prev[i], entries[i].1, query[m as int].0, m as usize, cfg);
        }
    }
}

/// Two runs of a whole query over databases with the same keys and the same
/// configuration, fed the same fingerprints, give identical results: the same
/// order, identifiers, scores and positions.
pub proof fn lemma_search_determined(
    db1: Database,
    db2: Database,
    query: Seq<Feature>,
    r1: Seq<QueryResult>,
    r2: Seq<QueryResult>,
)
    requires
        db1.wf(),
        db1.entries() == db2.entries(),
        db1.config() == db2.config(),
        db1.fits_query(query.len()),
        r1.to_multiset() == all_results(
            db1.entries(),
            beams_after(db1.entries(), db1.config(), query, query.len()),
            db1.entries().len() as int,
        ).to_multiset(),
        r2.to_multiset() == all_results(
            db2.entries(),
            beams_after(db2.entries(), db2.config(), query, query.len()),
            db2.entries().len() as int,
        ).to_multiset(),
        sorted_results(r1),
        sorted_results(r2),
    ensures
        r1 == r2,
{
    let entries = db1.entries();
    let cfg = db1.config();
    lemma_beams_after_wf(entries, cfg, query, query.len());
    let beams = beams_after(entries, cfg, query, query.len());
    lemma_sorted_results_unique(entries, beams, query.len(), cfg, r1, r2);
}

} // verus!
