//! Queries over a built index: lookup by id, capitals, country records,
//! name suggestions and nearest places.
use vstd::prelude::*;
use std::collections::HashMap;
use vstd::std_specs::hash::spec_keys_iter;
use vstd::std_specs::iter::IteratorSpec;
use crate::text::{chars_of, starts_with, uppercase, upper_of, lowercase, lower_of};
use crate::number::{MAX_LATITUDE, MAX_LONGITUDE};
use crate::index::{IndexData, City, Entry, CountryRecord, pair_lookup};
use crate::builder::find_pair;
use crate::metadata::EngineMetadata;
use crate::rank::{lemma_selection_prefix, Key, is_selection, keys_distinct, select_smallest};

verus! {

broadcast use vstd::std_specs::hash::group_hash_axioms, vstd::seq_lib::group_seq_properties;

/// The bit pattern of the similarity `1.0`, given to an entry that starts with the pattern.
pub const PREFIX_SCORE: u64 = 0x3ff0_0000_0000_0000;

/// The bit pattern of the default minimum similarity `0.8`.
pub const DEFAULT_MIN_SCORE: u64 = 0x3fe9_9999_9999_999a;

/// Name for what `strsim::jaro_winkler` returns on two character sequences,
/// as the IEEE-754 bit pattern of the `f64` it computes.
pub uninterp spec fn jaro_winkler_bits(a: Seq<char>, b: Seq<char>) -> u64;

/// Relies on `strsim::jaro_winkler`: a similarity that depends on the two
/// strings alone, handed back as its bit pattern. For the non-negative values
/// it computes, the order of the bit patterns is the order of the numbers.
#[verifier::external_body]
fn similarity_bits(a: &str, b: &str) -> (r: u64)
    ensures
        r == jaro_winkler_bits(a@, b@),
{
    strsim::jaro_winkler(a, b).to_bits()
}

/// The sign bit of an `f64`: a minimum with it set is negative.
pub const SIGN_BIT: u64 = 0x8000_0000_0000_0000;

/// The minimum score that applies: the default without one, and zero (every
/// entry) for a negative one, whose bit pattern would otherwise compare above
/// every score.
pub open spec fn effective_min(min_score: Option<u64>) -> u64 {
    match min_score {
        Some(m) => if m >= SIGN_BIT { 0 } else { m },
        None => DEFAULT_MIN_SCORE,
    }
}

/// A read-only handle over an index, with the ids of its cities listed once
/// each for nearest-place queries.
pub struct Engine {
    pub data: IndexData,
    /// The ids of the cities of `data`, each once; `Engine::new` lists them.
    pub order: Vec<u32>,
}

/// An index ready for queries, with the metadata stored beside it.
pub struct EngineData {
    pub engine: Engine,
    pub metadata: Option<EngineMetadata>,
}

impl EngineData {
    /// Prepares a built index for queries; it has no metadata yet.
    pub fn from_index(data: IndexData) -> (r: EngineData)
        ensures
            r.engine.data == data,
            r.engine.wf(),
            r.metadata is None,
    {
        EngineData { engine: Engine::new(data), metadata: None }
    }

    /// The query handle.
    pub fn as_engine(&self) -> (r: &Engine)
        ensures
            *r == self.engine,
    {
        &self.engine
    }
}

/// One nearest-place result: the city, its squared distance in micro-degrees
/// squared, and its score (the distance less the population weight, if any).
pub struct ReverseItem<'a> {
    pub city: &'a City,
    pub distance: i128,
    pub score: i128,
}

/// The last country record whose ISO code, in upper case, is `code`.
pub open spec fn last_record(s: Seq<CountryRecord>, code: Seq<char>) -> Option<CountryRecord>
    decreases s.len(),
{
    if s.len() == 0 {
        None
    } else if upper_of(s.last().info.iso@) == code {
        Some(s.last())
    } else {
        last_record(s.drop_last(), code)
    }
}

/// The city with id `id`, if any.
pub open spec fn city_by_id(e: Engine, id: u32) -> Option<City> {
    if e.data.geonames@.contains_key(id) {
        Some(e.data.geonames@[id])
    } else {
        None
    }
}

/// Position of the last country record with ISO code `code`.
fn find_record(s: &Vec<CountryRecord>, code: &String) -> (r: Option<usize>)
    ensures
        match r {
            Some(i) => i < s.len() && last_record(s@, code@) == Some(s@[i as int]),
            None => last_record(s@, code@) is None,
        },
{
    let mut found: Option<usize> = None;
    let mut i: usize = 0;
    while i < s.len()
        invariant
            i <= s.len(),
            match found {
                Some(j) => j < i && last_record(s@.take(i as int), code@) == Some(s@[j as int]),
                None => last_record(s@.take(i as int), code@) is None,
            },
        decreases s.len() - i,
    {
        assert(s@.take(i as int + 1).drop_last() =~= s@.take(i as int));
        if uppercase(s[i].info.iso.as_str()) == *code {
            found = Some(i);
        }
        i += 1;
    }
    assert(s@.take(s.len() as int) =~= s@);
    found
}

/// The score of an entry for a normalised pattern: that of `1.0` when the
/// entry starts with the pattern, else the Jaro-Winkler similarity.
pub open spec fn entry_score(e: Entry, p: Seq<char>) -> u64 {
    if p.is_prefix_of(e.value@) {
        PREFIX_SCORE
    } else {
        jaro_winkler_bits(e.value@, p)
    }
}

/// Whether the entry's country is one of the allowed ones (all are, without a filter).
pub open spec fn eligible(e: Entry, allowed: Option<Seq<u32>>) -> bool {
    match allowed {
        None => true,
        Some(a) => e.country_id matches Some(c) && a.contains(c),
    }
}

/// Whether an entry takes part in a suggestion: eligible, scored at least
/// `min`, and naming a city of the table.
pub open spec fn qualifies(g: Map<u32, City>, e: Entry, p: Seq<char>, min: u64, allowed: Option<Seq<u32>>) -> bool {
    eligible(e, allowed) && entry_score(e, p) >= min && g.contains_key(e.id)
}

/// The best score of city `id` over the qualifying entries.
pub open spec fn best_score(g: Map<u32, City>, es: Seq<Entry>, p: Seq<char>, min: u64, allowed: Option<Seq<u32>>, id: u32) -> Option<u64>
    decreases es.len(),
{
    if es.len() == 0 {
        None
    } else {
        let prev = best_score(g, es.drop_last(), p, min, allowed, id);
        let e = es.last();
        if qualifies(g, e, p, min, allowed) && e.id == id {
            match prev {
                Some(b) => Some(if entry_score(e, p) > b { entry_score(e, p) } else { b }),
                None => Some(entry_score(e, p)),
            }
        } else {
            prev
        }
    }
}

/// The cities with a qualifying entry, each once, in the order of their first one.
pub open spec fn candidates(g: Map<u32, City>, es: Seq<Entry>, p: Seq<char>, min: u64, allowed: Option<Seq<u32>>) -> Seq<u32>
    decreases es.len(),
{
    if es.len() == 0 {
        Seq::empty()
    } else {
        let prev = candidates(g, es.drop_last(), p, min, allowed);
        let e = es.last();
        if qualifies(g, e, p, min, allowed) && !prev.contains(e.id) {
            prev.push(e.id)
        } else {
            prev
        }
    }
}

/// The ranking key of a candidate: higher score first, then larger
/// population, then smaller id.
pub open spec fn rank_key(g: Map<u32, City>, es: Seq<Entry>, p: Seq<char>, min: u64, allowed: Option<Seq<u32>>, id: u32) -> Key {
    (
        (0 - best_score(g, es, p, min, allowed, id)->0) as i128,
        (0 - g[id].population) as i128,
        id as i128,
    )
}

pub open spec fn suggest_keys(g: Map<u32, City>, es: Seq<Entry>, p: Seq<char>, min: u64, allowed: Option<Seq<u32>>) -> Seq<Key> {
    candidates(g, es, p, min, allowed).map_values(|id: u32| rank_key(g, es, p, min, allowed, id))
}

/// The ids of the countries that the codes name, through the country records
/// (codes in any case); codes without a record are ignored.
pub open spec fn allowed_ids(records: Seq<CountryRecord>, codes: Seq<String>) -> Seq<u32>
    decreases codes.len(),
{
    if codes.len() == 0 {
        Seq::empty()
    } else {
        let prev = allowed_ids(records, codes.drop_last());
        match last_record(records, upper_of(codes.last()@)) {
            Some(rec) => prev.push(rec.info.geonameid),
            None => prev,
        }
    }
}

pub open spec fn allowed_of(e: Engine, countries: Option<Seq<String>>) -> Option<Seq<u32>> {
    match countries {
        Some(c) => Some(allowed_ids(e.data.country_info_by_code@, c)),
        None => None,
    }
}

/// `r` is the suggestion for the pattern: the `limit` best-ranked candidate
/// cities, best first.
pub open spec fn suggested(e: Engine, pattern: Seq<char>, limit: int, min: u64, countries: Option<Seq<String>>, r: Seq<City>) -> bool {
    let g = e.data.geonames@;
    let es = e.data.entries@;
    let p = lower_of(pattern);
    let allowed = allowed_of(e, countries);
    let cand = candidates(g, es, p, min, allowed);
    exists|sel: Seq<usize>| #[trigger] is_selection(suggest_keys(g, es, p, min, allowed), limit, sel)
        && r.len() == sel.len()
        && forall|k: int| 0 <= k < r.len() ==> r[k] == g[cand[sel[k] as int]]
}

pub open spec fn ids_view(o: Option<Vec<u32>>) -> Option<Seq<u32>> {
    match o {
        Some(a) => Some(a@),
        None => None,
    }
}

/// Each candidate appears once.
pub proof fn lemma_candidates_unique(g: Map<u32, City>, es: Seq<Entry>, p: Seq<char>, min: u64, allowed: Option<Seq<u32>>)
    ensures
        candidates(g, es, p, min, allowed).no_duplicates(),
    decreases es.len(),
{
    if es.len() > 0 {
        lemma_candidates_unique(g, es.drop_last(), p, min, allowed);
        let prev = candidates(g, es.drop_last(), p, min, allowed);
        let e = es.last();
        if qualifies(g, e, p, min, allowed) && !prev.contains(e.id) {
            assert forall|a: int, b: int| 0 <= a < b < prev.push(e.id).len() implies prev.push(e.id)[a] != prev.push(e.id)[b] by {
                if b == prev.len() {
                    assert(prev[a] == prev.push(e.id)[a]);
                }
            }
        }
    }
}

/// The keys of the candidates are distinct.
pub proof fn lemma_suggest_keys_distinct(g: Map<u32, City>, es: Seq<Entry>, p: Seq<char>, min: u64, allowed: Option<Seq<u32>>)
    ensures
        keys_distinct(suggest_keys(g, es, p, min, allowed)),
{
    lemma_candidates_unique(g, es, p, min, allowed);
    let c = candidates(g, es, p, min, allowed);
    let k = suggest_keys(g, es, p, min, allowed);
    assert forall|x: int, y: int| 0 <= x < k.len() && 0 <= y < k.len() && x != y implies k[x] != k[y] by {
        assert(c[x] != c[y]);
    }
}

/// A suggestion is a prefix of the suggestion for the same query with a
/// larger limit.
pub proof fn lemma_suggest_monotone_in_limit(
    e: Engine,
    pattern: Seq<char>,
    n: int,
    m: int,
    min: u64,
    countries: Option<Seq<String>>,
    r1: Seq<City>,
    r2: Seq<City>,
)
    requires
        0 <= n <= m,
        suggested(e, pattern, n, min, countries, r1),
        suggested(e, pattern, m, min, countries, r2),
    ensures
        r1.len() <= r2.len(),
        r1 == r2.take(r1.len() as int),
{
    let g = e.data.geonames@;
    let es = e.data.entries@;
    let p = lower_of(pattern);
    let allowed = allowed_of(e, countries);
    let keys = suggest_keys(g, es, p, min, allowed);
    let cand = candidates(g, es, p, min, allowed);
    let sel1 = choose|sel: Seq<usize>| #[trigger] is_selection(keys, n, sel) && r1.len() == sel.len()
        && forall|k: int| 0 <= k < r1.len() ==> r1[k] == g[cand[sel[k] as int]];
    let sel2 = choose|sel: Seq<usize>| #[trigger] is_selection(keys, m, sel) && r2.len() == sel.len()
        && forall|k: int| 0 <= k < r2.len() ==> r2[k] == g[cand[sel[k] as int]];
    lemma_suggest_keys_distinct(g, es, p, min, allowed);
    lemma_selection_prefix(keys, n, m, sel1, sel2);
    assert forall|k: int| 0 <= k < r1.len() implies r1[k] == r2[k] by {
        assert(sel1[k] == sel2.take(sel1.len() as int)[k]);
    }
    assert(r1 =~= r2.take(r1.len() as int));
}

/// The same query gives the same suggestion every time.
pub proof fn lemma_suggest_deterministic(
    e: Engine,
    pattern: Seq<char>,
    limit: int,
    min: u64,
    countries: Option<Seq<String>>,
    r1: Seq<City>,
    r2: Seq<City>,
)
    requires
        0 <= limit,
        suggested(e, pattern, limit, min, countries, r1),
        suggested(e, pattern, limit, min, countries, r2),
    ensures
        r1 == r2,
{
    lemma_suggest_monotone_in_limit(e, pattern, limit, limit, min, countries, r1, r2);
    lemma_suggest_monotone_in_limit(e, pattern, limit, limit, min, countries, r2, r1);
    assert(r1 =~= r2);
}

/// A query point within the valid ranges of latitude and longitude.
pub open spec fn point_ok(lat: i32, lng: i32) -> bool {
    -MAX_LATITUDE <= lat <= MAX_LATITUDE && -MAX_LONGITUDE <= lng <= MAX_LONGITUDE
}

/// Squared Euclidean distance in (latitude, longitude), in micro-degrees squared.
pub open spec fn sq_distance(c: City, lat: i32, lng: i32) -> int {
    (c.latitude - lat) * (c.latitude - lat) + (c.longitude - lng) * (c.longitude - lng)
}

/// The distance less `k` per inhabitant.
pub open spec fn weighted_score(c: City, lat: i32, lng: i32, k: u64) -> int {
    sq_distance(c, lat, lng) - k * c.population
}

/// Whether the city's country code is one of `codes`, both taken in upper case
/// (every city is, without a filter).
pub open spec fn in_country_set(c: City, codes: Option<Seq<String>>) -> bool {
    match codes {
        None => true,
        Some(cs) => c.country matches Some(k) && exists|j: int| 0 <= j < cs.len() && upper_of((#[trigger] cs[j])@) == upper_of(k.code@),
    }
}

/// The cities of `order` in the country set, in order.
pub open spec fn near_candidates(g: Map<u32, City>, order: Seq<u32>, codes: Option<Seq<String>>) -> Seq<u32>
    decreases order.len(),
{
    if order.len() == 0 {
        Seq::empty()
    } else {
        let prev = near_candidates(g, order.drop_last(), codes);
        if in_country_set(g[order.last()], codes) {
            prev.push(order.last())
        } else {
            prev
        }
    }
}

/// Nearest first, then smaller id.
pub open spec fn near_keys(g: Map<u32, City>, cand: Seq<u32>, lat: i32, lng: i32) -> Seq<Key> {
    cand.map_values(|id: u32| (sq_distance(g[id], lat, lng) as i128, id as i128, 0i128))
}

/// Smaller weighted score first, then nearer, then smaller id.
pub open spec fn weighted_keys(g: Map<u32, City>, cand: Seq<u32>, sel: Seq<usize>, lat: i32, lng: i32, k: u64) -> Seq<Key> {
    sel.map_values(|j: usize| (
        weighted_score(g[cand[j as int]], lat, lng, k) as i128,
        sq_distance(g[cand[j as int]], lat, lng) as i128,
        cand[j as int] as i128,
    ))
}

/// The view of a result item: (city, distance, score).
pub open spec fn item_view(it: ReverseItem) -> (City, i128, i128) {
    (*it.city, it.distance, it.score)
}

/// `r` answers the nearest-place query: none for a zero limit, nothing for a
/// point out of range; else the `limit` nearest cities of the country set,
/// nearest first, or, with a weight `k`, those same cities ordered by
/// weighted score.
pub open spec fn reversed(e: Engine, lat: i32, lng: i32, limit: int, k: Option<u64>, codes: Option<Seq<String>>, r: Option<Seq<(City, i128, i128)>>) -> bool {
    let g = e.data.geonames@;
    let cand = near_candidates(g, e.order@, codes);
    if limit == 0 {
        r is None
    } else if !point_ok(lat, lng) {
        r == Some(Seq::<(City, i128, i128)>::empty())
    } else {
        r matches Some(items) && exists|sel: Seq<usize>| #[trigger] is_selection(near_keys(g, cand, lat, lng), limit, sel) && match k {
            None => items.len() == sel.len() && forall|i: int| 0 <= i < items.len() ==> {
                let c = g[cand[sel[i] as int]];
                #[trigger] items[i] == (c, sq_distance(c, lat, lng) as i128, sq_distance(c, lat, lng) as i128)
            },
            Some(w) => exists|sel2: Seq<usize>| #[trigger] is_selection(weighted_keys(g, cand, sel, lat, lng, w), sel.len() as int, sel2)
                && items.len() == sel2.len() && forall|i: int| 0 <= i < items.len() ==> {
                    let c = g[cand[sel[sel2[i] as int] as int]];
                    #[trigger] items[i] == (c, sq_distance(c, lat, lng) as i128, weighted_score(c, lat, lng, w) as i128)
                },
        }
    }
}

fn distance(c: &City, lat: i32, lng: i32) -> (r: i128)
    ensures
        r == sq_distance(*c, lat, lng),
        0 <= r <= 0x2_0000_0000_0000_0000,
{
    let a = (c.latitude as i128) - (lat as i128);
    let b = (c.longitude as i128) - (lng as i128);
    assert(a * a <= 0x1_0000_0000_0000_0000 && a * a >= 0) by (nonlinear_arith)
        requires -0x1_0000_0000 <= a <= 0x1_0000_0000;
    assert(b * b <= 0x1_0000_0000_0000_0000 && b * b >= 0) by (nonlinear_arith)
        requires -0x1_0000_0000 <= b <= 0x1_0000_0000;
    a * a + b * b
}

fn weighted(c: &City, d: i128, k: u64) -> (r: i128)
    requires
        0 <= d <= 0x2_0000_0000_0000_0000,
    ensures
        r == d - k * c.population,
{
    let kk = k as i128;
    let pp = c.population as i128;
    assert(0 <= kk * pp <= 0x1_0000_0000_0000_0000 * 0x1_0000_0000) by (nonlinear_arith)
        requires 0 <= kk <= 0x1_0000_0000_0000_0000, 0 <= pp <= 0x1_0000_0000;
    let w = kk * pp;
    d - w
}

/// A city is a candidate exactly when it has a best score.
pub proof fn lemma_candidates_scored(g: Map<u32, City>, es: Seq<Entry>, p: Seq<char>, min: u64, allowed: Option<Seq<u32>>, id: u32)
    ensures
        candidates(g, es, p, min, allowed).contains(id) <==> best_score(g, es, p, min, allowed, id) is Some,
    decreases es.len(),
{
    if es.len() > 0 {
        lemma_candidates_scored(g, es.drop_last(), p, min, allowed, id);
        let prev = candidates(g, es.drop_last(), p, min, allowed);
        let e = es.last();
        if qualifies(g, e, p, min, allowed) && !prev.contains(e.id) {
            let c = prev.push(e.id);
            if id == e.id {
                assert(c[c.len() - 1] == id);
            } else {
                if c.contains(id) {
                    let j = choose|j: int| 0 <= j < c.len() && c[j] == id;
                    assert(prev[j] == id);
                }
                if prev.contains(id) {
                    let j = choose|j: int| 0 <= j < prev.len() && prev[j] == id;
                    assert(c[j] == id);
                }
            }
        }
    }
}

/// An eligible entry of a city of the table that starts with the pattern
/// gives the city the prefix score, when the minimum allows it.
pub proof fn lemma_prefix_entry_scores(g: Map<u32, City>, es: Seq<Entry>, p: Seq<char>, min: u64, allowed: Option<Seq<u32>>, k: int)
    requires
        0 <= k < es.len(),
        eligible(es[k], allowed),
        p.is_prefix_of(es[k].value@),
        min <= PREFIX_SCORE,
        g.contains_key(es[k].id),
    ensures
        best_score(g, es, p, min, allowed, es[k].id) matches Some(b) && b >= PREFIX_SCORE,
    decreases es.len(),
{
    let id = es[k].id;
    if k < es.len() - 1 {
        lemma_prefix_entry_scores(g, es.drop_last(), p, min, allowed, k);
    }
}

/// Among the cities suggested, one that an entry starting with the pattern
/// names comes before one whose entries all score below that of a prefix.
pub proof fn lemma_prefix_dominance(
    e: Engine,
    pattern: Seq<char>,
    limit: int,
    min: u64,
    countries: Option<Seq<String>>,
    r: Seq<City>,
    a: u32,
    b: u32,
    j: int,
)
    requires
        suggested(e, pattern, limit, min, countries, r),
        forall|id: u32| #[trigger] e.data.geonames@.contains_key(id) ==> e.data.geonames@[id].id == id,
        best_score(e.data.geonames@, e.data.entries@, lower_of(pattern), min, allowed_of(e, countries), a) matches Some(x) && x >= PREFIX_SCORE,
        best_score(e.data.geonames@, e.data.entries@, lower_of(pattern), min, allowed_of(e, countries), b) matches Some(y) && y < PREFIX_SCORE,
        0 <= j < r.len(),
        r[j].id == b,
    ensures
        exists|i: int| 0 <= i < j && r[i].id == a,
{
    let g = e.data.geonames@;
    let es = e.data.entries@;
    let p = lower_of(pattern);
    let allowed = allowed_of(e, countries);
    let keys = suggest_keys(g, es, p, min, allowed);
    let cand = candidates(g, es, p, min, allowed);
    let sel = choose|sel: Seq<usize>| #[trigger] is_selection(keys, limit, sel) && r.len() == sel.len()
        && forall|k: int| 0 <= k < r.len() ==> r[k] == g[cand[sel[k] as int]];
    lemma_candidates_scored(g, es, p, min, allowed, a);
    lemma_candidates_scored(g, es, p, min, allowed, b);
    lemma_candidates_unique(g, es, p, min, allowed);
    lemma_suggest_keys_distinct(g, es, p, min, allowed);
    lemma_candidates_in_table(g, es, p, min, allowed);
    let xb = sel[j] as int;
    assert(g.contains_key(cand[xb]));
    assert(r[j] == g[cand[xb]]);
    assert(cand[xb] == b);
    let xa = choose|x: int| 0 <= x < cand.len() && cand[x] == a;
    lemma_candidates_len(g, es, p, min, allowed);
    assert(e.data.entries.len() == es.len());
    assert((xa as usize) as int == xa);
    assert(crate::rank::key_lt(keys[xa], keys[xb]));
    if !sel.contains(xa as usize) {
        assert(crate::rank::key_lt(keys[sel[j] as int], keys[xa]));
        assert(false);
    }
    let i = choose|i: int| 0 <= i < sel.len() && sel[i] == xa as usize;
    if i > j {
        assert(crate::rank::key_lt(keys[sel[j] as int], keys[sel[i] as int]));
        assert(false);
    }
    assert(i != j);
    assert(g.contains_key(cand[xa]));
    assert(r[i] == g[cand[sel[i] as int]]);
    assert(r[i] == g[a]);
}

proof fn lemma_candidates_len(g: Map<u32, City>, es: Seq<Entry>, p: Seq<char>, min: u64, allowed: Option<Seq<u32>>)
    ensures
        candidates(g, es, p, min, allowed).len() <= es.len(),
    decreases es.len(),
{
    if es.len() > 0 {
        lemma_candidates_len(g, es.drop_last(), p, min, allowed);
    }
}

/// Every candidate names a city of the table.
pub proof fn lemma_candidates_in_table(g: Map<u32, City>, es: Seq<Entry>, p: Seq<char>, min: u64, allowed: Option<Seq<u32>>)
    ensures
        forall|x: int| 0 <= x < candidates(g, es, p, min, allowed).len() ==> g.contains_key(#[trigger] candidates(g, es, p, min, allowed)[x]),
    decreases es.len(),
{
    if es.len() > 0 {
        lemma_candidates_in_table(g, es.drop_last(), p, min, allowed);
        let prev = candidates(g, es.drop_last(), p, min, allowed);
        assert forall|x: int| 0 <= x < candidates(g, es, p, min, allowed).len() implies g.contains_key(#[trigger] candidates(g, es, p, min, allowed)[x]) by {
            if x < prev.len() {
                assert(candidates(g, es, p, min, allowed)[x] == prev[x]);
            }
        }
    }
}

proof fn lemma_candidate_entry(g: Map<u32, City>, es: Seq<Entry>, p: Seq<char>, min: u64, allowed: Option<Seq<u32>>, x: int)
    requires
        0 <= x < candidates(g, es, p, min, allowed).len(),
    ensures
        exists|k: int| 0 <= k < es.len() && es[k].id == candidates(g, es, p, min, allowed)[x]
            && #[trigger] qualifies(g, es[k], p, min, allowed),
    decreases es.len(),
{
    let prev = candidates(g, es.drop_last(), p, min, allowed);
    if x < prev.len() {
        lemma_candidate_entry(g, es.drop_last(), p, min, allowed, x);
        let k = choose|k: int| 0 <= k < es.drop_last().len() && es.drop_last()[k].id == prev[x]
            && #[trigger] qualifies(g, es.drop_last()[k], p, min, allowed);
        assert(es[k] == es.drop_last()[k]);
        assert(candidates(g, es, p, min, allowed)[x] == prev[x]);
    } else {
        assert(es[es.len() - 1] == es.last());
    }
}

proof fn lemma_last_record_found(s: Seq<CountryRecord>, code: Seq<char>)
    ensures
        last_record(s, code) matches Some(x) ==> exists|i: int| 0 <= i < s.len() && s[i] == x && upper_of(x.info.iso@) == code,
    decreases s.len(),
{
    if s.len() > 0 {
        lemma_last_record_found(s.drop_last(), code);
        if upper_of(s.last().info.iso@) != code {
            if let Some(x) = last_record(s, code) {
                let i = choose|i: int| 0 <= i < s.drop_last().len() && s.drop_last()[i] == x && upper_of(x.info.iso@) == code;
                assert(s[i] == s.drop_last()[i]);
            }
        } else {
            assert(s[s.len() - 1] == s.last());
        }
    }
}

proof fn lemma_allowed_from_codes(records: Seq<CountryRecord>, codes: Seq<String>, cid: u32)
    requires
        allowed_ids(records, codes).contains(cid),
    ensures
        exists|c: int, i: int| 0 <= c < codes.len() && 0 <= i < records.len()
            && (#[trigger] records[i]).info.geonameid == cid && upper_of(records[i].info.iso@) == upper_of((#[trigger] codes[c])@),
    decreases codes.len(),
{
    let prev = allowed_ids(records, codes.drop_last());
    let last = codes.last();
    lemma_last_record_found(records, upper_of(last@));
    if prev.contains(cid) {
        lemma_allowed_from_codes(records, codes.drop_last(), cid);
        let (c, i) = choose|c: int, i: int| 0 <= c < codes.drop_last().len() && 0 <= i < records.len()
            && (#[trigger] records[i]).info.geonameid == cid && upper_of(records[i].info.iso@) == upper_of((#[trigger] codes.drop_last()[c])@);
        assert(codes[c] == codes.drop_last()[c]);
    } else {
        let rec = last_record(records, upper_of(last@))->0;
        let a = allowed_ids(records, codes);
        assert(a == prev.push(rec.info.geonameid));
        let j = choose|j: int| 0 <= j < a.len() && a[j] == cid;
        if j < prev.len() {
            assert(prev[j] == cid);
        }
        let i = choose|i: int| 0 <= i < records.len() && records[i] == rec && upper_of(rec.info.iso@) == upper_of(last@);
        assert(codes[codes.len() - 1] == last);
    }
}

/// Each entry with a country id names a city of the table whose country has
/// that id, and a country record and a city's country with the same id have
/// the same code.
pub open spec fn countries_consistent(d: IndexData) -> bool {
    &&& forall|k: int| 0 <= k < d.entries@.len() && (#[trigger] d.entries@[k]).country_id is Some ==> {
        &&& d.geonames@.contains_key(d.entries@[k].id)
        &&& d.geonames@[d.entries@[k].id].country matches Some(c) && c.id == d.entries@[k].country_id->0
    }
    &&& forall|id: u32, i: int| #![trigger d.geonames@[id], d.country_info_by_code@[i]]
        d.geonames@.contains_key(id) && 0 <= i < d.country_info_by_code@.len()
            && d.geonames@[id].country is Some && d.geonames@[id].country->0.id == d.country_info_by_code@[i].info.geonameid
            ==> d.geonames@[id].country->0.code == d.country_info_by_code@[i].info.iso
}

/// With a country filter, every suggested city is of a country whose code,
/// in upper case, is one of the codes asked for, in upper case, when the
/// index is consistent about countries (`lemma_built_countries_consistent`
/// gives that for built indexes).
pub proof fn lemma_suggest_in_countries(
    e: Engine,
    pattern: Seq<char>,
    limit: int,
    min: u64,
    codes: Seq<String>,
    r: Seq<City>,
    t: int,
)
    requires
        suggested(e, pattern, limit, min, Some(codes), r),
        countries_consistent(e.data),
        0 <= t < r.len(),
    ensures
        r[t].country matches Some(c) && exists|j: int| 0 <= j < codes.len() && upper_of(c.code@) == upper_of((#[trigger] codes[j])@),
{
    let g = e.data.geonames@;
    let es = e.data.entries@;
    let p = lower_of(pattern);
    let allowed = allowed_of(e, Some(codes));
    let keys = suggest_keys(g, es, p, min, allowed);
    let cand = candidates(g, es, p, min, allowed);
    let sel = choose|sel: Seq<usize>| #[trigger] is_selection(keys, limit, sel) && r.len() == sel.len()
        && forall|k: int| 0 <= k < r.len() ==> r[k] == g[cand[sel[k] as int]];
    let x = sel[t] as int;
    let id = cand[x];
    lemma_candidate_entry(g, es, p, min, allowed, x);
    let k = choose|k: int| 0 <= k < es.len() && es[k].id == id && #[trigger] qualifies(g, es[k], p, min, allowed);
    let cid = es[k].country_id->0;
    lemma_allowed_from_codes(e.data.country_info_by_code@, codes, cid);
    let (c, i) = choose|c: int, i: int| 0 <= c < codes.len() && 0 <= i < e.data.country_info_by_code@.len()
        && (#[trigger] e.data.country_info_by_code@[i]).info.geonameid == cid
        && upper_of(e.data.country_info_by_code@[i].info.iso@) == upper_of((#[trigger] codes[c])@);
    assert(e.data.entries@[k].country_id is Some);
    assert(g[id].country matches Some(cc) && cc.id == cid);
    assert(g[id].country->0.code == e.data.country_info_by_code@[i].info.iso);
    assert(r[t] == g[id]);
}

/// With a country filter, every city that the nearest-place query returns
/// is of one of the countries asked for.
pub proof fn lemma_reverse_in_countries(
    e: Engine,
    lat: i32,
    lng: i32,
    limit: int,
    k: Option<u64>,
    codes: Seq<String>,
    items: Seq<(City, i128, i128)>,
    t: int,
)
    requires
        reversed(e, lat, lng, limit, k, Some(codes), Some(items)),
        0 <= t < items.len(),
    ensures
        in_country_set(items[t].0, Some(codes)),
{
    let g = e.data.geonames@;
    let cand = near_candidates(g, e.order@, Some(codes));
    lemma_near_candidates_in_set(g, e.order@, Some(codes));
    let sel = choose|sel: Seq<usize>| #[trigger] is_selection(near_keys(g, cand, lat, lng), limit, sel) && match k {
        None => items.len() == sel.len() && forall|i: int| 0 <= i < items.len() ==> {
            let c = g[cand[sel[i] as int]];
            #[trigger] items[i] == (c, sq_distance(c, lat, lng) as i128, sq_distance(c, lat, lng) as i128)
        },
        Some(w) => exists|sel2: Seq<usize>| #[trigger] is_selection(weighted_keys(g, cand, sel, lat, lng, w), sel.len() as int, sel2)
            && items.len() == sel2.len() && forall|i: int| 0 <= i < items.len() ==> {
                let c = g[cand[sel[sel2[i] as int] as int]];
                #[trigger] items[i] == (c, sq_distance(c, lat, lng) as i128, weighted_score(c, lat, lng, w) as i128)
            },
    };
    match k {
        None => {
            assert(items[t] == (g[cand[sel[t] as int]], sq_distance(g[cand[sel[t] as int]], lat, lng) as i128, sq_distance(g[cand[sel[t] as int]], lat, lng) as i128));
        },
        Some(w) => {
            let sel2 = choose|sel2: Seq<usize>| #[trigger] is_selection(weighted_keys(g, cand, sel, lat, lng, w), sel.len() as int, sel2)
                && items.len() == sel2.len() && forall|i: int| 0 <= i < items.len() ==> {
                    let c = g[cand[sel[sel2[i] as int] as int]];
                    #[trigger] items[i] == (c, sq_distance(c, lat, lng) as i128, weighted_score(c, lat, lng, w) as i128)
                };
            let q = sel2[t] as int;
            assert(weighted_keys(g, cand, sel, lat, lng, w).len() == sel.len());
            assert(items[t].0 == g[cand[sel[q] as int]]);
        },
    }
}

proof fn lemma_near_candidates_in_set(g: Map<u32, City>, order: Seq<u32>, codes: Option<Seq<String>>)
    ensures
        forall|x: int| 0 <= x < near_candidates(g, order, codes).len() ==> in_country_set(g[#[trigger] near_candidates(g, order, codes)[x]], codes),
    decreases order.len(),
{
    if order.len() > 0 {
        lemma_near_candidates_in_set(g, order.drop_last(), codes);
        let prev = near_candidates(g, order.drop_last(), codes);
        assert forall|x: int| 0 <= x < near_candidates(g, order, codes).len() implies in_country_set(g[#[trigger] near_candidates(g, order, codes)[x]], codes) by {
            if x < prev.len() {
                assert(near_candidates(g, order, codes)[x] == prev[x]);
            }
        }
    }
}

fn vec_contains(v: &Vec<u32>, x: u32) -> (r: bool)
    ensures
        r == v@.contains(x),
{
    let mut i: usize = 0;
    while i < v.len()
        invariant
            i <= v.len(),
            forall|j: int| 0 <= j < i ==> v@[j] != x,
        decreases v.len() - i,
    {
        if v[i] == x {
            return true;
        }
        i += 1;
    }
    false
}

impl Engine {
    /// The handle lists each city of the table once.
    pub open spec fn wf(&self) -> bool {
        &&& self.order@.no_duplicates()
        &&& forall|id: u32| #[trigger] self.order@.contains(id) <==> self.data.geonames@.contains_key(id)
    }

    /// Wraps an index for queries.
    pub fn new(data: IndexData) -> (r: Engine)
        ensures
            r.data == data,
            r.wf(),
    {
        let mut order: Vec<u32> = Vec::new();
        for k in it: data.geonames.keys()
            invariant
                it.seq() == spec_keys_iter(&data.geonames).remaining(),
                order@ == it.seq().take(it.index() as int).map_values(|x: &u32| *x),
        {
            order.push(*k);
            assert(order@ =~= it.seq().take(it.index() as int + 1).map_values(|x: &u32| *x));
        }
        let ghost rem = spec_keys_iter(&data.geonames).remaining();
        proof {
            assert(order@ =~= rem.unref());
            assert(rem.no_duplicates());
            assert(rem.unref().to_set() == data.geonames@.dom());
            assert forall|a: int, b: int| 0 <= a < b < order@.len() implies order@[a] != order@[b] by {
                assert(rem[a] != rem[b]);
            }
            assert forall|id: u32| #[trigger] order@.contains(id) <==> data.geonames@.contains_key(id) by {
                assert(order@.to_set().contains(id) <==> order@.contains(id));
            }
        }
        Engine { data, order }
    }

    /// The city with GeoNames id `id`.
    pub fn get(&self, id: u32) -> (r: Option<&City>)
        ensures
            match r {
                Some(c) => city_by_id(*self, id) == Some(*c),
                None => city_by_id(*self, id) is None,
            },
    {
        self.data.geonames.get(&id)
    }

    /// The capital of the country with ISO code `country_code`, in any case.
    pub fn capital(&self, country_code: &str) -> (r: Option<&City>)
        ensures
            match pair_lookup(self.data.capitals@, upper_of(country_code@)) {
                Some(id) => match r {
                    Some(c) => city_by_id(*self, id) == Some(*c),
                    None => city_by_id(*self, id) is None,
                },
                None => r is None,
            },
    {
        let code = uppercase(country_code);
        match find_pair(&self.data.capitals, &code) {
            Some(id) => self.get(id),
            None => None,
        }
    }

    /// The country record of the ISO code `country_code`, in any case.
    pub fn country_info(&self, country_code: &str) -> (r: Option<&CountryRecord>)
        ensures
            match r {
                Some(c) => last_record(self.data.country_info_by_code@, upper_of(country_code@)) == Some(*c),
                None => last_record(self.data.country_info_by_code@, upper_of(country_code@)) is None,
            },
    {
        let code = uppercase(country_code);
        match find_record(&self.data.country_info_by_code, &code) {
            Some(i) => Some(&self.data.country_info_by_code[i]),
            None => None,
        }
    }
}

impl Engine {
    /// The ids of the countries that the codes name.
    fn country_ids(&self, codes: &Vec<String>) -> (r: Vec<u32>)
        ensures
            r@ == allowed_ids(self.data.country_info_by_code@, codes@),
    {
        let mut out: Vec<u32> = Vec::new();
        let mut k: usize = 0;
        while k < codes.len()
            invariant
                k <= codes.len(),
                out@ == allowed_ids(self.data.country_info_by_code@, codes@.take(k as int)),
            decreases codes.len() - k,
        {
            assert(codes@.take(k as int + 1).drop_last() =~= codes@.take(k as int));
            let code = uppercase(codes[k].as_str());
            match find_record(&self.data.country_info_by_code, &code) {
                Some(j) => {
                    out.push(self.data.country_info_by_code[j].info.geonameid);
                },
                None => {},
            }
            k += 1;
        }
        assert(codes@.take(codes.len() as int) =~= codes@);
        out
    }

    /// Whether a city is in the country set given by upper-cased codes.
    #[verifier::loop_isolation(false)]
    fn city_in(c: &City, ups: &Option<Vec<String>>, codes: Ghost<Option<Seq<String>>>) -> (r: bool)
        requires
            match (*ups, codes@) {
                (Some(u), Some(cs)) => u@.len() == cs.len() && forall|j: int| 0 <= j < cs.len() ==> (#[trigger] u@[j])@ == upper_of(cs[j]@),
                (None, None) => true,
                _ => false,
            },
        ensures
            r == in_country_set(*c, codes@),
    {
        match ups {
            None => true,
            Some(u) => match &c.country {
                None => false,
                Some(k) => {
                    let kc = uppercase(k.code.as_str());
                    let mut j: usize = 0;
                    while j < u.len()
                        invariant
                            j <= u@.len(),
                            codes@ matches Some(cs) && u@.len() == cs.len(),
                            forall|x: int| 0 <= x < j ==> upper_of((#[trigger] codes@->0[x])@) != kc@,
                            forall|x: int| 0 <= x < codes@->0.len() ==> (#[trigger] u@[x])@ == upper_of(codes@->0[x]@),
                        decreases u@.len() - j,
                    {
                        if u[j] == kc {
                            assert(upper_of(codes@->0[j as int]@) == upper_of(k.code@));
                            return true;
                        }
                        j += 1;
                    }
                    false
                },
            },
        }
    }

    /// The nearest cities to (`lat`, `lng`), in micro-degrees, by squared
    /// Euclidean distance on the coordinates; ties go to the smaller id.
    /// With `countries`, only cities of those countries (any case) count.
    /// With a weight `k`, the `limit` nearest are then ordered by
    /// `distance - k * population`. `None` when `limit` is zero; nothing for
    /// a point out of range.
    pub fn reverse(&self, lat: i32, lng: i32, limit: usize, k: Option<u64>, countries: Option<&Vec<String>>) -> (r: Option<Vec<ReverseItem<'_>>>)
        requires
            self.wf(),
        ensures
            reversed(
                *self,
                lat,
                lng,
                limit as int,
                k,
                match countries { Some(c) => Some(c@), None => None },
                match r { Some(v) => Some(v@.map_values(|it: ReverseItem| item_view(it))), None => None },
            ),
            k is None ==> (r matches Some(v) ==> forall|a: int, b: int| 0 <= a < b < v@.len() ==> v@[a].distance <= v@[b].distance),
            k matches Some(w) ==> (r matches Some(v) ==> {
                &&& forall|a: int| 0 <= a < v@.len() ==> (#[trigger] v@[a]).score == v@[a].distance - w * v@[a].city.population
                &&& forall|a: int, b: int| 0 <= a < b < v@.len() ==> v@[a].score <= v@[b].score
            }),
    {
        let ghost codes = match countries { Some(c) => Some(c@), None => None };
        if limit == 0 {
            return None;
        }
        if !(-MAX_LATITUDE <= lat as i64 && lat as i64 <= MAX_LATITUDE && -MAX_LONGITUDE <= lng as i64 && lng as i64 <= MAX_LONGITUDE) {
            let empty: Vec<ReverseItem> = Vec::new();
            proof {
                assert(empty@.map_values(|it: ReverseItem| item_view(it)) =~= Seq::<(City, i128, i128)>::empty());
            }
            return Some(empty);
        }
        let ups: Option<Vec<String>> = match countries {
            None => None,
            Some(c) => {
                let mut u: Vec<String> = Vec::new();
                let mut j: usize = 0;
                while j < c.len()
                    invariant
                        j <= c@.len(),
                        u@.len() == j,
                        forall|x: int| 0 <= x < j ==> (#[trigger] u@[x])@ == upper_of(c@[x]@),
                    decreases c@.len() - j,
                {
                    u.push(uppercase(c[j].as_str()));
                    j += 1;
                }
                Some(u)
            },
        };
        let ghost g = self.data.geonames@;
        let ghost order = self.order@;
        let mut cand: Vec<u32> = Vec::new();
        let mut keys: Vec<Key> = Vec::new();
        let mut dists: Vec<i128> = Vec::new();
        let mut i: usize = 0;
        while i < self.order.len()
            invariant
                i <= order.len(),
                order == self.order@,
                g == self.data.geonames@,
                self.wf(),
                codes == match countries { Some(c) => Some(c@), None => None },
                match (ups, codes) {
                    (Some(u), Some(cs)) => u@.len() == cs.len() && forall|j: int| 0 <= j < cs.len() ==> (#[trigger] u@[j])@ == upper_of(cs[j]@),
                    (None, None) => true,
                    _ => false,
                },
                cand@ == near_candidates(g, order.take(i as int), codes),
                forall|x: int| 0 <= x < cand@.len() ==> exists|j: int| 0 <= j < i && order[j] == #[trigger] cand@[x],
                cand@.no_duplicates(),
                keys@ == near_keys(g, cand@, lat, lng),
                dists@.len() == cand@.len(),
                forall|x: int| 0 <= x < cand@.len() ==> g.contains_key(#[trigger] cand@[x]) && dists@[x] == sq_distance(g[cand@[x]], lat, lng),
                forall|x: int| 0 <= x < cand@.len() ==> 0 <= #[trigger] dists@[x] <= 0x2_0000_0000_0000_0000,
            decreases order.len() - i,
        {
            let id = self.order[i];
            assert(order.take(i as int + 1).drop_last() =~= order.take(i as int));
            assert(order.contains(id));
            match self.data.geonames.get(&id) {
                Some(c) => {
                    if Self::city_in(c, &ups, Ghost(codes)) {
                        let d = distance(c, lat, lng);
                        assert(!cand@.contains(id)) by {
                            if cand@.contains(id) {
                                let x = choose|x: int| 0 <= x < cand@.len() && cand@[x] == id;
                                let j = choose|j: int| 0 <= j < i && order[j] == #[trigger] cand@[x];
                                assert(order[j] == order[i as int]);
                            }
                        }
                        let ghost c0 = cand@;
                        cand.push(id);
                        keys.push((d, id as i128, 0));
                        dists.push(d);
                        assert forall|a: int, b: int| 0 <= a < b < cand@.len() implies cand@[a] != cand@[b] by {
                            if b == c0.len() {
                                assert(c0[a] == cand@[a]);
                            }
                        }
                        assert(keys@ =~= near_keys(g, cand@, lat, lng));
                        assert forall|x: int| 0 <= x < cand@.len() implies exists|j: int| 0 <= j < i + 1 && order[j] == #[trigger] cand@[x] by {
                            if x == c0.len() {
                                assert(order[i as int] == cand@[x]);
                            } else {
                                assert(c0[x] == cand@[x]);
                            }
                        }
                    }
                },
                None => {
                    assert(false);
                },
            }
            i += 1;
        }
        assert(order.take(order.len() as int) =~= order);
        let ghost cands = cand@;
        assert(keys_distinct(keys@)) by {
            assert forall|x: int, y: int| 0 <= x < keys@.len() && 0 <= y < keys@.len() && x != y implies keys@[x] != keys@[y] by {
                assert(cands[x] != cands[y]);
            }
        }
        let sel = select_smallest(&keys, limit);
        proof {
            assert(is_selection(near_keys(g, cands, lat, lng), limit as int, sel@));
        }
        match k {
            None => {
                let mut out: Vec<ReverseItem> = Vec::new();
                let mut t: usize = 0;
                while t < sel.len()
                    invariant
                        t <= sel@.len(),
                        out@.len() == t,
                        is_selection(keys@, limit as int, sel@),
                        keys@.len() == cand@.len(),
                        cand@ == cands,
                        g == self.data.geonames@,
                        keys@ == near_keys(g, cands, lat, lng),
                        dists@.len() == cand@.len(),
                        forall|x: int| 0 <= x < cand@.len() ==> g.contains_key(#[trigger] cand@[x]) && dists@[x] == sq_distance(g[cand@[x]], lat, lng),
                        forall|x: int| 0 <= x < t ==> {
                            let c = g[cands[sel@[x] as int]];
                            #[trigger] item_view(out@[x]) == (c, sq_distance(c, lat, lng) as i128, sq_distance(c, lat, lng) as i128)
                        },
                        forall|x: int| 0 <= x < t ==> (#[trigger] out@[x]).distance == keys@[sel@[x] as int].0,
                    decreases sel@.len() - t,
                {
                    let j = sel[t];
                    let d = dists[j];
                    match self.data.geonames.get(&cand[j]) {
                        Some(c) => {
                            out.push(ReverseItem { city: c, distance: d, score: d });
                        },
                        None => {
                            assert(false);
                        },
                    }
                    t += 1;
                }
                proof {
                    let items = out@.map_values(|it: ReverseItem| item_view(it));
                    assert(items.len() == sel@.len());
                    assert forall|a: int, b: int| 0 <= a < b < out@.len() implies out@[a].distance <= out@[b].distance by {
                        assert(crate::rank::key_lt(keys@[sel@[a] as int], keys@[sel@[b] as int]));
                    }
                }
                Some(out)
            },
            Some(w) => {
                let mut wkeys: Vec<Key> = Vec::new();
                let mut t: usize = 0;
                while t < sel.len()
                    invariant
                        t <= sel@.len(),
                        is_selection(keys@, limit as int, sel@),
                        keys@.len() == cand@.len(),
                        cand@ == cands,
                        g == self.data.geonames@,
                        dists@.len() == cand@.len(),
                        forall|x: int| 0 <= x < cand@.len() ==> g.contains_key(#[trigger] cand@[x]) && dists@[x] == sq_distance(g[cand@[x]], lat, lng),
                        forall|x: int| 0 <= x < cand@.len() ==> 0 <= #[trigger] dists@[x] <= 0x2_0000_0000_0000_0000,
                        wkeys@ == weighted_keys(g, cands, sel@.take(t as int), lat, lng, w),
                    decreases sel@.len() - t,
                {
                    let j = sel[t];
                    let d = dists[j];
                    match self.data.geonames.get(&cand[j]) {
                        Some(c) => {
                            let sc = weighted(c, d, w);
                            wkeys.push((sc, d, cand[j] as i128));
                        },
                        None => {
                            assert(false);
                        },
                    }
                    t += 1;
                    assert(wkeys@ =~= weighted_keys(g, cands, sel@.take(t as int), lat, lng, w));
                }
                assert(sel@.take(sel@.len() as int) =~= sel@);
                assert(keys_distinct(wkeys@)) by {
                    assert forall|x: int, y: int| 0 <= x < wkeys@.len() && 0 <= y < wkeys@.len() && x != y implies wkeys@[x] != wkeys@[y] by {
                        if x < y {
                            assert(crate::rank::key_lt(keys@[sel@[x] as int], keys@[sel@[y] as int]));
                        } else {
                            assert(crate::rank::key_lt(keys@[sel@[y] as int], keys@[sel@[x] as int]));
                        }
                        assert(sel@[x] != sel@[y]);
                        assert(cands[sel@[x] as int] != cands[sel@[y] as int]);
                    }
                }
                let sel2 = select_smallest(&wkeys, sel.len());
                let mut out: Vec<ReverseItem> = Vec::new();
                let mut t: usize = 0;
                while t < sel2.len()
                    invariant
                        t <= sel2@.len(),
                        out@.len() == t,
                        is_selection(wkeys@, sel@.len() as int, sel2@),
                        is_selection(keys@, limit as int, sel@),
                        wkeys@.len() == sel@.len(),
                        keys@.len() == cand@.len(),
                        cand@ == cands,
                        g == self.data.geonames@,
                        wkeys@ == weighted_keys(g, cands, sel@, lat, lng, w),
                        forall|x: int| 0 <= x < cand@.len() ==> g.contains_key(#[trigger] cand@[x]),
                        forall|x: int| 0 <= x < t ==> {
                            let c = g[cands[sel@[sel2@[x] as int] as int]];
                            #[trigger] item_view(out@[x]) == (c, sq_distance(c, lat, lng) as i128, weighted_score(c, lat, lng, w) as i128)
                        },
                        forall|x: int| 0 <= x < t ==> {
                            &&& (#[trigger] out@[x]).score == out@[x].distance - w * out@[x].city.population
                            &&& out@[x].score == wkeys@[sel2@[x] as int].0
                        },
                    decreases sel2@.len() - t,
                {
                    let q = sel2[t];
                    let j = sel[q];
                    match self.data.geonames.get(&cand[j]) {
                        Some(c) => {
                            let d = distance(c, lat, lng);
                            let sc = weighted(c, d, w);
                            out.push(ReverseItem { city: c, distance: d, score: sc });
                        },
                        None => {
                            assert(false);
                        },
                    }
                    t += 1;
                }
                proof {
                    let items = out@.map_values(|it: ReverseItem| item_view(it));
                    assert(items.len() == sel2@.len());
                    assert forall|a: int, b: int| 0 <= a < b < out@.len() implies out@[a].score <= out@[b].score by {
                        assert(crate::rank::key_lt(wkeys@[sel2@[a] as int], wkeys@[sel2@[b] as int]));
                    }
                }
                Some(out)
            },
        }
    }

    /// Cities whose names match `pattern`, best first: an entry scores
    /// `1.0` when it starts with the lower-cased pattern, else its
    /// Jaro-Winkler similarity; entries under `min_score` (the bit pattern of
    /// an `f64`, `0.8` by default; a negative one accepts every entry) are dropped; with `countries`, only entries
    /// of those countries count. Each city ranks by its best score, then by
    /// population, then by id, and appears once; at most `limit` are returned.
    pub fn suggest(&self, pattern: &str, limit: usize, min_score: Option<u64>, countries: Option<&Vec<String>>) -> (r: Vec<&City>)
        ensures
            suggested(
                *self,
                pattern@,
                limit as int,
                effective_min(min_score),
                match countries { Some(c) => Some(c@), None => None },
                r@.map_values(|c: &City| *c),
            ),
    {
        let min = match min_score {
            Some(m) => if m >= SIGN_BIT { 0 } else { m },
            None => DEFAULT_MIN_SCORE,
        };
        let p = lowercase(pattern);
        let pc = chars_of(p.as_str());
        let allowed: Option<Vec<u32>> = match countries {
            Some(c) => Some(self.country_ids(c)),
            None => None,
        };
        let ghost al = ids_view(allowed);
        let ghost g = self.data.geonames@;
        let ghost pv = p@;
        let es = &self.data.entries;
        let mut cand: Vec<(u32, u64)> = Vec::new();
        let mut pos: HashMap<u32, usize> = HashMap::new();
        let mut i: usize = 0;
        while i < es.len()
            invariant
                i <= es.len(),
                g == self.data.geonames@,
                es@ == self.data.entries@,
                pv == p@,
                pc@ == p@,
                al == ids_view(allowed),
                cand@.len() == candidates(g, es@.take(i as int), pv, min, al).len(),
                candidates(g, es@.take(i as int), pv, min, al).no_duplicates(),
                forall|j: int| 0 <= j < cand@.len() ==> {
                    &&& (#[trigger] cand@[j]).0 == candidates(g, es@.take(i as int), pv, min, al)[j]
                    &&& best_score(g, es@.take(i as int), pv, min, al, cand@[j].0) == Some(cand@[j].1)
                    &&& g.contains_key(cand@[j].0)
                },
                forall|id: u32| #[trigger] pos@.contains_key(id) <==> candidates(g, es@.take(i as int), pv, min, al).contains(id),
                forall|id: u32| #[trigger] pos@.contains_key(id) ==> pos@[id] < cand@.len() && cand@[pos@[id] as int].0 == id,
                forall|id: u32| #[trigger] candidates(g, es@.take(i as int), pv, min, al).contains(id) <==> best_score(g, es@.take(i as int), pv, min, al, id) is Some,
            decreases es.len() - i,
        {
            let e = &es[i];
            let ghost pre = es@.take(i as int);
            let ghost cpre = candidates(g, pre, pv, min, al);
            assert(es@.take(i as int + 1).drop_last() =~= pre);
            let ok_country = match &allowed {
                None => true,
                Some(a) => match e.country_id {
                    Some(c) => vec_contains(a, c),
                    None => false,
                },
            };
            let score: u64 = if starts_with(&chars_of(e.value.as_str()), &pc) {
                PREFIX_SCORE
            } else {
                similarity_bits(e.value.as_str(), p.as_str())
            };
            assert(score == entry_score(*e, pv));
            let q = ok_country && score >= min && self.data.geonames.contains_key(&e.id);
            assert(q == qualifies(g, *e, pv, min, al));
            let ghost pos0 = pos@;
            assert(es@.take(i as int + 1).last() == *e);
            if q {
                let id = e.id;
                match pos.get(&id) {
                    Some(j) => {
                        let j = *j;
                        assert(cpre.contains(id));
                        if score > cand[j].1 {
                            cand.set(j, (id, score));
                        }
                        assert(candidates(g, es@.take(i as int + 1), pv, min, al) == cpre);
                    },
                    None => {
                        assert(!cpre.contains(id));
                        let n = cand.len();
                        pos.insert(id, n);
                        cand.push((id, score));
                        assert(candidates(g, es@.take(i as int + 1), pv, min, al) == cpre.push(id));
                        assert forall|a: int, b: int| 0 <= a < b < cpre.push(id).len() implies cpre.push(id)[a] != cpre.push(id)[b] by {
                            if b == cpre.len() {
                                assert(cpre[a] == cpre.push(id)[a]);
                            }
                        }
                    },
                }
            } else {
                assert(candidates(g, es@.take(i as int + 1), pv, min, al) == cpre);
            }
            proof {
                let post = es@.take(i as int + 1);
                let cnew = candidates(g, post, pv, min, al);
                assert forall|id: u32| #[trigger] pos@.contains_key(id) <==> cnew.contains(id) by {
                    if q && id == e.id {
                        assert(cnew.contains(id)) by {
                            if !cpre.contains(id) {
                                assert(cnew[cnew.len() - 1] == id);
                            }
                        }
                    } else {
                        assert(pos@.contains_key(id) == pos0.contains_key(id));
                        assert(cnew.contains(id) == cpre.contains(id)) by {
                            if q && !cpre.contains(e.id) {
                                assert(cnew == cpre.push(e.id));
                                if cnew.contains(id) {
                                    let j = choose|j: int| 0 <= j < cnew.len() && cnew[j] == id;
                                    assert(j < cpre.len());
                                    assert(cpre[j] == id);
                                }
                                if cpre.contains(id) {
                                    let j = choose|j: int| 0 <= j < cpre.len() && cpre[j] == id;
                                    assert(cnew[j] == id);
                                }
                            }
                        }
                    }
                }
                assert forall|id: u32| #[trigger] cnew.contains(id) <==> best_score(g, post, pv, min, al, id) is Some by {
                    assert(cpre.contains(id) <==> best_score(g, pre, pv, min, al, id) is Some);
                    if q && id == e.id {
                        assert(cnew.contains(id)) by {
                            if !cpre.contains(id) {
                                assert(cnew[cnew.len() - 1] == id);
                            }
                        }
                    } else {
                        assert(best_score(g, post, pv, min, al, id) == best_score(g, pre, pv, min, al, id));
                        assert(cnew.contains(id) == cpre.contains(id)) by {
                            if q && !cpre.contains(e.id) {
                                if cnew.contains(id) {
                                    let j = choose|j: int| 0 <= j < cnew.len() && cnew[j] == id;
                                    assert(j < cpre.len());
                                    assert(cpre[j] == id);
                                }
                                if cpre.contains(id) {
                                    let j = choose|j: int| 0 <= j < cpre.len() && cpre[j] == id;
                                    assert(cnew[j] == id);
                                }
                            }
                        }
                    }
                }
            }
            i += 1;
        }
        assert(es@.take(es.len() as int) =~= es@);
        let ghost cands = candidates(g, es@, pv, min, al);
        let mut keys: Vec<Key> = Vec::new();
        let mut j: usize = 0;
        while j < cand.len()
            invariant
                j <= cand@.len(),
                keys@.len() == j,
                cand@.len() == cands.len(),
                g == self.data.geonames@,
                forall|k: int| 0 <= k < cand@.len() ==> {
                    &&& (#[trigger] cand@[k]).0 == cands[k]
                    &&& best_score(g, es@, pv, min, al, cand@[k].0) == Some(cand@[k].1)
                    &&& g.contains_key(cand@[k].0)
                },
                forall|k: int| 0 <= k < j ==> #[trigger] keys@[k] == rank_key(g, es@, pv, min, al, cands[k]),
            decreases cand@.len() - j,
        {
            let (id, best) = cand[j];
            let pop = match self.data.geonames.get(&id) {
                Some(c) => c.population,
                None => 0,
            };
            keys.push((0 - (best as i128), 0 - (pop as i128), id as i128));
            j += 1;
        }
        assert(keys@ =~= suggest_keys(g, es@, pv, min, al));
        assert(keys_distinct(keys@)) by {
            assert forall|x: int, y: int| 0 <= x < keys@.len() && 0 <= y < keys@.len() && x != y implies keys@[x] != keys@[y] by {
                assert(cands[x] != cands[y]);
            }
        }
        let sel = select_smallest(&keys, limit);
        let mut out: Vec<&City> = Vec::new();
        let mut k: usize = 0;
        while k < sel.len()
            invariant
                k <= sel@.len(),
                out@.len() == k,
                keys@.len() == cand@.len(),
                is_selection(keys@, limit as int, sel@),
                cand@.len() == cands.len(),
                g == self.data.geonames@,
                forall|x: int| 0 <= x < cand@.len() ==> {
                    &&& (#[trigger] cand@[x]).0 == cands[x]
                    &&& g.contains_key(cand@[x].0)
                },
                forall|x: int| 0 <= x < k ==> *(#[trigger] out@[x]) == g[cands[sel@[x] as int]],
            decreases sel@.len() - k,
        {
            let id = cand[sel[k]].0;
            match self.data.geonames.get(&id) {
                Some(c) => {
                    out.push(c);
                },
                None => {
                    assert(false);
                },
            }
            k += 1;
        }
        proof {
            let rv = out@.map_values(|c: &City| *c);
            assert(is_selection(suggest_keys(g, es@, pv, min, al), limit as int, sel@));
            assert(rv.len() == sel@.len());
            assert(forall|x: int| 0 <= x < rv.len() ==> rv[x] == g[cands[sel@[x] as int]]);
        }
        out
    }
}

} // verus!
