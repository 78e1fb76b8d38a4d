//! The query surface that a service exposes: request parameters, localised
//! results, and settings of the service and of the index updater.
use vstd::prelude::*;
use std::collections::HashMap;
use crate::text::{chars_of, split_chars, split_spec, string_of};
use crate::index::{City, LocalName, table_name};
use crate::engine::{Engine, ReverseItem, city_by_id, suggested, reversed, item_view, effective_min};
use crate::index::pair_lookup;
use crate::text::upper_of;
use crate::builder::find_name;
use crate::metadata::EngineSourceMetadata;

verus! {

/// Parameters of a lookup by id.
pub struct GetCityQuery {
    /// GeoNames id of the city.
    pub id: u32,
    /// Language of the names in the answer.
    pub lang: Option<String>,
}

/// Parameters of a capital lookup.
pub struct GetCapitalQuery {
    /// ISO code of the country.
    pub country_code: String,
    /// Language of the names in the answer.
    pub lang: Option<String>,
}

/// Parameters of an IP lookup.
pub struct GeoIP2Query {
    /// Address to look up; else the one the request came from.
    pub ip: Option<String>,
    /// Language of the names in the answer.
    pub lang: Option<String>,
}

/// The country codes of a comma-separated filter, if one is given.
pub fn get_countries_filter(countries: &Option<String>) -> (r: Option<Vec<String>>)
    ensures
        match (countries, r) {
            (Some(c), Some(v)) => v@.map_values(|s: String| s@) == split_spec(c@, ','),
            (None, None) => true,
            _ => false,
        },
{
    match countries {
        None => None,
        Some(c) => {
            let parts = split_chars(&chars_of(c.as_str()), ',');
            let mut out: Vec<String> = Vec::new();
            let mut i: usize = 0;
            while i < parts.len()
                invariant
                    i <= parts@.len(),
                    out@.len() == i,
                    forall|j: int| 0 <= j < i ==> (#[trigger] out@[j])@ == parts@[j]@,
                decreases parts@.len() - i,
            {
                out.push(string_of(parts[i].as_slice()));
                i += 1;
            }
            assert(out@.map_values(|s: String| s@) =~= split_spec(c@, ','));
            Some(out)
        },
    }
}

/// A country in an answer.
pub struct CountryItem {
    pub id: u32,
    pub code: String,
    pub name: String,
}

/// An admin division in an answer.
pub struct AdminDivisionItem {
    pub id: u32,
    pub code: String,
    pub name: String,
}

/// A city in an answer, with names in the requested language where known.
pub struct CityResultItem {
    pub id: u32,
    pub name: String,
    pub country: Option<CountryItem>,
    pub admin_division: Option<AdminDivisionItem>,
    pub admin2_division: Option<AdminDivisionItem>,
    pub timezone: String,
    pub latitude: i32,
    pub longitude: i32,
    pub population: u32,
}

/// The name of place `id` in language `lang`, else `fallback`.
pub open spec fn localized(t: Map<u32, Vec<LocalName>>, id: u32, lang: Option<String>, fallback: Seq<char>) -> Seq<char> {
    match lang {
        Some(l) => match table_name(t, id, l@) {
            Some(n) => n.name@,
            None => fallback,
        },
        None => fallback,
    }
}

fn local_or(t: &HashMap<u32, Vec<LocalName>>, id: u32, lang: Option<&String>, fallback: &String) -> (r: String)
    ensures
        r@ == localized(t@, id, match lang { Some(l) => Some(*l), None => None }, fallback@),
{
    match lang {
        Some(l) => match t.get(&id) {
            Some(v) => match find_name(v, l) {
                Some(j) => v[j].name.clone(),
                None => fallback.clone(),
            },
            None => fallback.clone(),
        },
        None => fallback.clone(),
    }
}

/// `r` is the city as answered in language `l`: its names and those of its
/// country and admin divisions localised where the table has them.
pub open spec fn item_of(t: Map<u32, Vec<LocalName>>, item: City, l: Option<String>, r: CityResultItem) -> bool {
    &&& r.id == item.id
    &&& r.name@ == localized(t, item.id, l, item.name@)
    &&& match (r.country, item.country) {
        (Some(a), Some(c)) => a.id == c.id && a.code@ == c.code@ && a.name@ == localized(t, c.id, l, c.name@),
        (None, None) => true,
        _ => false,
    }
    &&& match (r.admin_division, item.admin_division) {
        (Some(a), Some(c)) => a.id == c.id && a.code@ == c.code@ && a.name@ == localized(t, c.id, l, c.name@),
        (None, None) => true,
        _ => false,
    }
    &&& match (r.admin2_division, item.admin2_division) {
        (Some(a), Some(c)) => a.id == c.id && a.code@ == c.code@ && a.name@ == localized(t, c.id, l, c.name@),
        (None, None) => true,
        _ => false,
    }
    &&& r.timezone@ == item.timezone@
    &&& r.latitude == item.latitude
    &&& r.longitude == item.longitude
    &&& r.population == item.population
}

impl CityResultItem {
    /// The city as answered, its names and those of its country and admin
    /// divisions in language `lang` where the index has them.
    pub fn from_city(engine: &Engine, item: &City, lang: Option<&String>) -> (r: CityResultItem)
        ensures
            item_of(engine.data.localized@, *item, match lang { Some(x) => Some(*x), None => None }, r),
    {
        let t = &engine.data.localized;
        let country = match &item.country {
            Some(c) => Some(CountryItem { id: c.id, code: c.code.clone(), name: local_or(t, c.id, lang, &c.name) }),
            None => None,
        };
        let admin_division = match &item.admin_division {
            Some(c) => Some(AdminDivisionItem { id: c.id, code: c.code.clone(), name: local_or(t, c.id, lang, &c.name) }),
            None => None,
        };
        let admin2_division = match &item.admin2_division {
            Some(c) => Some(AdminDivisionItem { id: c.id, code: c.code.clone(), name: local_or(t, c.id, lang, &c.name) }),
            None => None,
        };
        CityResultItem {
            id: item.id,
            name: local_or(t, item.id, lang, &item.name),
            country,
            admin_division,
            admin2_division,
            timezone: item.timezone.clone(),
            latitude: item.latitude,
            longitude: item.longitude,
            population: item.population,
        }
    }
}

/// Number of results when a query gives no limit.
pub const DEFAULT_LIMIT: usize = 10;

/// Weight per inhabitant of the nearest-place answer when none is given:
/// 5e-9 square degrees, in micro-degrees squared.
pub const DEFAULT_K: u64 = 5_000;

/// Parameters of a name suggestion.
pub struct SuggestQuery {
    pub pattern: String,
    pub limit: Option<usize>,
    /// Language of the names in the answer.
    pub lang: Option<String>,
    /// Bit pattern of the minimum Jaro-Winkler similarity (`0.8` by default;
    /// a negative one accepts every entry).
    pub min_score: Option<u64>,
    /// Comma-separated ISO codes of the countries to search in.
    pub countries: Option<String>,
}

/// Parameters of a nearest-place query; coordinates in micro-degrees.
pub struct ReverseQuery {
    pub lat: i32,
    pub lng: i32,
    pub limit: Option<usize>,
    /// Language of the names in the answer.
    pub lang: Option<String>,
    /// Weight per inhabitant, in micro-degrees squared.
    pub k: Option<u64>,
    /// How many nearest cities the weight reorders.
    pub nearest_limit: Option<usize>,
    /// Comma-separated ISO codes of the countries to search in.
    pub countries: Option<String>,
}

/// A nearest place in an answer.
pub struct ReverseResultItem {
    pub city: CityResultItem,
    pub distance: i128,
    pub score: i128,
}

pub open spec fn codes_view(o: Option<Vec<String>>) -> Option<Seq<String>> {
    match o {
        Some(v) => Some(v@),
        None => None,
    }
}

pub open spec fn items_view(o: Option<Vec<ReverseItem>>) -> Option<Seq<(City, i128, i128)>> {
    match o {
        Some(v) => Some(v@.map_values(|it: ReverseItem| item_view(it))),
        None => None,
    }
}

/// Codes whose views are the pieces of a comma-separated filter.
pub open spec fn filter_codes(countries: Option<String>, codes: Option<Seq<String>>) -> bool {
    match (countries, codes) {
        (Some(c), Some(v)) => v.map_values(|s: String| s@) == split_spec(c@, ','),
        (None, None) => true,
        _ => false,
    }
}

/// The city with the query's id, as answered.
pub fn city_get(engine: &Engine, q: &GetCityQuery) -> (r: Option<CityResultItem>)
    ensures
        match city_by_id(*engine, q.id) {
            Some(c) => r matches Some(it) && item_of(engine.data.localized@, c, q.lang, it),
            None => r is None,
        },
{
    match engine.get(q.id) {
        Some(c) => Some(CityResultItem::from_city(engine, c, q.lang.as_ref())),
        None => None,
    }
}

/// The capital of the query's country, as answered.
pub fn capital(engine: &Engine, q: &GetCapitalQuery) -> (r: Option<CityResultItem>)
    ensures
        match pair_lookup(engine.data.capitals@, upper_of(q.country_code@)) {
            Some(id) => match city_by_id(*engine, id) {
                Some(c) => r matches Some(it) && item_of(engine.data.localized@, c, q.lang, it),
                None => r is None,
            },
            None => r is None,
        },
{
    match engine.capital(q.country_code.as_str()) {
        Some(c) => Some(CityResultItem::from_city(engine, c, q.lang.as_ref())),
        None => None,
    }
}

/// `r` answers the suggestion query `q`, for the codes of its filter.
pub open spec fn suggest_answer(engine: Engine, q: SuggestQuery, codes: Option<Seq<String>>, cities: Seq<City>, r: Seq<CityResultItem>) -> bool {
    &&& filter_codes(q.countries, codes)
    &&& suggested(
        engine,
        q.pattern@,
        match q.limit { Some(l) => l as int, None => DEFAULT_LIMIT as int },
        effective_min(q.min_score),
        codes,
        cities,
    )
    &&& r.len() == cities.len()
    &&& forall|i: int| 0 <= i < cities.len() ==> item_of(engine.data.localized@, cities[i], q.lang, #[trigger] r[i])
}

/// The suggestion for the query, as answered: at most `limit` (10 by
/// default) cities, best first.
pub fn suggest(engine: &Engine, q: &SuggestQuery) -> (r: Vec<CityResultItem>)
    ensures
        exists|codes: Option<Seq<String>>, cities: Seq<City>| #[trigger] suggest_answer(*engine, *q, codes, cities, r@),
{
    let limit = match q.limit {
        Some(l) => l,
        None => DEFAULT_LIMIT,
    };
    let filter = get_countries_filter(&q.countries);
    let found = engine.suggest(q.pattern.as_str(), limit, q.min_score, filter.as_ref());
    let ghost codes = codes_view(filter);
    let ghost cities = found@.map_values(|c: &City| *c);
    let mut out: Vec<CityResultItem> = Vec::new();
    let mut i: usize = 0;
    while i < found.len()
        invariant
            i <= found@.len(),
            out@.len() == i,
            cities == found@.map_values(|c: &City| *c),
            forall|j: int| 0 <= j < i ==> item_of(engine.data.localized@, cities[j], q.lang, #[trigger] out@[j]),
        decreases found@.len() - i,
    {
        out.push(CityResultItem::from_city(engine, found[i], q.lang.as_ref()));
        i += 1;
    }
    assert(suggest_answer(*engine, *q, codes, cities, out@));
    out
}

/// `r` answers the nearest-place query `q`, for the codes of its filter.
pub open spec fn reverse_answer(engine: Engine, q: ReverseQuery, codes: Option<Seq<String>>, items: Option<Seq<(City, i128, i128)>>, r: Seq<ReverseResultItem>) -> bool {
    let all = match items { Some(s) => s, None => Seq::empty() };
    let n = match q.limit { Some(l) => l as int, None => DEFAULT_LIMIT as int };
    &&& filter_codes(q.countries, codes)
    &&& reversed(
        engine,
        q.lat,
        q.lng,
        match q.nearest_limit { Some(l) => l as int, None => DEFAULT_LIMIT as int },
        Some(match q.k { Some(k) => k, None => DEFAULT_K }),
        codes,
        items,
    )
    &&& r.len() == if n < all.len() { n } else { all.len() as int }
    &&& forall|i: int| 0 <= i < r.len() ==> {
        &&& item_of(engine.data.localized@, all[i].0, q.lang, (#[trigger] r[i]).city)
        &&& r[i].distance == all[i].1
        &&& r[i].score == all[i].2
    }
}

/// The nearest places for the query, as answered: the `nearest_limit`
/// (10 by default) nearest cities ordered by weighted score (weight
/// `DEFAULT_K` by default), of which the first `limit` (10 by default).
pub fn reverse(engine: &Engine, q: &ReverseQuery) -> (r: Vec<ReverseResultItem>)
    requires
        engine.wf(),
    ensures
        exists|codes: Option<Seq<String>>, items: Option<Seq<(City, i128, i128)>>| #[trigger] reverse_answer(*engine, *q, codes, items, r@),
{
    let nearest = match q.nearest_limit {
        Some(l) => l,
        None => DEFAULT_LIMIT,
    };
    let limit = match q.limit {
        Some(l) => l,
        None => DEFAULT_LIMIT,
    };
    let k = match q.k {
        Some(k) => k,
        None => DEFAULT_K,
    };
    let filter = get_countries_filter(&q.countries);
    let found = engine.reverse(q.lat, q.lng, nearest, Some(k), filter.as_ref());
    let ghost codes = codes_view(filter);
    let ghost items = items_view(found);
    let ghost all = match items { Some(s) => s, None => Seq::empty() };
    let mut out: Vec<ReverseResultItem> = Vec::new();
    match &found {
        Some(hits) => {
            let mut i: usize = 0;
            while i < hits.len() && i < limit
                invariant
                    i <= hits@.len(),
                    i <= limit,
                    out@.len() == i,
                    all == hits@.map_values(|it: ReverseItem| item_view(it)),
                    forall|j: int| 0 <= j < i ==> {
                        &&& item_of(engine.data.localized@, all[j].0, q.lang, (#[trigger] out@[j]).city)
                        &&& out@[j].distance == all[j].1
                        &&& out@[j].score == all[j].2
                    },
                decreases hits@.len() - i,
            {
                let h = &hits[i];
                out.push(ReverseResultItem {
                    city: CityResultItem::from_city(engine, h.city, q.lang.as_ref()),
                    distance: h.distance,
                    score: h.score,
                });
                i += 1;
            }
        },
        None => {},
    }
    assert(reverse_answer(*engine, *q, codes, items, out@));
    out
}

/// Settings of the HTTP service.
pub struct Settings {
    pub host: String,
    pub port: usize,
    pub index_file: String,
    pub static_dir: Option<String>,
    pub url_path_prefix: String,
}

impl Settings {
    /// Listens on `localhost:8080` at `/`, with no index file and no static files.
    pub fn default() -> (r: Settings)
        ensures
            r.port == 8080,
            r.host@ == "localhost"@,
            r.index_file@.len() == 0,
            r.static_dir is None,
            r.url_path_prefix@ == "/"@,
    {
        Settings {
            host: "localhost".to_owned(),
            port: 8080,
            index_file: String::new(),
            static_dir: None,
            url_path_prefix: "/".to_owned(),
        }
    }
}

/// Where a source is fetched from, and the file to take from its archive.
pub struct SourceItem {
    pub url: String,
    pub filename: String,
}

/// What the index updater fetches.
pub struct IndexUpdaterSettings {
    pub http_timeout_ms: u64,
    pub cities: SourceItem,
    pub names: Option<SourceItem>,
    pub countries_url: Option<String>,
    pub admin1_codes_url: Option<String>,
    pub admin2_codes_url: Option<String>,
    pub filter_languages: Vec<String>,
}

fn opt_clone(o: &Option<String>) -> (r: Option<String>)
    ensures
        r == *o,
{
    match o {
        Some(s) => Some(s.clone()),
        None => None,
    }
}

fn strings_clone(v: &Vec<String>) -> (r: Vec<String>)
    ensures
        r@ == v@,
{
    let mut out: Vec<String> = Vec::new();
    let mut i: usize = 0;
    while i < v.len()
        invariant
            i <= v@.len(),
            out@ == v@.take(i as int),
        decreases v@.len() - i,
    {
        out.push(v[i].clone());
        i += 1;
        assert(out@ =~= v@.take(i as int));
    }
    assert(v@.take(v@.len() as int) =~= v@);
    out
}

impl IndexUpdaterSettings {
    /// The GeoNames dumps: cities of 5000 people or more, alternate names,
    /// country info and admin codes; a five minute timeout; no language filter.
    pub fn default() -> (r: IndexUpdaterSettings)
        ensures
            r.http_timeout_ms == 300_000,
            r.names is Some,
            r.countries_url is Some,
            r.admin1_codes_url is Some,
            r.admin2_codes_url is Some,
            r.filter_languages@.len() == 0,
            r.cities.url@ == "https://download.geonames.org/export/dump/cities5000.zip"@,
            r.cities.filename@ == "cities5000.txt"@,
    {
        IndexUpdaterSettings {
            http_timeout_ms: 300_000,
            cities: SourceItem {
                url: "https://download.geonames.org/export/dump/cities5000.zip".to_owned(),
                filename: "cities5000.txt".to_owned(),
            },
            names: Some(SourceItem {
                url: "https://download.geonames.org/export/dump/alternateNamesV2.zip".to_owned(),
                filename: "alternateNamesV2.txt".to_owned(),
            }),
            countries_url: Some("https://download.geonames.org/export/dump/countryInfo.txt".to_owned()),
            admin1_codes_url: Some("https://download.geonames.org/export/dump/admin1CodesASCII.txt".to_owned()),
            admin2_codes_url: Some("https://download.geonames.org/export/dump/admin2Codes.txt".to_owned()),
            filter_languages: Vec::new(),
        }
    }

    /// The source part of the metadata of an index built with these
    /// settings, with the ETags that the fetches returned.
    pub fn source_metadata(&self, etag: Vec<(String, String)>) -> (r: EngineSourceMetadata)
        ensures
            r.cities == self.cities.url,
            r.names == match self.names { Some(n) => Some(n.url), None => None },
            r.countries == self.countries_url,
            r.admin1_codes == self.admin1_codes_url,
            r.admin2_codes == self.admin2_codes_url,
            r.filter_languages@ == self.filter_languages@,
            r.etag == etag,
    {
        EngineSourceMetadata {
            cities: self.cities.url.clone(),
            names: match &self.names {
                Some(n) => Some(n.url.clone()),
                None => None,
            },
            countries: opt_clone(&self.countries_url),
            admin1_codes: opt_clone(&self.admin1_codes_url),
            admin2_codes: opt_clone(&self.admin2_codes_url),
            filter_languages: strings_clone(&self.filter_languages),
            etag,
        }
    }
}

} // verus!
