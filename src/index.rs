//! The index: entries to search, the city table, capitals, country records and
//! localised names, with the rules that derive them from the decoded rows.
use vstd::prelude::*;
use std::collections::HashMap;
use crate::text::{split_spec, lower_of, upper_of};
use crate::records::{CityRow, AltNameRow, CountryRecordRaw, AdminDivision};

verus! {

/// A country as attached to a city.
pub struct Country {
    pub id: u32,
    pub code: String,
    pub name: String,
}

/// A populated place. Coordinates are in micro-degrees.
pub struct City {
    pub id: u32,
    pub name: String,
    pub latitude: i32,
    pub longitude: i32,
    pub country: Option<Country>,
    pub admin_division: Option<AdminDivision>,
    pub admin2_division: Option<AdminDivision>,
    pub timezone: String,
    pub population: u32,
}

/// A searchable surface form of a city: lower-cased, with the city's id and
/// the id of its country when known.
pub struct Entry {
    pub id: u32,
    pub value: String,
    pub country_id: Option<u32>,
}

/// The name chosen for a place in one language, and whether it was flagged
/// as preferred.
pub struct LocalName {
    pub lang: String,
    pub name: String,
    pub preferred: bool,
}

/// A country with its localised names and the localised names of its capital,
/// each a list of (language, name).
pub struct CountryRecord {
    pub info: CountryRecordRaw,
    pub names: Option<Vec<(String, String)>>,
    pub capital_names: Option<Vec<(String, String)>>,
}

/// The whole index.
pub struct IndexData {
    pub entries: Vec<Entry>,
    pub geonames: HashMap<u32, City>,
    /// (upper-cased country code, city id) of capitals; a later pair overrides an earlier one.
    pub capitals: Vec<(String, u32)>,
    pub country_info_by_code: Vec<CountryRecord>,
    /// Localised names of cities, countries and admin divisions, by GeoNames id.
    pub localized: HashMap<u32, Vec<LocalName>>,
}

/// The decoded sources that an index is built from.
pub struct SourceRows {
    pub cities: Vec<CityRow>,
    pub names: Option<Vec<AltNameRow>>,
    pub countries: Option<Vec<CountryRecordRaw>>,
    pub admin1_codes: Option<Vec<AdminDivision>>,
    pub admin2_codes: Option<Vec<AdminDivision>>,
    pub filter_languages: Vec<String>,
}

// ---------------------------------------------------------------- feature codes

/// Feature codes whose places are left out of the index.
pub open spec fn excluded_code(c: Seq<char>) -> bool {
    ||| c == seq!['P', 'P', 'L', 'A', '3']
    ||| c == seq!['P', 'P', 'L', 'A', '4']
    ||| c == seq!['P', 'P', 'L', 'A', '5']
    ||| c == seq!['P', 'P', 'L', 'F']
    ||| c == seq!['P', 'P', 'L', 'L']
    ||| c == seq!['P', 'P', 'L', 'Q']
    ||| c == seq!['P', 'P', 'L', 'W']
    ||| c == seq!['P', 'P', 'L', 'X']
    ||| c == seq!['S', 'T', 'L', 'M', 'T']
}

/// The feature code of a capital of a political entity.
pub open spec fn capital_code(c: Seq<char>) -> bool {
    c == seq!['P', 'P', 'L', 'C']
}

/// The rows that the index keeps, in order.
pub open spec fn kept_rows(rows: Seq<CityRow>) -> Seq<CityRow>
    decreases rows.len(),
{
    if rows.len() == 0 {
        rows
    } else if excluded_code(rows.last().feature_code@) {
        kept_rows(rows.drop_last())
    } else {
        kept_rows(rows.drop_last()).push(rows.last())
    }
}

// ---------------------------------------------------------------- side tables

/// The last country whose ISO code is `code`.
pub open spec fn last_country(s: Seq<CountryRecordRaw>, code: Seq<char>) -> Option<CountryRecordRaw>
    decreases s.len(),
{
    if s.len() == 0 {
        None
    } else if s.last().iso@ == code {
        Some(s.last())
    } else {
        last_country(s.drop_last(), code)
    }
}

/// The last admin division whose code is `code`.
pub open spec fn last_admin(s: Seq<AdminDivision>, code: Seq<char>) -> Option<AdminDivision>
    decreases s.len(),
{
    if s.len() == 0 {
        None
    } else if s.last().code@ == code {
        Some(s.last())
    } else {
        last_admin(s.drop_last(), code)
    }
}

pub open spec fn country_of_row(countries: Option<Seq<CountryRecordRaw>>, row: CityRow) -> Option<CountryRecordRaw> {
    match countries {
        Some(c) => last_country(c, row.country_code@),
        None => None,
    }
}

pub open spec fn admin1_key(row: CityRow) -> Seq<char> {
    row.country_code@.push('.') + row.admin1_code@
}

pub open spec fn admin2_key(row: CityRow) -> Seq<char> {
    admin1_key(row).push('.') + row.admin2_code@
}

pub open spec fn admin_in(table: Option<Seq<AdminDivision>>, key: Seq<char>) -> Option<AdminDivision> {
    match table {
        Some(t) => last_admin(t, key),
        None => None,
    }
}

// ---------------------------------------------------------------- entries

/// The view of an entry: (city id, value, country id).
pub open spec fn entry_view(e: Entry) -> (u32, Seq<char>, Option<u32>) {
    (e.id, e.value@, e.country_id)
}

pub open spec fn entries_view(v: Seq<Entry>) -> Seq<(u32, Seq<char>, Option<u32>)> {
    v.map_values(|e: Entry| entry_view(e))
}

/// The entries of one row: its name, its ASCII name where that differs, and
/// each comma-separated alternate name, all lower-cased.
pub open spec fn row_entries(row: CityRow, cid: Option<u32>) -> Seq<(u32, Seq<char>, Option<u32>)> {
    let id = row.geonameid;
    let first = seq![(id, lower_of(row.name@), cid)];
    let ascii = if row.name@ != row.asciiname@ {
        seq![(id, lower_of(row.asciiname@), cid)]
    } else {
        Seq::empty()
    };
    let alts = split_spec(row.alternatenames@, ',').map_values(
        |t: Seq<char>| (id, lower_of(t), cid),
    );
    first + ascii + alts
}

pub open spec fn country_id_of(countries: Option<Seq<CountryRecordRaw>>, row: CityRow) -> Option<u32> {
    match country_of_row(countries, row) {
        Some(c) => Some(c.geonameid),
        None => None,
    }
}

/// The entries of all the rows, in order.
pub open spec fn all_entries(rows: Seq<CityRow>, countries: Option<Seq<CountryRecordRaw>>) -> Seq<(u32, Seq<char>, Option<u32>)>
    decreases rows.len(),
{
    if rows.len() == 0 {
        Seq::empty()
    } else {
        all_entries(rows.drop_last(), countries) + row_entries(rows.last(), country_id_of(countries, rows.last()))
    }
}

// ---------------------------------------------------------------- cities

pub open spec fn country_brief(c: CountryRecordRaw) -> Country {
    Country { id: c.geonameid, code: c.iso, name: c.name }
}

/// The country table of the sources, if given.
pub open spec fn countries_of(src: SourceRows) -> Option<Seq<CountryRecordRaw>> {
    match src.countries {
        Some(c) => Some(c@),
        None => None,
    }
}

/// An admin codes table, if given.
pub open spec fn admins_of(t: Option<Vec<AdminDivision>>) -> Option<Seq<AdminDivision>> {
    match t {
        Some(a) => Some(a@),
        None => None,
    }
}

/// The city that a row gives, with its country and admin divisions attached.
pub open spec fn city_of(row: CityRow, src: SourceRows) -> City {
    let countries = countries_of(src);
    let a1 = admins_of(src.admin1_codes);
    let a2 = admins_of(src.admin2_codes);
    City {
        id: row.geonameid,
        name: row.name,
        latitude: row.latitude,
        longitude: row.longitude,
        country: match country_of_row(countries, row) {
            Some(c) => Some(country_brief(c)),
            None => None,
        },
        admin_division: admin_in(a1, admin1_key(row)),
        admin2_division: admin_in(a2, admin2_key(row)),
        timezone: row.timezone,
        population: row.population,
    }
}

/// The city table: each id maps to the city of the last row with that id.
pub open spec fn city_table(rows: Seq<CityRow>, src: SourceRows) -> Map<u32, City>
    decreases rows.len(),
{
    if rows.len() == 0 {
        Map::empty()
    } else {
        city_table(rows.drop_last(), src).insert(rows.last().geonameid, city_of(rows.last(), src))
    }
}

/// The id of the last capital row whose country code, in upper case, is `cc`.
pub open spec fn capital_of(rows: Seq<CityRow>, cc: Seq<char>) -> Option<u32>
    decreases rows.len(),
{
    if rows.len() == 0 {
        None
    } else if capital_code(rows.last().feature_code@) && upper_of(rows.last().country_code@) == cc {
        Some(rows.last().geonameid)
    } else {
        capital_of(rows.drop_last(), cc)
    }
}

/// The last pair with key `k`.
pub open spec fn pair_lookup(s: Seq<(String, u32)>, k: Seq<char>) -> Option<u32>
    decreases s.len(),
{
    if s.len() == 0 {
        None
    } else if s.last().0@ == k {
        Some(s.last().1)
    } else {
        pair_lookup(s.drop_last(), k)
    }
}

// ---------------------------------------------------------------- names

/// Whether `id` is the id of one of the city rows.
pub open spec fn is_city_id(rows: Seq<CityRow>, id: u32) -> bool {
    exists|j: int| 0 <= j < rows.len() && (#[trigger] rows[j]).geonameid == id
}

pub open spec fn in_countries(src: SourceRows, id: u32) -> bool {
    src.countries matches Some(c) && exists|j: int| 0 <= j < c@.len() && (#[trigger] c@[j]).geonameid == id
}

pub open spec fn in_admins(t: Option<Vec<AdminDivision>>, id: u32) -> bool {
    t matches Some(a) && exists|j: int| 0 <= j < a@.len() && (#[trigger] a@[j]).id == id
}

/// Whether `id` is the id of a country or admin division of the sources.
pub open spec fn is_other_id(src: SourceRows, id: u32) -> bool {
    in_countries(src, id) || in_admins(src.admin1_codes, id) || in_admins(src.admin2_codes, id)
}

/// Whether an alternate name is taken into account: it names a place of the
/// sources, is not a short non-preferred name of a city, is neither
/// colloquial nor historic, and its language is one of the filter languages.
pub open spec fn name_accepted(src: SourceRows, r: AltNameRow) -> bool {
    let city = is_city_id(src.cities@, r.geonameid);
    &&& (city || is_other_id(src, r.geonameid))
    &&& !(city && r.is_short_name && !r.is_preferred_name)
    &&& !r.is_colloquial
    &&& !r.is_historic
    &&& exists|k: int| 0 <= k < src.filter_languages@.len() && (#[trigger] src.filter_languages@[k])@ == r.isolanguage@
}

/// The accepted record chosen for (`id`, `lang`): the last one, unless an
/// earlier chosen one was preferred, which then stays.
pub open spec fn chosen_name(src: SourceRows, recs: Seq<AltNameRow>, id: u32, lang: Seq<char>) -> Option<AltNameRow>
    decreases recs.len(),
{
    if recs.len() == 0 {
        None
    } else {
        let prev = chosen_name(src, recs.drop_last(), id, lang);
        let r = recs.last();
        if name_accepted(src, r) && r.geonameid == id && r.isolanguage@ == lang
            && !(prev matches Some(p) && p.is_preferred_name) {
            Some(r)
        } else {
            prev
        }
    }
}

pub open spec fn local_of(r: AltNameRow) -> LocalName {
    LocalName { lang: r.isolanguage, name: r.alternate_name, preferred: r.is_preferred_name }
}

/// The last name in language `lang`.
pub open spec fn name_in(v: Seq<LocalName>, lang: Seq<char>) -> Option<LocalName>
    decreases v.len(),
{
    if v.len() == 0 {
        None
    } else if v.last().lang@ == lang {
        Some(v.last())
    } else {
        name_in(v.drop_last(), lang)
    }
}

/// The name of place `id` in language `lang` in a table of localised names.
pub open spec fn table_name(t: Map<u32, Vec<LocalName>>, id: u32, lang: Seq<char>) -> Option<LocalName> {
    if t.contains_key(id) {
        name_in(t[id]@, lang)
    } else {
        None
    }
}

/// The table holds, for each place and language, the chosen name, and it
/// lists a place only with at least one name.
pub open spec fn names_resolved(t: Map<u32, Vec<LocalName>>, src: SourceRows, recs: Seq<AltNameRow>) -> bool {
    &&& forall|id: u32, lang: Seq<char>| #[trigger] table_name(t, id, lang) == match chosen_name(src, recs, id, lang) {
        Some(r) => Some(local_of(r)),
        None => None,
    }
    &&& forall|id: u32| #[trigger] t.contains_key(id) ==> t[id]@.len() > 0
}


/// (language, name) for each filter language in which `v` has a name, in the
/// order of the filter.
pub open spec fn lang_pairs(v: Seq<LocalName>, langs: Seq<String>) -> Seq<(String, String)>
    decreases langs.len(),
{
    if langs.len() == 0 {
        Seq::empty()
    } else {
        let prev = lang_pairs(v, langs.drop_last());
        match name_in(v, langs.last()@) {
            Some(n) => prev.push((langs.last(), n.name)),
            None => prev,
        }
    }
}

/// `o` holds the names of place `id`: none when the table has none for it.
pub open spec fn names_match(o: Option<Vec<(String, String)>>, t: Map<u32, Vec<LocalName>>, id: u32, langs: Seq<String>) -> bool {
    if t.contains_key(id) {
        o matches Some(v) && v@ == lang_pairs(t[id]@, langs)
    } else {
        o is None
    }
}

/// A country record: the country row, its names, and the names of its capital.
pub open spec fn record_matches(
    rec: CountryRecord,
    info: CountryRecordRaw,
    t: Map<u32, Vec<LocalName>>,
    capitals: Seq<(String, u32)>,
    langs: Seq<String>,
) -> bool {
    &&& rec.info == info
    &&& names_match(rec.names, t, info.geonameid, langs)
    &&& match pair_lookup(capitals, upper_of(info.iso@)) {
        Some(cid) => names_match(rec.capital_names, t, cid, langs),
        None => rec.capital_names is None,
    }
}

} // verus!
