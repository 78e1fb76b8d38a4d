//! Decoders for the GeoNames tab-separated sources. Each row is a record of
//! positional fields; a row whose fields do not decode is skipped.
use vstd::prelude::*;
use crate::text::{chars_of, strings_view};
use crate::number::{parse_u32, parse_micro, u32_of, micro_of, MAX_LATITUDE, MAX_LONGITUDE};

verus! {

broadcast use vstd::string::group_string_axioms;

/// Name for the records that the `csv` reader (no header row, tab delimiter,
/// records of any length) reads from a text, as the fields of each record.
pub uninterp spec fn tab_records_of(s: Seq<char>) -> Seq<Seq<Seq<char>>>;

/// The view of a sequence of records.
pub open spec fn records_view(v: Seq<Vec<String>>) -> Seq<Seq<Seq<char>>> {
    v.map_values(|r: Vec<String>| strings_view(r@))
}

/// Relies on `csv::ReaderBuilder` and `csv::Reader::records`: the records of a
/// tab-separated text without header row; records that the reader reports as
/// errors are left out.
#[verifier::external_body]
fn tab_records(content: &str) -> (r: Vec<Vec<String>>)
    ensures
        records_view(r@) == tab_records_of(content@),
{
    let mut rdr = csv::ReaderBuilder::new()
        .has_headers(false)
        .delimiter(b'\t')
        .flexible(true)
        .from_reader(content.as_bytes());
    rdr.records().filter_map(|rec| rec.ok()).map(|rec| rec.iter().map(String::from).collect()).collect()
}

/// The records that `ok` accepts, in order.
pub open spec fn keep_records(
    recs: Seq<Seq<Seq<char>>>,
    ok: spec_fn(Seq<Seq<char>>) -> bool,
) -> Seq<Seq<Seq<char>>>
    decreases recs.len(),
{
    if recs.len() == 0 {
        recs
    } else if ok(recs.last()) {
        keep_records(recs.drop_last(), ok).push(recs.last())
    } else {
        keep_records(recs.drop_last(), ok)
    }
}

/// Whether a field is the flag `1`.
pub open spec fn flag_of(s: Seq<char>) -> bool {
    s == seq!['1']
}

fn is_flag(s: &String) -> (r: bool)
    ensures
        r == flag_of(s@),
{
    let c = chars_of(s.as_str());
    let r = c.len() == 1 && c[0] == '1';
    assert(r ==> c@ =~= seq!['1']);
    r
}

fn field_u32(s: &String) -> (r: Option<u32>)
    ensures
        r == u32_of(s@),
{
    let c = chars_of(s.as_str());
    parse_u32(&c)
}

// ---------------------------------------------------------------- cities

/// A row of the cities table, with the fields that the index keeps.
pub struct CityRow {
    pub geonameid: u32,
    pub name: String,
    pub asciiname: String,
    pub alternatenames: String,
    /// Micro-degrees.
    pub latitude: i32,
    /// Micro-degrees.
    pub longitude: i32,
    pub feature_code: String,
    pub country_code: String,
    pub admin1_code: String,
    pub admin2_code: String,
    pub population: u32,
    pub timezone: String,
}

/// A cities record decodes: 19 fields, with id, coordinates and population readable.
pub open spec fn city_fields_ok(f: Seq<Seq<char>>) -> bool {
    &&& f.len() == 19
    &&& u32_of(f[0]) is Some
    &&& micro_of(f[4], MAX_LATITUDE as int) is Some
    &&& micro_of(f[5], MAX_LONGITUDE as int) is Some
    &&& u32_of(f[14]) is Some
}

/// `row` holds what the cities record `f` says.
pub open spec fn city_row_matches(row: CityRow, f: Seq<Seq<char>>) -> bool {
    &&& city_fields_ok(f)
    &&& row.geonameid == u32_of(f[0])->0
    &&& row.name@ == f[1]
    &&& row.asciiname@ == f[2]
    &&& row.alternatenames@ == f[3]
    &&& row.latitude == micro_of(f[4], MAX_LATITUDE as int)->0
    &&& row.longitude == micro_of(f[5], MAX_LONGITUDE as int)->0
    &&& row.feature_code@ == f[7]
    &&& row.country_code@ == f[8]
    &&& row.admin1_code@ == f[10]
    &&& row.admin2_code@ == f[11]
    &&& row.population == u32_of(f[14])->0
    &&& row.timezone@ == f[17]
}

fn city_row(f: &Vec<String>) -> (r: Option<CityRow>)
    ensures
        r is Some <==> city_fields_ok(strings_view(f@)),
        r matches Some(row) ==> city_row_matches(row, strings_view(f@)),
{
    let ghost v = strings_view(f@);
    if f.len() != 19 {
        return None;
    }
    let id = field_u32(&f[0]);
    let lat = parse_micro(&chars_of(f[4].as_str()), MAX_LATITUDE);
    let lng = parse_micro(&chars_of(f[5].as_str()), MAX_LONGITUDE);
    let population = field_u32(&f[14]);
    match (id, lat, lng, population) {
        (Some(id), Some(lat), Some(lng), Some(population)) => Some(CityRow {
            geonameid: id,
            name: f[1].clone(),
            asciiname: f[2].clone(),
            alternatenames: f[3].clone(),
            latitude: lat,
            longitude: lng,
            feature_code: f[7].clone(),
            country_code: f[8].clone(),
            admin1_code: f[10].clone(),
            admin2_code: f[11].clone(),
            population,
            timezone: f[17].clone(),
        }),
        _ => None,
    }
}

/// The decoded rows correspond one to one, in order, to the cities records of
/// `content` that decode.
pub open spec fn cities_decoded(rows: Seq<CityRow>, content: Seq<char>) -> bool {
    let kept = keep_records(tab_records_of(content), |f: Seq<Seq<char>>| city_fields_ok(f));
    &&& rows.len() == kept.len()
    &&& forall|i: int| 0 <= i < rows.len() ==> city_row_matches(#[trigger] rows[i], kept[i])
}

/// Decodes the cities table; rows that do not decode are skipped.
pub fn decode_cities(content: &str) -> (r: Vec<CityRow>)
    ensures
        cities_decoded(r@, content@),
{
    let recs = tab_records(content);
    let ghost rv = records_view(recs@);
    let ghost ok = |f: Seq<Seq<char>>| city_fields_ok(f);
    let mut out: Vec<CityRow> = Vec::new();
    let mut i: usize = 0;
    while i < recs.len()
        invariant
            i <= recs.len(),
            rv == records_view(recs@),
            ok == (|f: Seq<Seq<char>>| city_fields_ok(f)),
            out@.len() == keep_records(rv.take(i as int), ok).len(),
            forall|j: int| 0 <= j < out@.len() ==> city_row_matches(#[trigger] out@[j], keep_records(rv.take(i as int), ok)[j]),
        decreases recs.len() - i,
    {
        assert(rv.take(i as int + 1).drop_last() =~= rv.take(i as int));
        assert(rv[i as int] == strings_view(recs@[i as int]@));
        match city_row(&recs[i]) {
            Some(row) => {
                out.push(row);
            },
            None => {},
        }
        i += 1;
    }
    assert(rv.take(recs.len() as int) =~= rv);
    out
}


// ---------------------------------------------------------------- alternate names

/// A row of the alternate names table.
pub struct AltNameRow {
    pub geonameid: u32,
    pub isolanguage: String,
    pub alternate_name: String,
    pub is_preferred_name: bool,
    pub is_short_name: bool,
    pub is_colloquial: bool,
    pub is_historic: bool,
}

/// An alternate names record decodes: 10 fields, the two ids readable.
pub open spec fn alt_fields_ok(f: Seq<Seq<char>>) -> bool {
    f.len() == 10 && u32_of(f[0]) is Some && u32_of(f[1]) is Some
}

pub open spec fn alt_row_matches(row: AltNameRow, f: Seq<Seq<char>>) -> bool {
    &&& alt_fields_ok(f)
    &&& row.geonameid == u32_of(f[1])->0
    &&& row.isolanguage@ == f[2]
    &&& row.alternate_name@ == f[3]
    &&& row.is_preferred_name == flag_of(f[4])
    &&& row.is_short_name == flag_of(f[5])
    &&& row.is_colloquial == flag_of(f[6])
    &&& row.is_historic == flag_of(f[7])
}

fn alt_row(f: &Vec<String>) -> (r: Option<AltNameRow>)
    ensures
        r is Some <==> alt_fields_ok(strings_view(f@)),
        r matches Some(row) ==> alt_row_matches(row, strings_view(f@)),
{
    if f.len() != 10 {
        return None;
    }
    let alt_id = field_u32(&f[0]);
    let id = field_u32(&f[1]);
    match (alt_id, id) {
        (Some(_), Some(id)) => Some(AltNameRow {
            geonameid: id,
            isolanguage: f[2].clone(),
            alternate_name: f[3].clone(),
            is_preferred_name: is_flag(&f[4]),
            is_short_name: is_flag(&f[5]),
            is_colloquial: is_flag(&f[6]),
            is_historic: is_flag(&f[7]),
        }),
        _ => None,
    }
}

pub open spec fn alt_names_decoded(rows: Seq<AltNameRow>, content: Seq<char>) -> bool {
    let kept = keep_records(tab_records_of(content), |f: Seq<Seq<char>>| alt_fields_ok(f));
    &&& rows.len() == kept.len()
    &&& forall|i: int| 0 <= i < rows.len() ==> alt_row_matches(#[trigger] rows[i], kept[i])
}

/// Decodes the alternate names table; rows that do not decode are skipped.
pub fn decode_alt_names(content: &str) -> (r: Vec<AltNameRow>)
    ensures
        alt_names_decoded(r@, content@),
{
    let recs = tab_records(content);
    let ghost rv = records_view(recs@);
    let ghost ok = |f: Seq<Seq<char>>| alt_fields_ok(f);
    let mut out: Vec<AltNameRow> = Vec::new();
    let mut i: usize = 0;
    while i < recs.len()
        invariant
            i <= recs.len(),
            rv == records_view(recs@),
            ok == (|f: Seq<Seq<char>>| alt_fields_ok(f)),
            out@.len() == keep_records(rv.take(i as int), ok).len(),
            forall|j: int| 0 <= j < out@.len() ==> alt_row_matches(#[trigger] out@[j], keep_records(rv.take(i as int), ok)[j]),
        decreases recs.len() - i,
    {
        assert(rv.take(i as int + 1).drop_last() =~= rv.take(i as int));
        assert(rv[i as int] == strings_view(recs@[i as int]@));
        match alt_row(&recs[i]) {
            Some(row) => {
                out.push(row);
            },
            None => {},
        }
        i += 1;
    }
    assert(rv.take(recs.len() as int) =~= rv);
    out
}

// ---------------------------------------------------------------- country info

/// A row of the country info table, all of its fields.
pub struct CountryRecordRaw {
    pub iso: String,
    pub iso3: String,
    pub iso_numeric: String,
    pub fips: String,
    pub name: String,
    pub capital: String,
    pub area: String,
    pub population: u32,
    pub continent: String,
    pub tld: String,
    pub currency_code: String,
    pub currency_name: String,
    pub phone: String,
    pub postal_code_format: String,
    pub postal_code_regex: String,
    pub languages: String,
    pub geonameid: u32,
    pub neighbours: String,
    pub equivalent_fips_code: String,
}

impl CountryRecordRaw {
    /// A copy of the row.
    pub fn copy(&self) -> (r: CountryRecordRaw)
        ensures
            r == *self,
    {
        CountryRecordRaw {
            iso: self.iso.clone(),
            iso3: self.iso3.clone(),
            iso_numeric: self.iso_numeric.clone(),
            fips: self.fips.clone(),
            name: self.name.clone(),
            capital: self.capital.clone(),
            area: self.area.clone(),
            population: self.population,
            continent: self.continent.clone(),
            tld: self.tld.clone(),
            currency_code: self.currency_code.clone(),
            currency_name: self.currency_name.clone(),
            phone: self.phone.clone(),
            postal_code_format: self.postal_code_format.clone(),
            postal_code_regex: self.postal_code_regex.clone(),
            languages: self.languages.clone(),
            geonameid: self.geonameid,
            neighbours: self.neighbours.clone(),
            equivalent_fips_code: self.equivalent_fips_code.clone(),
        }
    }
}

/// A country info record decodes: 19 fields, population and id readable.
pub open spec fn country_fields_ok(f: Seq<Seq<char>>) -> bool {
    f.len() == 19 && u32_of(f[7]) is Some && u32_of(f[16]) is Some
}

pub open spec fn country_row_matches(row: CountryRecordRaw, f: Seq<Seq<char>>) -> bool {
    &&& country_fields_ok(f)
    &&& row.iso@ == f[0]
    &&& row.iso3@ == f[1]
    &&& row.iso_numeric@ == f[2]
    &&& row.fips@ == f[3]
    &&& row.name@ == f[4]
    &&& row.capital@ == f[5]
    &&& row.area@ == f[6]
    &&& row.population == u32_of(f[7])->0
    &&& row.continent@ == f[8]
    &&& row.tld@ == f[9]
    &&& row.currency_code@ == f[10]
    &&& row.currency_name@ == f[11]
    &&& row.phone@ == f[12]
    &&& row.postal_code_format@ == f[13]
    &&& row.postal_code_regex@ == f[14]
    &&& row.languages@ == f[15]
    &&& row.geonameid == u32_of(f[16])->0
    &&& row.neighbours@ == f[17]
    &&& row.equivalent_fips_code@ == f[18]
}

fn country_row(f: &Vec<String>) -> (r: Option<CountryRecordRaw>)
    ensures
        r is Some <==> country_fields_ok(strings_view(f@)),
        r matches Some(row) ==> country_row_matches(row, strings_view(f@)),
{
    if f.len() != 19 {
        return None;
    }
    let population = field_u32(&f[7]);
    let id = field_u32(&f[16]);
    match (population, id) {
        (Some(population), Some(id)) => Some(CountryRecordRaw {
            iso: f[0].clone(),
            iso3: f[1].clone(),
            iso_numeric: f[2].clone(),
            fips: f[3].clone(),
            name: f[4].clone(),
            capital: f[5].clone(),
            area: f[6].clone(),
            population,
            continent: f[8].clone(),
            tld: f[9].clone(),
            currency_code: f[10].clone(),
            currency_name: f[11].clone(),
            phone: f[12].clone(),
            postal_code_format: f[13].clone(),
            postal_code_regex: f[14].clone(),
            languages: f[15].clone(),
            geonameid: id,
            neighbours: f[17].clone(),
            equivalent_fips_code: f[18].clone(),
        }),
        _ => None,
    }
}

/// The decoded rows correspond one to one, in order, to the country info
/// records that decode, read from the content without its comment lines.
pub open spec fn countries_decoded(rows: Seq<CountryRecordRaw>, content: Seq<char>) -> bool {
    let kept = keep_records(tab_records_of(content), |f: Seq<Seq<char>>| country_fields_ok(f));
    &&& rows.len() == kept.len()
    &&& forall|i: int| 0 <= i < rows.len() ==> country_row_matches(#[trigger] rows[i], kept[i])
}

/// Decodes the country info table (comment lines already removed).
pub fn decode_countries(content: &str) -> (r: Vec<CountryRecordRaw>)
    ensures
        countries_decoded(r@, content@),
{
    let recs = tab_records(content);
    let ghost rv = records_view(recs@);
    let ghost ok = |f: Seq<Seq<char>>| country_fields_ok(f);
    let mut out: Vec<CountryRecordRaw> = Vec::new();
    let mut i: usize = 0;
    while i < recs.len()
        invariant
            i <= recs.len(),
            rv == records_view(recs@),
            ok == (|f: Seq<Seq<char>>| country_fields_ok(f)),
            out@.len() == keep_records(rv.take(i as int), ok).len(),
            forall|j: int| 0 <= j < out@.len() ==> country_row_matches(#[trigger] out@[j], keep_records(rv.take(i as int), ok)[j]),
        decreases recs.len() - i,
    {
        assert(rv.take(i as int + 1).drop_last() =~= rv.take(i as int));
        assert(rv[i as int] == strings_view(recs@[i as int]@));
        match country_row(&recs[i]) {
            Some(row) => {
                out.push(row);
            },
            None => {},
        }
        i += 1;
    }
    assert(rv.take(recs.len() as int) =~= rv);
    out
}

// ---------------------------------------------------------------- admin codes

/// An administrative division: `code` is `CC.A1` or `CC.A1.A2`.
pub struct AdminDivision {
    pub id: u32,
    pub code: String,
    pub name: String,
}

impl AdminDivision {
    /// A copy of the division.
    pub fn copy(&self) -> (r: AdminDivision)
        ensures
            r == *self,
    {
        AdminDivision { id: self.id, code: self.code.clone(), name: self.name.clone() }
    }
}

/// An admin codes record decodes: 4 fields, the id readable.
pub open spec fn admin_fields_ok(f: Seq<Seq<char>>) -> bool {
    f.len() == 4 && u32_of(f[3]) is Some
}

pub open spec fn admin_row_matches(row: AdminDivision, f: Seq<Seq<char>>) -> bool {
    &&& admin_fields_ok(f)
    &&& row.id == u32_of(f[3])->0
    &&& row.code@ == f[0]
    &&& row.name@ == f[1]
}

fn admin_row(f: &Vec<String>) -> (r: Option<AdminDivision>)
    ensures
        r is Some <==> admin_fields_ok(strings_view(f@)),
        r matches Some(row) ==> admin_row_matches(row, strings_view(f@)),
{
    if f.len() != 4 {
        return None;
    }
    match field_u32(&f[3]) {
        Some(id) => Some(AdminDivision { id, code: f[0].clone(), name: f[1].clone() }),
        None => None,
    }
}

pub open spec fn admins_decoded(rows: Seq<AdminDivision>, content: Seq<char>) -> bool {
    let kept = keep_records(tab_records_of(content), |f: Seq<Seq<char>>| admin_fields_ok(f));
    &&& rows.len() == kept.len()
    &&& forall|i: int| 0 <= i < rows.len() ==> admin_row_matches(#[trigger] rows[i], kept[i])
}

/// Decodes an admin1 or admin2 codes table; rows that do not decode are skipped.
pub fn decode_admins(content: &str) -> (r: Vec<AdminDivision>)
    ensures
        admins_decoded(r@, content@),
{
    let recs = tab_records(content);
    let ghost rv = records_view(recs@);
    let ghost ok = |f: Seq<Seq<char>>| admin_fields_ok(f);
    let mut out: Vec<AdminDivision> = Vec::new();
    let mut i: usize = 0;
    while i < recs.len()
        invariant
            i <= recs.len(),
            rv == records_view(recs@),
            ok == (|f: Seq<Seq<char>>| admin_fields_ok(f)),
            out@.len() == keep_records(rv.take(i as int), ok).len(),
            forall|j: int| 0 <= j < out@.len() ==> admin_row_matches(#[trigger] out@[j], keep_records(rv.take(i as int), ok)[j]),
        decreases recs.len() - i,
    {
        assert(rv.take(i as int + 1).drop_last() =~= rv.take(i as int));
        assert(rv[i as int] == strings_view(recs@[i as int]@));
        match admin_row(&recs[i]) {
            Some(row) => {
                out.push(row);
            },
            None => {},
        }
        i += 1;
    }
    assert(rv.take(recs.len() as int) =~= rv);
    out
}

} // verus!
