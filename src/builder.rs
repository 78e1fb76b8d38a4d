//! Building the index from decoded rows.
use vstd::prelude::*;
use std::collections::{HashMap, HashSet};
use crate::records::{decode_cities, decode_alt_names, decode_countries, decode_admins, cities_decoded, alt_names_decoded, countries_decoded, admins_decoded, CityRow, AltNameRow, CountryRecordRaw, AdminDivision};
use crate::text::{uppercase, upper_of, skip_comment_lines, join_lines, uncommented, lines_spec, join_with, chars_of, string_of, split_chars, split_spec, pieces_view, lowercase, lower_of};
use crate::index::{IndexData, City, Country, CountryRecord, kept_rows, all_entries, city_table, city_of, capital_of, countries_of, admins_of, country_id_of, country_of_row, admin_in, lang_pairs, names_match, record_matches, Entry, entries_view, row_entries, excluded_code, capital_code, LocalName, SourceRows, last_country, last_admin, pair_lookup, name_in, is_city_id, in_admins, in_countries, table_name, chosen_name, local_of, names_resolved, name_accepted};

verus! {

broadcast use vstd::std_specs::hash::group_hash_axioms;

/// Position of the last country with ISO code `code`.
pub fn find_country(s: &Vec<CountryRecordRaw>, code: &String) -> (r: Option<usize>)
    ensures
        match r {
            Some(i) => i < s.len() && last_country(s@, code@) == Some(s@[i as int]),
            None => last_country(s@, code@) is None,
        },
{
    let mut found: Option<usize> = None;
    let mut i: usize = 0;
    while i < s.len()
        invariant
            i <= s.len(),
            match found {
                Some(j) => j < i && last_country(s@.take(i as int), code@) == Some(s@[j as int]),
                None => last_country(s@.take(i as int), code@) is None,
            },
        decreases s.len() - i,
    {
        assert(s@.take(i as int + 1).drop_last() =~= s@.take(i as int));
        if s[i].iso == *code {
            found = Some(i);
        }
        i += 1;
    }
    assert(s@.take(s.len() as int) =~= s@);
    found
}

/// The value of the last pair with key `k`.
pub fn find_pair(s: &Vec<(String, u32)>, k: &String) -> (r: Option<u32>)
    ensures
        r == pair_lookup(s@, k@),
{
    let mut found: Option<u32> = None;
    let mut i: usize = 0;
    while i < s.len()
        invariant
            i <= s.len(),
            found == pair_lookup(s@.take(i as int), k@),
        decreases s.len() - i,
    {
        assert(s@.take(i as int + 1).drop_last() =~= s@.take(i as int));
        if s[i].0 == *k {
            found = Some(s[i].1);
        }
        i += 1;
    }
    assert(s@.take(s.len() as int) =~= s@);
    found
}

/// The value of the last (key, value) pair with key `k`.
pub fn find_pair_text<'a>(s: &'a Vec<(String, String)>, k: &String) -> (r: Option<&'a String>)
    ensures
        match r {
            Some(v) => crate::metadata::text_lookup(s@, k@) == Some(v@),
            None => crate::metadata::text_lookup(s@, k@) is None,
        },
{
    let mut found: Option<&'a String> = None;
    let mut i: usize = 0;
    while i < s.len()
        invariant
            i <= s.len(),
            match found {
                Some(v) => crate::metadata::text_lookup(s@.take(i as int), k@) == Some(v@),
                None => crate::metadata::text_lookup(s@.take(i as int), k@) is None,
            },
        decreases s.len() - i,
    {
        assert(s@.take(i as int + 1).drop_last() =~= s@.take(i as int));
        if s[i].0 == *k {
            found = Some(&s[i].1);
        }
        i += 1;
    }
    assert(s@.take(s.len() as int) =~= s@);
    found
}

/// Position of the last name in language `lang`.
pub fn find_name(s: &Vec<LocalName>, lang: &String) -> (r: Option<usize>)
    ensures
        match r {
            Some(i) => i < s.len() && name_in(s@, lang@) == Some(s@[i as int]),
            None => name_in(s@, lang@) is None,
        },
{
    let mut found: Option<usize> = None;
    let mut i: usize = 0;
    while i < s.len()
        invariant
            i <= s.len(),
            match found {
                Some(j) => j < i && name_in(s@.take(i as int), lang@) == Some(s@[j as int]),
                None => name_in(s@.take(i as int), lang@) is None,
            },
        decreases s.len() - i,
    {
        assert(s@.take(i as int + 1).drop_last() =~= s@.take(i as int));
        if s[i].lang == *lang {
            found = Some(i);
        }
        i += 1;
    }
    assert(s@.take(s.len() as int) =~= s@);
    found
}

/// A hash of a code: its characters folded by `h * 31 + c`, modulo 2^64.
pub open spec fn code_hash(s: Seq<char>) -> u64
    decreases s.len(),
{
    if s.len() == 0 {
        0
    } else {
        ((code_hash(s.drop_last()) * 31 + (s.last() as u32)) % 0x1_0000_0000_0000_0000) as u64
    }
}

fn hash_code(code: &String) -> (r: u64)
    ensures
        r == code_hash(code@),
{
    let c = chars_of(code.as_str());
    let mut h: u64 = 0;
    let mut i: usize = 0;
    while i < c.len()
        invariant
            i <= c.len(),
            h == code_hash(c@.take(i as int)),
        decreases c.len() - i,
    {
        assert(c@.take(i as int + 1).drop_last() =~= c@.take(i as int));
        h = (((h as u128) * 31 + (c[i] as u32) as u128) % 0x1_0000_0000_0000_0000) as u64;
        i += 1;
    }
    assert(c@.take(c.len() as int) =~= c@);
    h
}

/// The buckets index the rows by the hash of their code: each bucket lists,
/// in increasing order, exactly the rows whose code has its hash.
pub open spec fn buckets_ok(rows: Seq<AdminDivision>, m: Map<u64, Vec<usize>>) -> bool {
    &&& forall|h: u64, k: int| #![trigger m[h]@[k]] m.contains_key(h) && 0 <= k < m[h]@.len() ==>
        (m[h]@[k] as int) < rows.len() && code_hash(rows[m[h]@[k] as int].code@) == h
    &&& forall|h: u64, a: int, b: int| #![trigger m[h]@[a], m[h]@[b]] m.contains_key(h) && 0 <= a < b < m[h]@.len() ==> m[h]@[a] < m[h]@[b]
    &&& forall|i: int| 0 <= i < rows.len() ==> m.contains_key(#[trigger] code_hash(rows[i].code@))
        && m[code_hash(rows[i].code@)]@.contains(i as usize)
}

fn admin_buckets(rows: &Vec<AdminDivision>) -> (r: HashMap<u64, Vec<usize>>)
    ensures
        buckets_ok(rows@, r@),
{
    let mut m: HashMap<u64, Vec<usize>> = HashMap::new();
    let mut i: usize = 0;
    while i < rows.len()
        invariant
            i <= rows.len(),
            buckets_ok(rows@.take(i as int), m@),
            forall|h: u64, k: int| #![trigger m@[h]@[k]] m@.contains_key(h) && 0 <= k < m@[h]@.len() ==> m@[h]@[k] < i,
        decreases rows.len() - i,
    {
        let h = hash_code(&rows[i].code);
        let ghost m0 = m@;
        let mut b: Vec<usize> = match m.remove(&h) {
            Some(b) => b,
            None => Vec::new(),
        };
        let ghost b0 = b@;
        assert(m0.contains_key(h) ==> b0 == m0[h]@);
        b.push(i);
        m.insert(h, b);
        let ghost pre = rows@.take(i as int);
        let ghost post = rows@.take(i as int + 1);
        assert forall|j: int| 0 <= j < pre.len() implies post[j] == pre[j] by {}
        assert(post[i as int] == rows@[i as int]);
        assert forall|hh: u64, k: int| #![trigger m@[hh]@[k]] m@.contains_key(hh) && 0 <= k < m@[hh]@.len() implies
            (m@[hh]@[k] as int) < post.len() && code_hash(post[m@[hh]@[k] as int].code@) == hh && m@[hh]@[k] < i + 1 by {
            if hh == h {
                if k < b0.len() {
                    assert(m@[hh]@[k] == m0[hh]@[k]);
                }
            } else {
                assert(m@[hh] == m0[hh]);
            }
        }
        assert forall|hh: u64, a: int, c: int| #![trigger m@[hh]@[a], m@[hh]@[c]] m@.contains_key(hh) && 0 <= a < c < m@[hh]@.len() implies m@[hh]@[a] < m@[hh]@[c] by {
            if hh == h {
                if c < b0.len() {
                    assert(m@[hh]@[a] == m0[hh]@[a] && m@[hh]@[c] == m0[hh]@[c]);
                } else {
                    assert(m@[hh]@[a] == m0[hh]@[a]);
                    assert(m0[hh]@[a] < i);
                }
            } else {
                assert(m@[hh] == m0[hh]);
            }
        }
        assert forall|j: int| 0 <= j < post.len() implies m@.contains_key(#[trigger] code_hash(post[j].code@))
            && m@[code_hash(post[j].code@)]@.contains(j as usize) by {
            if j < i {
                assert(post[j] == pre[j]);
                let hj = code_hash(pre[j].code@);
                assert(m0.contains_key(hj) && m0[hj]@.contains(j as usize));
                if hj == h {
                    let q = choose|q: int| 0 <= q < b0.len() && b0[q] == j as usize;
                    assert(m@[hj]@[q] == j as usize);
                } else {
                    assert(m@[hj] == m0[hj]);
                }
            } else {
                assert(m@[h]@[b0.len() as int] == i);
            }
        }
        i += 1;
    }
    assert(rows@.take(rows.len() as int) =~= rows@);
    m
}

proof fn lemma_last_admin_max(s: Seq<AdminDivision>, code: Seq<char>, j: int)
    requires
        0 <= j < s.len(),
        s[j].code@ == code,
        forall|i: int| j < i < s.len() ==> (#[trigger] s[i]).code@ != code,
    ensures
        last_admin(s, code) == Some(s[j]),
    decreases s.len(),
{
    if j < s.len() - 1 {
        assert(s[s.len() - 1].code@ != code);
        lemma_last_admin_max(s.drop_last(), code, j);
    }
}

proof fn lemma_last_admin_none(s: Seq<AdminDivision>, code: Seq<char>)
    requires
        forall|i: int| 0 <= i < s.len() ==> (#[trigger] s[i]).code@ != code,
    ensures
        last_admin(s, code) is None,
    decreases s.len(),
{
    if s.len() > 0 {
        assert(s[s.len() - 1].code@ != code);
        lemma_last_admin_none(s.drop_last(), code);
    }
}

/// Position of the last admin division with code `code`, through the buckets.
fn find_admin_hashed(rows: &Vec<AdminDivision>, m: &HashMap<u64, Vec<usize>>, code: &String) -> (r: Option<usize>)
    requires
        buckets_ok(rows@, m@),
    ensures
        match r {
            Some(i) => i < rows.len() && last_admin(rows@, code@) == Some(rows@[i as int]),
            None => last_admin(rows@, code@) is None,
        },
{
    let h = hash_code(code);
    match m.get(&h) {
        None => {
            proof {
                assert forall|i: int| 0 <= i < rows@.len() implies (#[trigger] rows@[i]).code@ != code@ by {
                    if rows@[i].code@ == code@ {
                        assert(m@.contains_key(code_hash(rows@[i].code@)));
                    }
                }
                lemma_last_admin_none(rows@, code@);
            }
            None
        },
        Some(b) => {
            let mut found: Option<usize> = None;
            let mut k: usize = 0;
            while k < b.len()
                invariant
                    k <= b@.len(),
                    m@.contains_key(h),
                    *b == m@[h],
                    buckets_ok(rows@, m@),
                    h == code_hash(code@),
                    match found {
                        Some(j) => (j as int) < rows@.len() && rows@[j as int].code@ == code@
                            && exists|q: int| 0 <= q < k && b@[q] == j
                            && forall|q2: int| q < q2 < k ==> rows@[b@[q2] as int].code@ != code@,
                        None => forall|q: int| 0 <= q < k ==> rows@[b@[q] as int].code@ != code@,
                    },
                decreases b@.len() - k,
            {
                let j = b[k];
                assert(m@[h]@[k as int] == j);
                if rows[j].code == *code {
                    found = Some(j);
                }
                k += 1;
            }
            match found {
                Some(j) => {
                    proof {
                        let q = choose|q: int| 0 <= q < b@.len() && b@[q] == j
                            && forall|q2: int| q < q2 < b@.len() ==> rows@[b@[q2] as int].code@ != code@;
                        assert forall|i: int| j < i < rows@.len() implies (#[trigger] rows@[i]).code@ != code@ by {
                            if rows@[i].code@ == code@ {
                                assert(rows@.len() == rows.len());
                                assert((i as usize) as int == i);
                                assert(code_hash(rows@[i].code@) == h);
                                assert(m@[h]@.contains(i as usize));
                                let p = choose|p: int| 0 <= p < b@.len() && b@[p] == i as usize;
                                if p <= q {
                                    if p < q {
                                        assert(m@[h]@[p] < m@[h]@[q]);
                                    }
                                } else {
                                    assert(rows@[b@[p] as int].code@ != code@);
                                }
                            }
                        }
                        lemma_last_admin_max(rows@, code@, j as int);
                    }
                    Some(j)
                },
                None => {
                    proof {
                        assert forall|i: int| 0 <= i < rows@.len() implies (#[trigger] rows@[i]).code@ != code@ by {
                            if rows@[i].code@ == code@ {
                                assert(rows@.len() == rows.len());
                                assert((i as usize) as int == i);
                                assert(code_hash(rows@[i].code@) == h);
                                assert(m@[h]@.contains(i as usize));
                                let p = choose|p: int| 0 <= p < b@.len() && b@[p] == i as usize;
                                assert(rows@[b@[p] as int].code@ != code@);
                            }
                        }
                        lemma_last_admin_none(rows@, code@);
                    }
                    None
                },
            }
        },
    }
}

fn city_ids(src: &SourceRows) -> (r: HashSet<u32>)
    ensures
        forall|id: u32| r@.contains(id) <==> is_city_id(src.cities@, id),
{
    let mut set: HashSet<u32> = HashSet::new();
    let mut i: usize = 0;
    while i < src.cities.len()
        invariant
            i <= src.cities.len(),
            forall|id: u32| set@.contains(id) <==> exists|j: int| 0 <= j < i && (#[trigger] src.cities@[j]).geonameid == id,
        decreases src.cities.len() - i,
    {
        set.insert(src.cities[i].geonameid);
        i += 1;
    }
    set
}

fn country_id_set(src: &SourceRows) -> (r: HashSet<u32>)
    ensures
        forall|id: u32| r@.contains(id) <==> in_countries(*src, id),
{
    let mut set: HashSet<u32> = HashSet::new();
    if let Some(c) = &src.countries {
        let mut i: usize = 0;
        while i < c.len()
            invariant
                i <= c.len(),
                forall|id: u32| set@.contains(id) <==> exists|j: int| 0 <= j < i && (#[trigger] c@[j]).geonameid == id,
            decreases c.len() - i,
        {
            let x = c[i].geonameid;
            set.insert(x);
            assert(c@[i as int].geonameid == x);
            i += 1;
        }
    }
    set
}

fn admin_id_set(t: &Option<Vec<AdminDivision>>) -> (r: HashSet<u32>)
    ensures
        forall|id: u32| r@.contains(id) <==> in_admins(*t, id),
{
    let mut set: HashSet<u32> = HashSet::new();
    if let Some(c) = t {
        let mut i: usize = 0;
        while i < c.len()
            invariant
                i <= c.len(),
                forall|id: u32| set@.contains(id) <==> exists|j: int| 0 <= j < i && (#[trigger] c@[j]).id == id,
            decreases c.len() - i,
        {
            let x = c[i].id;
            set.insert(x);
            assert(c@[i as int].id == x);
            i += 1;
        }
    }
    set
}

/// Whether one of the filter languages is `lang`.
fn language_wanted(langs: &Vec<String>, lang: &String) -> (r: bool)
    ensures
        r == exists|k: int| 0 <= k < langs@.len() && (#[trigger] langs@[k])@ == lang@,
{
    let mut i: usize = 0;
    while i < langs.len()
        invariant
            i <= langs.len(),
            forall|k: int| 0 <= k < i ==> (#[trigger] langs@[k])@ != lang@,
        decreases langs.len() - i,
    {
        if langs[i] == *lang {
            return true;
        }
        i += 1;
    }
    false
}


/// The alternate name records of the sources, none when the file is absent.
pub open spec fn name_records(src: SourceRows) -> Seq<AltNameRow> {
    match src.names {
        Some(n) => n@,
        None => Seq::empty(),
    }
}

/// Resolves the alternate names: for each place and language, the name chosen
/// by the preference rules.
pub fn resolve_names(src: &SourceRows) -> (r: HashMap<u32, Vec<LocalName>>)
    ensures
        names_resolved(r@, *src, name_records(*src)),
{
    let mut table: HashMap<u32, Vec<LocalName>> = HashMap::new();
    let recs: &Vec<AltNameRow> = match &src.names {
        Some(n) => n,
        None => {
            assert forall|id: u32, lang: Seq<char>| #[trigger] table_name(table@, id, lang) == match chosen_name(*src, name_records(*src), id, lang) {
                Some(r) => Some(local_of(r)),
                None => None::<LocalName>,
            } by {}
            return table;
        },
    };
    let cities = city_ids(src);
    let countries = country_id_set(src);
    let admin1 = admin_id_set(&src.admin1_codes);
    let admin2 = admin_id_set(&src.admin2_codes);
    let mut i: usize = 0;
    while i < recs.len()
        invariant
            i <= recs.len(),
            recs@ == name_records(*src),
            forall|id: u32| cities@.contains(id) <==> is_city_id(src.cities@, id),
            forall|id: u32| countries@.contains(id) <==> in_countries(*src, id),
            forall|id: u32| admin1@.contains(id) <==> in_admins(src.admin1_codes, id),
            forall|id: u32| admin2@.contains(id) <==> in_admins(src.admin2_codes, id),
            names_resolved(table@, *src, recs@.take(i as int)),
        decreases recs.len() - i,
    {
        let r = &recs[i];
        let ghost pre = recs@.take(i as int);
        assert(recs@.take(i as int + 1).drop_last() =~= pre);
        let is_city = cities.contains(&r.geonameid);
        let other = countries.contains(&r.geonameid) || admin1.contains(&r.geonameid)
            || admin2.contains(&r.geonameid);
        let accepted = (is_city || other)
            && !(is_city && r.is_short_name && !r.is_preferred_name)
            && !r.is_colloquial && !r.is_historic
            && language_wanted(&src.filter_languages, &r.isolanguage);
        assert(accepted == name_accepted(*src, *r));
        if accepted {
            let ghost old_t = table@;
            let mut v: Vec<LocalName> = match table.remove(&r.geonameid) {
                Some(v) => v,
                None => Vec::new(),
            };
            assert(name_in(v@, r.isolanguage@) == table_name(old_t, r.geonameid, r.isolanguage@));
            let keep = match find_name(&v, &r.isolanguage) {
                Some(k) => v[k].preferred,
                None => false,
            };
            let ghost old_v = v@;
            if !keep {
                v.push(LocalName {
                    lang: r.isolanguage.clone(),
                    name: r.alternate_name.clone(),
                    preferred: r.is_preferred_name,
                });
            }
            table.insert(r.geonameid, v);
            assert forall|id: u32, lang: Seq<char>| #[trigger] table_name(table@, id, lang) == match chosen_name(*src, recs@.take(i as int + 1), id, lang) {
                Some(x) => Some(local_of(x)),
                None => None::<LocalName>,
            } by {
                assert(table_name(old_t, id, lang) == match chosen_name(*src, pre, id, lang) {
                    Some(x) => Some(local_of(x)),
                    None => None::<LocalName>,
                });
                if id == r.geonameid {
                    assert(name_in(old_v, lang) == table_name(old_t, id, lang));
                    if !keep {
                        assert(old_v.push(v@.last()).drop_last() =~= old_v);
                        assert(v@ == old_v.push(v@.last()));
                    }
                }
            }
        } else {
            assert forall|id: u32, lang: Seq<char>| #[trigger] table_name(table@, id, lang) == match chosen_name(*src, recs@.take(i as int + 1), id, lang) {
                Some(x) => Some(local_of(x)),
                None => None::<LocalName>,
            } by {
                assert(table_name(table@, id, lang) == match chosen_name(*src, pre, id, lang) {
                    Some(x) => Some(local_of(x)),
                    None => None::<LocalName>,
                });
            }
        }
        i += 1;
    }
    assert(recs@.take(recs.len() as int) =~= recs@);
    table
}


/// Whether a feature code is one of those left out of the index.
pub fn is_excluded(code: &String) -> (r: bool)
    ensures
        r == excluded_code(code@),
{
    let c = chars_of(code.as_str());
    let r = if c.len() == 5 && c[0] == 'P' && c[1] == 'P' && c[2] == 'L' && c[3] == 'A' {
        c[4] == '3' || c[4] == '4' || c[4] == '5'
    } else if c.len() == 4 && c[0] == 'P' && c[1] == 'P' && c[2] == 'L' {
        c[3] == 'F' || c[3] == 'L' || c[3] == 'Q' || c[3] == 'W' || c[3] == 'X'
    } else {
        c.len() == 5 && c[0] == 'S' && c[1] == 'T' && c[2] == 'L' && c[3] == 'M' && c[4] == 'T'
    };
    proof {
        if r {
            if c.len() == 5 {
                assert(c@ =~= seq![c@[0], c@[1], c@[2], c@[3], c@[4]]);
            } else {
                assert(c@ =~= seq![c@[0], c@[1], c@[2], c@[3]]);
            }
        }
    }
    r
}

/// Whether a feature code is that of a capital.
pub fn is_capital(code: &String) -> (r: bool)
    ensures
        r == capital_code(code@),
{
    let c = chars_of(code.as_str());
    let r = c.len() == 4 && c[0] == 'P' && c[1] == 'P' && c[2] == 'L' && c[3] == 'C';
    proof {
        if r {
            assert(c@ =~= seq!['P', 'P', 'L', 'C']);
        }
    }
    r
}

/// Appends the entries of one row.
fn push_row_entries(entries: &mut Vec<Entry>, row: &CityRow, cid: Option<u32>)
    ensures
        entries_view(final(entries)@) == entries_view(old(entries)@) + row_entries(*row, cid),
{
    let ghost start = entries_view(entries@);
    let id = row.geonameid;
    entries.push(Entry { id, value: lowercase(row.name.as_str()), country_id: cid });
    if row.name != row.asciiname {
        entries.push(Entry { id, value: lowercase(row.asciiname.as_str()), country_id: cid });
    }
    let ghost head = entries_view(entries@);
    assert(head =~= start + seq![(id, lower_of(row.name@), cid)] + (if row.name@ != row.asciiname@ {
        seq![(id, lower_of(row.asciiname@), cid)]
    } else {
        Seq::empty()
    }));
    let alts = split_chars(&chars_of(row.alternatenames.as_str()), ',');
    let ghost tokens = split_spec(row.alternatenames@, ',');
    let mut k: usize = 0;
    while k < alts.len()
        invariant
            k <= alts.len(),
            pieces_view(alts@) == tokens,
            entries_view(entries@) == head + tokens.take(k as int).map_values(
                |t: Seq<char>| (id, lower_of(t), cid),
            ),
        decreases alts.len() - k,
    {
        let t = string_of(alts[k].as_slice());
        let ghost before = entries_view(entries@);
        entries.push(Entry { id, value: lowercase(t.as_str()), country_id: cid });
        assert(tokens[k as int] == alts@[k as int]@);
        assert(tokens.take(k as int + 1).map_values(|t: Seq<char>| (id, lower_of(t), cid))
            =~= tokens.take(k as int).map_values(|t: Seq<char>| (id, lower_of(t), cid)).push((id, lower_of(tokens[k as int]), cid)));
        assert(entries_view(entries@) =~= before.push((id, lower_of(t@), cid)));
        k += 1;
    }
    assert(tokens.take(alts.len() as int) =~= tokens);
    assert(entries_view(entries@) =~= entries_view(old(entries)@) + row_entries(*row, cid));
}


/// (language, name) for each filter language in which `v` has a name.
fn pairs_in(v: &Vec<LocalName>, langs: &Vec<String>) -> (r: Vec<(String, String)>)
    ensures
        r@ == lang_pairs(v@, langs@),
{
    let mut out: Vec<(String, String)> = Vec::new();
    let mut k: usize = 0;
    while k < langs.len()
        invariant
            k <= langs.len(),
            out@ == lang_pairs(v@, langs@.take(k as int)),
        decreases langs.len() - k,
    {
        assert(langs@.take(k as int + 1).drop_last() =~= langs@.take(k as int));
        match find_name(v, &langs[k]) {
            Some(j) => {
                out.push((langs[k].clone(), v[j].name.clone()));
            },
            None => {},
        }
        k += 1;
    }
    assert(langs@.take(langs.len() as int) =~= langs@);
    out
}

/// The names of place `id`, if the table has any.
fn names_of(t: &HashMap<u32, Vec<LocalName>>, id: u32, langs: &Vec<String>) -> (r: Option<Vec<(String, String)>>)
    ensures
        names_match(r, t@, id, langs@),
{
    match t.get(&id) {
        Some(v) => Some(pairs_in(v, langs)),
        None => None,
    }
}

/// The buckets of an optional admin table (none without a table).
fn admin_index(t: &Option<Vec<AdminDivision>>) -> (r: HashMap<u64, Vec<usize>>)
    ensures
        t matches Some(rows) ==> buckets_ok(rows@, r@),
{
    match t {
        Some(rows) => admin_buckets(rows),
        None => HashMap::new(),
    }
}

/// The admin division with key `key` in an optional table.
fn admin_lookup(t: &Option<Vec<AdminDivision>>, m: &HashMap<u64, Vec<usize>>, key: &String) -> (r: Option<AdminDivision>)
    requires
        t matches Some(rows) ==> buckets_ok(rows@, m@),
    ensures
        r == admin_in(admins_of(*t), key@),
{
    match t {
        Some(a) => match find_admin_hashed(a, m, key) {
            Some(j) => Some(a[j].copy()),
            None => None,
        },
        None => None,
    }
}

/// The city that a row gives, with the country found for it.
fn assemble_city(
    row: &CityRow,
    src: &SourceRows,
    country: Option<&CountryRecordRaw>,
    admin1: &HashMap<u64, Vec<usize>>,
    admin2: &HashMap<u64, Vec<usize>>,
) -> (r: City)
    requires
        src.admin1_codes matches Some(rows) ==> buckets_ok(rows@, admin1@),
        src.admin2_codes matches Some(rows) ==> buckets_ok(rows@, admin2@),
        country == match country_of_row(countries_of(*src), *row) {
            Some(c) => Some(&c),
            None => None,
        },
    ensures
        r == city_of(*row, *src),
{
    let key1 = join_with(&row.country_code, '.', &row.admin1_code);
    let key2 = join_with(&key1, '.', &row.admin2_code);
    City {
        id: row.geonameid,
        name: row.name.clone(),
        latitude: row.latitude,
        longitude: row.longitude,
        country: match country {
            Some(c) => Some(Country { id: c.geonameid, code: c.iso.clone(), name: c.name.clone() }),
            None => None,
        },
        admin_division: admin_lookup(&src.admin1_codes, admin1, &key1),
        admin2_division: admin_lookup(&src.admin2_codes, admin2, &key2),
        timezone: row.timezone.clone(),
        population: row.population,
    }
}

/// The index that the builder gives for the sources.
pub open spec fn built_from(r: IndexData, src: SourceRows) -> bool {
    let kept = kept_rows(src.cities@);
    &&& entries_view(r.entries@) == all_entries(kept, countries_of(src))
    &&& r.geonames@ == city_table(kept, src)
    &&& forall|cc: Seq<char>| #[trigger] pair_lookup(r.capitals@, cc) == capital_of(kept, cc)
    &&& names_resolved(r.localized@, src, name_records(src))
    &&& r.country_info_by_code@.len() == match src.countries {
        Some(c) => c@.len(),
        None => 0,
    }
    &&& forall|i: int| 0 <= i < r.country_info_by_code@.len() ==> record_matches(
        #[trigger] r.country_info_by_code@[i],
        src.countries->0@[i],
        r.localized@,
        r.capitals@,
        src.filter_languages@,
    )
}

impl IndexData {
    /// Builds the index from decoded sources: entries for every kept city row,
    /// the city table (last row of an id wins), capitals, localised names and
    /// country records.
    pub fn from_rows(src: &SourceRows) -> (r: IndexData)
        ensures
            built_from(r, *src),
    {
        let localized = resolve_names(src);
        let admin1 = admin_index(&src.admin1_codes);
        let admin2 = admin_index(&src.admin2_codes);
        let mut entries: Vec<Entry> = Vec::new();
        let mut geonames: HashMap<u32, City> = HashMap::new();
        let mut capitals: Vec<(String, u32)> = Vec::new();
        let rows = &src.cities;
        let mut i: usize = 0;
        while i < rows.len()
            invariant
                i <= rows.len(),
                rows@ == src.cities@,
                src.admin1_codes matches Some(a) ==> buckets_ok(a@, admin1@),
                src.admin2_codes matches Some(a) ==> buckets_ok(a@, admin2@),
                entries_view(entries@) == all_entries(kept_rows(rows@.take(i as int)), countries_of(*src)),
                geonames@ == city_table(kept_rows(rows@.take(i as int)), *src),
                forall|cc: Seq<char>| #[trigger] pair_lookup(capitals@, cc) == capital_of(kept_rows(rows@.take(i as int)), cc),
            decreases rows.len() - i,
        {
            let row = &rows[i];
            let ghost kept0 = kept_rows(rows@.take(i as int));
            assert(rows@.take(i as int + 1).drop_last() =~= rows@.take(i as int));
            if !is_excluded(&row.feature_code) {
                let ghost kept1 = kept0.push(*row);
                assert(kept1.drop_last() =~= kept0);
                let country: Option<&CountryRecordRaw> = match &src.countries {
                    Some(c) => match find_country(c, &row.country_code) {
                        Some(j) => Some(&c[j]),
                        None => None,
                    },
                    None => None,
                };
                let cid = match country {
                    Some(c) => Some(c.geonameid),
                    None => None,
                };
                assert(cid == country_id_of(countries_of(*src), *row));
                push_row_entries(&mut entries, row, cid);
                let ghost caps0 = capitals@;
                if is_capital(&row.feature_code) {
                    capitals.push((uppercase(row.country_code.as_str()), row.geonameid));
                }
                let ghost caps = capitals@;
                assert forall|cc: Seq<char>| #[trigger] pair_lookup(caps, cc) == capital_of(kept1, cc) by {
                    assert(pair_lookup(caps0, cc) == capital_of(kept0, cc));
                    if capital_code(row.feature_code@) {
                        assert(caps.drop_last() =~= caps0);
                    } else {
                        assert(caps == caps0);
                    }
                }
                let city = assemble_city(row, src, country, &admin1, &admin2);
                geonames.insert(row.geonameid, city);
            }
            i += 1;
        }
        assert(rows@.take(rows.len() as int) =~= rows@);
        let mut records: Vec<CountryRecord> = Vec::new();
        if let Some(infos) = &src.countries {
            let mut k: usize = 0;
            while k < infos.len()
                invariant
                    k <= infos.len(),
                    src.countries == Some(*infos),
                    records@.len() == k,
                    forall|j: int| 0 <= j < k ==> record_matches(
                        #[trigger] records@[j],
                        infos@[j],
                        localized@,
                        capitals@,
                        src.filter_languages@,
                    ),
                decreases infos.len() - k,
            {
                let info = &infos[k];
                let capital_names = match find_pair(&capitals, &uppercase(info.iso.as_str())) {
                    Some(cid) => names_of(&localized, cid, &src.filter_languages),
                    None => None,
                };
                records.push(CountryRecord {
                    info: info.copy(),
                    names: names_of(&localized, info.geonameid, &src.filter_languages),
                    capital_names,
                });
                k += 1;
            }
        }
        IndexData { entries, geonames, capitals, country_info_by_code: records, localized }
    }
}


/// The view of an optional list of (language, name).
pub open spec fn pairs_view(o: Option<Vec<(String, String)>>) -> Option<Seq<(String, String)>> {
    match o {
        Some(v) => Some(v@),
        None => None,
    }
}

proof fn lemma_lang_pairs_agree(v1: Seq<LocalName>, v2: Seq<LocalName>, langs: Seq<String>)
    requires
        forall|l: Seq<char>| #[trigger] name_in(v1, l) == name_in(v2, l),
    ensures
        lang_pairs(v1, langs) == lang_pairs(v2, langs),
    decreases langs.len(),
{
    if langs.len() > 0 {
        lemma_lang_pairs_agree(v1, v2, langs.drop_last());
        assert(name_in(v1, langs.last()@) == name_in(v2, langs.last()@));
    }
}

/// Two tables that resolve the same names list the same places, with the
/// same name in every language.
proof fn lemma_tables_agree(t1: Map<u32, Vec<LocalName>>, t2: Map<u32, Vec<LocalName>>, src: SourceRows, recs: Seq<AltNameRow>, id: u32)
    requires
        names_resolved(t1, src, recs),
        names_resolved(t2, src, recs),
    ensures
        t1.contains_key(id) == t2.contains_key(id),
        t1.contains_key(id) ==> forall|l: Seq<char>| #[trigger] name_in(t1[id]@, l) == name_in(t2[id]@, l),
{
    if t1.contains_key(id) {
        let l = t1[id]@.last().lang@;
        assert(table_name(t1, id, l) is Some);
        assert(table_name(t2, id, l) == table_name(t1, id, l));
    }
    if t2.contains_key(id) {
        let l = t2[id]@.last().lang@;
        assert(table_name(t2, id, l) is Some);
        assert(table_name(t1, id, l) == table_name(t2, id, l));
    }
    if t1.contains_key(id) {
        assert forall|l: Seq<char>| #[trigger] name_in(t1[id]@, l) == name_in(t2[id]@, l) by {
            assert(table_name(t1, id, l) == table_name(t2, id, l));
        }
    }
}

proof fn lemma_names_agree(t1: Map<u32, Vec<LocalName>>, t2: Map<u32, Vec<LocalName>>, src: SourceRows, id: u32, o1: Option<Vec<(String, String)>>, o2: Option<Vec<(String, String)>>)
    requires
        names_resolved(t1, src, name_records(src)),
        names_resolved(t2, src, name_records(src)),
        names_match(o1, t1, id, src.filter_languages@),
        names_match(o2, t2, id, src.filter_languages@),
    ensures
        pairs_view(o1) == pairs_view(o2),
{
    lemma_tables_agree(t1, t2, src, name_records(src), id);
    if t1.contains_key(id) {
        lemma_lang_pairs_agree(t1[id]@, t2[id]@, src.filter_languages@);
    }
}

/// Building twice from the same sources gives the same index: the same
/// entries, city table, capitals, localised names and country records.
pub proof fn lemma_build_deterministic(src: SourceRows, r1: IndexData, r2: IndexData)
    requires
        built_from(r1, src),
        built_from(r2, src),
    ensures
        entries_view(r1.entries@) == entries_view(r2.entries@),
        r1.geonames@ == r2.geonames@,
        forall|cc: Seq<char>| #[trigger] pair_lookup(r1.capitals@, cc) == pair_lookup(r2.capitals@, cc),
        forall|id: u32| #[trigger] r1.localized@.contains_key(id) == r2.localized@.contains_key(id),
        forall|id: u32, lang: Seq<char>| #[trigger] table_name(r1.localized@, id, lang) == table_name(r2.localized@, id, lang),
        r1.country_info_by_code@.len() == r2.country_info_by_code@.len(),
        forall|i: int| 0 <= i < r1.country_info_by_code@.len() ==> {
            &&& (#[trigger] r1.country_info_by_code@[i]).info == r2.country_info_by_code@[i].info
            &&& pairs_view(r1.country_info_by_code@[i].names) == pairs_view(r2.country_info_by_code@[i].names)
            &&& pairs_view(r1.country_info_by_code@[i].capital_names) == pairs_view(r2.country_info_by_code@[i].capital_names)
        },
{
    assert forall|cc: Seq<char>| #[trigger] pair_lookup(r1.capitals@, cc) == pair_lookup(r2.capitals@, cc) by {
        assert(pair_lookup(r1.capitals@, cc) == capital_of(kept_rows(src.cities@), cc));
    }
    assert forall|id: u32| #[trigger] r1.localized@.contains_key(id) == r2.localized@.contains_key(id) by {
        lemma_tables_agree(r1.localized@, r2.localized@, src, name_records(src), id);
    }
    assert forall|i: int| 0 <= i < r1.country_info_by_code@.len() implies {
        &&& (#[trigger] r1.country_info_by_code@[i]).info == r2.country_info_by_code@[i].info
        &&& pairs_view(r1.country_info_by_code@[i].names) == pairs_view(r2.country_info_by_code@[i].names)
        &&& pairs_view(r1.country_info_by_code@[i].capital_names) == pairs_view(r2.country_info_by_code@[i].capital_names)
    } by {
        let info = src.countries->0@[i];
        let c1 = r1.country_info_by_code@[i];
        let c2 = r2.country_info_by_code@[i];
        assert(record_matches(c1, info, r1.localized@, r1.capitals@, src.filter_languages@));
        assert(record_matches(c2, info, r2.localized@, r2.capitals@, src.filter_languages@));
        lemma_names_agree(r1.localized@, r2.localized@, src, info.geonameid, c1.names, c2.names);
        let key = upper_of(info.iso@);
        assert(pair_lookup(r1.capitals@, key) == pair_lookup(r2.capitals@, key));
        if let Some(cid) = pair_lookup(r1.capitals@, key) {
            lemma_names_agree(r1.localized@, r2.localized@, src, cid, c1.capital_names, c2.capital_names);
        }
    }
}

/// Without a names file the index lists no localised names, and every
/// country record has neither names nor capital names.
pub proof fn lemma_no_names_file(src: SourceRows, r: IndexData)
    requires
        built_from(r, src),
        src.names is None,
    ensures
        forall|id: u32| !(#[trigger] r.localized@.contains_key(id)),
        forall|i: int| 0 <= i < r.country_info_by_code@.len() ==> (#[trigger] r.country_info_by_code@[i]).names is None
            && r.country_info_by_code@[i].capital_names is None,
{
    assert forall|id: u32| !(#[trigger] r.localized@.contains_key(id)) by {
        if r.localized@.contains_key(id) {
            let l = r.localized@[id]@.last().lang@;
            assert(table_name(r.localized@, id, l) is Some);
            assert(chosen_name(src, name_records(src), id, l) is None);
        }
    }
    assert forall|i: int| 0 <= i < r.country_info_by_code@.len() implies (#[trigger] r.country_info_by_code@[i]).names is None
        && r.country_info_by_code@[i].capital_names is None by {
        assert(record_matches(r.country_info_by_code@[i], src.countries->0@[i], r.localized@, r.capitals@, src.filter_languages@));
    }
}

proof fn lemma_row_entries(row: CityRow, cid: Option<u32>)
    ensures
        forall|y: int| 0 <= y < row_entries(row, cid).len() ==> (#[trigger] row_entries(row, cid)[y]).0 == row.geonameid
            && row_entries(row, cid)[y].2 == cid,
{
    let id = row.geonameid;
    let first = seq![(id, lower_of(row.name@), cid)];
    let ascii = if row.name@ != row.asciiname@ {
        seq![(id, lower_of(row.asciiname@), cid)]
    } else {
        Seq::empty()
    };
    let alts = split_spec(row.alternatenames@, ',').map_values(|t: Seq<char>| (id, lower_of(t), cid));
    assert(row_entries(row, cid) == first + ascii + alts);
    assert forall|y: int| 0 <= y < row_entries(row, cid).len() implies (#[trigger] row_entries(row, cid)[y]).0 == row.geonameid
        && row_entries(row, cid)[y].2 == cid by {
        let fa = first + ascii;
        if y >= fa.len() {
            assert(row_entries(row, cid)[y] == alts[y - fa.len()]);
        } else if y >= 1 {
            assert(row_entries(row, cid)[y] == ascii[y - 1]);
        } else {
            assert(row_entries(row, cid)[y] == first[0]);
        }
    }
}

proof fn lemma_entries_rows(k: Seq<CityRow>, countries: Option<Seq<CountryRecordRaw>>)
    ensures
        forall|x: int| 0 <= x < all_entries(k, countries).len() ==> exists|i: int| 0 <= i < k.len()
            && (#[trigger] all_entries(k, countries)[x]).0 == k[i].geonameid
            && all_entries(k, countries)[x].2 == country_id_of(countries, k[i]),
    decreases k.len(),
{
    if k.len() > 0 {
        lemma_entries_rows(k.drop_last(), countries);
        let prev = all_entries(k.drop_last(), countries);
        let row = k.last();
        let re = row_entries(row, country_id_of(countries, row));
        lemma_row_entries(row, country_id_of(countries, row));
        assert(all_entries(k, countries) == prev + re);
        assert forall|x: int| 0 <= x < all_entries(k, countries).len() implies exists|i: int| 0 <= i < k.len()
            && (#[trigger] all_entries(k, countries)[x]).0 == k[i].geonameid
            && all_entries(k, countries)[x].2 == country_id_of(countries, k[i]) by {
            if x < prev.len() {
                assert(all_entries(k, countries)[x] == prev[x]);
                let i = choose|i: int| 0 <= i < k.drop_last().len() && (#[trigger] prev[x]).0 == k.drop_last()[i].geonameid
                    && prev[x].2 == country_id_of(countries, k.drop_last()[i]);
                assert(k[i] == k.drop_last()[i]);
            } else {
                assert(all_entries(k, countries)[x] == re[x - prev.len()]);
                assert(k[k.len() - 1] == row);
            }
        }
    }
}

proof fn lemma_table_values(k: Seq<CityRow>, src: SourceRows)
    ensures
        forall|id: u32| #[trigger] city_table(k, src).contains_key(id) ==> exists|i: int| 0 <= i < k.len()
            && city_table(k, src)[id] == city_of(k[i], src),
    decreases k.len(),
{
    if k.len() > 0 {
        lemma_table_values(k.drop_last(), src);
        assert forall|id: u32| #[trigger] city_table(k, src).contains_key(id) implies exists|i: int| 0 <= i < k.len()
            && city_table(k, src)[id] == city_of(k[i], src) by {
            if id == k.last().geonameid {
                assert(k[k.len() - 1] == k.last());
            } else {
                assert(city_table(k.drop_last(), src).contains_key(id));
                let i = choose|i: int| 0 <= i < k.drop_last().len() && city_table(k.drop_last(), src)[id] == city_of(k.drop_last()[i], src);
                assert(k[i] == k.drop_last()[i]);
            }
        }
    }
}

/// Every entry of a built index names a city of the table that comes from a
/// row whose feature code is not excluded.
pub proof fn lemma_entries_from_kept_rows(src: SourceRows, r: IndexData)
    requires
        built_from(r, src),
    ensures
        forall|x: int| 0 <= x < r.entries@.len() ==> r.geonames@.contains_key((#[trigger] r.entries@[x]).id)
            && exists|j: int| 0 <= j < src.cities@.len() && src.cities@[j].geonameid == r.entries@[x].id
                && !excluded_code(src.cities@[j].feature_code@),
{
    let k = kept_rows(src.cities@);
    let es = all_entries(k, countries_of(src));
    lemma_kept_rows(src.cities@);
    lemma_entries_rows(k, countries_of(src));
    lemma_rows_in_table(k, src);
    assert forall|x: int| 0 <= x < r.entries@.len() implies r.geonames@.contains_key((#[trigger] r.entries@[x]).id)
        && exists|j: int| 0 <= j < src.cities@.len() && src.cities@[j].geonameid == r.entries@[x].id
            && !excluded_code(src.cities@[j].feature_code@) by {
        assert(entries_view(r.entries@)[x] == es[x]);
        let i = choose|i: int| 0 <= i < k.len() && (#[trigger] es[x]).0 == k[i].geonameid
            && es[x].2 == country_id_of(countries_of(src), k[i]);
        assert(city_table(k, src).contains_key(k[i].geonameid));
        let j = choose|j: int| 0 <= j < src.cities@.len() && src.cities@[j] == #[trigger] k[i] && !excluded_code(src.cities@[j].feature_code@);
    }
}

/// Without a countries file no city has a country, no entry a country id,
/// and there are no country records; without an admin codes file no city
/// has a division of that level.
pub proof fn lemma_missing_side_tables(src: SourceRows, r: IndexData)
    requires
        built_from(r, src),
    ensures
        src.countries is None ==> r.country_info_by_code@.len() == 0
            && (forall|id: u32| #[trigger] r.geonames@.contains_key(id) ==> r.geonames@[id].country is None)
            && (forall|x: int| 0 <= x < r.entries@.len() ==> (#[trigger] r.entries@[x]).country_id is None),
        src.admin1_codes is None ==> forall|id: u32| #[trigger] r.geonames@.contains_key(id) ==> r.geonames@[id].admin_division is None,
        src.admin2_codes is None ==> forall|id: u32| #[trigger] r.geonames@.contains_key(id) ==> r.geonames@[id].admin2_division is None,
{
    let k = kept_rows(src.cities@);
    let es = all_entries(k, countries_of(src));
    lemma_table_values(k, src);
    lemma_entries_rows(k, countries_of(src));
    if src.countries is None {
        assert forall|x: int| 0 <= x < r.entries@.len() implies (#[trigger] r.entries@[x]).country_id is None by {
            assert(entries_view(r.entries@)[x] == es[x]);
        }
    }
}

proof fn lemma_last_country_found(s: Seq<CountryRecordRaw>, code: Seq<char>)
    ensures
        last_country(s, code) matches Some(x) ==> exists|j: int| 0 <= j < s.len() && s[j] == x,
    decreases s.len(),
{
    if s.len() > 0 {
        lemma_last_country_found(s.drop_last(), code);
        if s.last().iso@ == code {
            assert(s[s.len() - 1] == s.last());
        } else if let Some(x) = last_country(s, code) {
            let j = choose|j: int| 0 <= j < s.drop_last().len() && s.drop_last()[j] == x;
            assert(s[j] == s.drop_last()[j]);
        }
    }
}

/// Rows with distinct ids.
pub open spec fn ids_distinct(k: Seq<CityRow>) -> bool {
    forall|a: int, b: int| 0 <= a < b < k.len() ==> k[a].geonameid != k[b].geonameid
}

proof fn lemma_table_at(k: Seq<CityRow>, src: SourceRows, i: int)
    requires
        ids_distinct(k),
        0 <= i < k.len(),
    ensures
        city_table(k, src)[k[i].geonameid] == city_of(k[i], src),
    decreases k.len(),
{
    if i < k.len() - 1 {
        assert(k[i] == k.drop_last()[i]);
        assert(k[i].geonameid != k[k.len() - 1].geonameid);
        lemma_table_at(k.drop_last(), src, i);
    }
}

/// A built index is consistent about countries when the rows it keeps have
/// distinct ids and country rows that share a GeoNames id share an ISO code.
pub proof fn lemma_built_countries_consistent(src: SourceRows, r: IndexData)
    requires
        built_from(r, src),
        ids_distinct(kept_rows(src.cities@)),
        src.countries matches Some(c) ==> forall|a: int, b: int| 0 <= a < c@.len() && 0 <= b < c@.len()
            && c@[a].geonameid == c@[b].geonameid ==> c@[a].iso == c@[b].iso,
    ensures
        crate::engine::countries_consistent(r),
{
    let k = kept_rows(src.cities@);
    let es = all_entries(k, countries_of(src));
    lemma_entries_rows(k, countries_of(src));
    lemma_rows_in_table(k, src);
    lemma_table_values(k, src);
    assert forall|x: int| 0 <= x < r.entries@.len() && (#[trigger] r.entries@[x]).country_id is Some implies {
        &&& r.geonames@.contains_key(r.entries@[x].id)
        &&& r.geonames@[r.entries@[x].id].country matches Some(c) && c.id == r.entries@[x].country_id->0
    } by {
        assert(entries_view(r.entries@)[x] == es[x]);
        let i = choose|i: int| 0 <= i < k.len() && (#[trigger] es[x]).0 == k[i].geonameid
            && es[x].2 == country_id_of(countries_of(src), k[i]);
        assert(city_table(k, src).contains_key(k[i].geonameid));
        lemma_table_at(k, src, i);
    }
    assert forall|id: u32, i: int| #![trigger r.geonames@[id], r.country_info_by_code@[i]]
        r.geonames@.contains_key(id) && 0 <= i < r.country_info_by_code@.len()
            && r.geonames@[id].country is Some && r.geonames@[id].country->0.id == r.country_info_by_code@[i].info.geonameid
            implies r.geonames@[id].country->0.code == r.country_info_by_code@[i].info.iso by {
        let m = choose|m: int| 0 <= m < k.len() && city_table(k, src)[id] == city_of(k[m], src);
        let infos = src.countries->0@;
        let ci = last_country(infos, k[m].country_code@)->0;
        lemma_last_country_found(infos, k[m].country_code@);
        let j = choose|j: int| 0 <= j < infos.len() && infos[j] == ci;
        assert(record_matches(r.country_info_by_code@[i], infos[i], r.localized@, r.capitals@, src.filter_languages@));
        assert(infos[j].geonameid == infos[i].geonameid);
    }
}

proof fn lemma_kept_rows(rows: Seq<CityRow>)
    ensures
        forall|x: int| 0 <= x < kept_rows(rows).len() ==> exists|j: int| 0 <= j < rows.len()
            && rows[j] == #[trigger] kept_rows(rows)[x] && !excluded_code(rows[j].feature_code@),
    decreases rows.len(),
{
    if rows.len() > 0 {
        lemma_kept_rows(rows.drop_last());
        let k0 = kept_rows(rows.drop_last());
        assert forall|x: int| 0 <= x < kept_rows(rows).len() implies exists|j: int| 0 <= j < rows.len()
            && rows[j] == #[trigger] kept_rows(rows)[x] && !excluded_code(rows[j].feature_code@) by {
            if x < k0.len() {
                assert(kept_rows(rows)[x] == k0[x]);
                let j = choose|j: int| 0 <= j < rows.drop_last().len() && rows.drop_last()[j] == #[trigger] k0[x]
                    && !excluded_code(rows.drop_last()[j].feature_code@);
                assert(rows[j] == rows.drop_last()[j]);
            } else {
                assert(rows[rows.len() - 1] == kept_rows(rows)[x]);
            }
        }
    }
}

proof fn lemma_table_rows(k: Seq<CityRow>, src: SourceRows)
    ensures
        forall|id: u32| #[trigger] city_table(k, src).contains_key(id) ==> exists|i: int| 0 <= i < k.len() && k[i].geonameid == id,
    decreases k.len(),
{
    if k.len() > 0 {
        lemma_table_rows(k.drop_last(), src);
        assert forall|id: u32| #[trigger] city_table(k, src).contains_key(id) implies exists|i: int| 0 <= i < k.len() && k[i].geonameid == id by {
            if id != k.last().geonameid {
                assert(city_table(k.drop_last(), src).contains_key(id));
                let i = choose|i: int| 0 <= i < k.drop_last().len() && k.drop_last()[i].geonameid == id;
                assert(k[i] == k.drop_last()[i]);
            } else {
                assert(k[k.len() - 1].geonameid == id);
            }
        }
    }
}

/// Every city of a built index comes from a row whose feature code is not
/// excluded.
pub proof fn lemma_no_excluded_cities(src: SourceRows, r: IndexData)
    requires
        built_from(r, src),
    ensures
        forall|id: u32| #[trigger] r.geonames@.contains_key(id) ==> exists|j: int| 0 <= j < src.cities@.len()
            && src.cities@[j].geonameid == id && !excluded_code(src.cities@[j].feature_code@),
{
    let k = kept_rows(src.cities@);
    lemma_kept_rows(src.cities@);
    lemma_table_rows(k, src);
    assert forall|id: u32| #[trigger] r.geonames@.contains_key(id) implies exists|j: int| 0 <= j < src.cities@.len()
        && src.cities@[j].geonameid == id && !excluded_code(src.cities@[j].feature_code@) by {
        let i = choose|i: int| 0 <= i < k.len() && k[i].geonameid == id;
        let j = choose|j: int| 0 <= j < src.cities@.len() && src.cities@[j] == #[trigger] k[i] && !excluded_code(src.cities@[j].feature_code@);
    }
}

proof fn lemma_capital_row(k: Seq<CityRow>, cc: Seq<char>)
    ensures
        capital_of(k, cc) matches Some(id) ==> exists|i: int| 0 <= i < k.len() && k[i].geonameid == id
            && capital_code(k[i].feature_code@) && upper_of(k[i].country_code@) == cc,
    decreases k.len(),
{
    if k.len() > 0 {
        lemma_capital_row(k.drop_last(), cc);
        if let Some(id) = capital_of(k, cc) {
            if capital_code(k.last().feature_code@) && upper_of(k.last().country_code@) == cc {
                assert(k[k.len() - 1] == k.last());
            } else {
                let i = choose|i: int| 0 <= i < k.drop_last().len() && k.drop_last()[i].geonameid == id
                    && capital_code(k.drop_last()[i].feature_code@) && upper_of(k.drop_last()[i].country_code@) == cc;
                assert(k[i] == k.drop_last()[i]);
            }
        }
    }
}

proof fn lemma_rows_in_table(k: Seq<CityRow>, src: SourceRows)
    ensures
        forall|i: int| 0 <= i < k.len() ==> city_table(k, src).contains_key(#[trigger] k[i].geonameid),
    decreases k.len(),
{
    if k.len() > 0 {
        lemma_rows_in_table(k.drop_last(), src);
        assert forall|i: int| 0 <= i < k.len() implies city_table(k, src).contains_key(#[trigger] k[i].geonameid) by {
            if i < k.len() - 1 {
                assert(k[i] == k.drop_last()[i]);
            }
        }
    }
}

/// A capital recorded for a country code is the id of a kept row whose
/// feature code is that of a capital and whose country code, in upper case,
/// is that code; the city table holds a city under that id.
pub proof fn lemma_capitals_are_capitals(src: SourceRows, r: IndexData, cc: Seq<char>)
    requires
        built_from(r, src),
    ensures
        pair_lookup(r.capitals@, cc) matches Some(id) ==> r.geonames@.contains_key(id) && exists|j: int| 0 <= j < src.cities@.len()
            && src.cities@[j].geonameid == id && capital_code(src.cities@[j].feature_code@)
            && upper_of(src.cities@[j].country_code@) == cc && !excluded_code(src.cities@[j].feature_code@),
{
    let k = kept_rows(src.cities@);
    lemma_kept_rows(src.cities@);
    lemma_capital_row(k, cc);
    lemma_rows_in_table(k, src);
    if let Some(id) = pair_lookup(r.capitals@, cc) {
        assert(capital_of(k, cc) == Some(id));
        let i = choose|i: int| 0 <= i < k.len() && k[i].geonameid == id
            && capital_code(k[i].feature_code@) && upper_of(k[i].country_code@) == cc;
        assert(city_table(k, src).contains_key(k[i].geonameid));
        let j = choose|j: int| 0 <= j < src.cities@.len() && src.cities@[j] == #[trigger] k[i] && !excluded_code(src.cities@[j].feature_code@);
    }
}

proof fn lemma_table_ids(k: Seq<CityRow>, src: SourceRows)
    ensures
        forall|id: u32| #[trigger] city_table(k, src).contains_key(id) ==> city_table(k, src)[id].id == id,
    decreases k.len(),
{
    if k.len() > 0 {
        lemma_table_ids(k.drop_last(), src);
    }
}

/// In a built index each city is filed under its own id.
pub proof fn lemma_cities_under_own_id(src: SourceRows, r: IndexData)
    requires
        built_from(r, src),
    ensures
        forall|id: u32| #[trigger] r.geonames@.contains_key(id) ==> r.geonames@[id].id == id,
{
    lemma_table_ids(kept_rows(src.cities@), src);
}

/// The contents of the sources: the cities table is required, the others
/// optional; names are kept in the filter languages only.
pub struct SourceFileContentOptions {
    pub cities: String,
    pub names: Option<String>,
    pub countries: Option<String>,
    pub admin1_codes: Option<String>,
    pub admin2_codes: Option<String>,
    pub filter_languages: Vec<String>,
}

/// The rows decoded from optional content.
pub open spec fn optional_decoded<T>(rows: Option<Vec<T>>, text: Option<String>, decoded: spec_fn(Seq<T>, Seq<char>) -> bool) -> bool {
    match (rows, text) {
        (Some(r), Some(t)) => decoded(r@, t@),
        (None, None) => true,
        _ => false,
    }
}

/// `src` holds the rows that decode from the contents; country info is read
/// without its comment lines.
pub open spec fn sources_decoded(src: SourceRows, opts: SourceFileContentOptions) -> bool {
    &&& cities_decoded(src.cities@, opts.cities@)
    &&& optional_decoded(src.names, opts.names, |r: Seq<AltNameRow>, t: Seq<char>| alt_names_decoded(r, t))
    &&& optional_decoded(src.countries, opts.countries, |r: Seq<CountryRecordRaw>, t: Seq<char>|
        countries_decoded(r, join_lines(uncommented(lines_spec(t)))))
    &&& optional_decoded(src.admin1_codes, opts.admin1_codes, |r: Seq<AdminDivision>, t: Seq<char>| admins_decoded(r, t))
    &&& optional_decoded(src.admin2_codes, opts.admin2_codes, |r: Seq<AdminDivision>, t: Seq<char>| admins_decoded(r, t))
    &&& src.filter_languages == opts.filter_languages
}

fn decode_admin_table(t: &Option<String>) -> (r: Option<Vec<AdminDivision>>)
    ensures
        optional_decoded(r, *t, |r: Seq<AdminDivision>, t: Seq<char>| admins_decoded(r, t)),
{
    match t {
        Some(c) => Some(decode_admins(c.as_str())),
        None => None,
    }
}

impl IndexData {
    /// Decodes the contents and builds the index from them.
    pub fn new_from_files_content(opts: SourceFileContentOptions) -> (r: IndexData)
        ensures
            exists|src: SourceRows| sources_decoded(src, opts) && #[trigger] built_from(r, src),
    {
        let cities = decode_cities(opts.cities.as_str());
        let names = match &opts.names {
            Some(c) => Some(decode_alt_names(c.as_str())),
            None => None,
        };
        let countries = match &opts.countries {
            Some(c) => {
                let content = skip_comment_lines(c.as_str());
                Some(decode_countries(content.as_str()))
            },
            None => None,
        };
        let admin1_codes = decode_admin_table(&opts.admin1_codes);
        let admin2_codes = decode_admin_table(&opts.admin2_codes);
        let ghost langs = opts.filter_languages;
        let src = SourceRows {
            cities,
            names,
            countries,
            admin1_codes,
            admin2_codes,
            filter_languages: opts.filter_languages,
        };
        let r = IndexData::from_rows(&src);
        assert(sources_decoded(src, opts));
        r
    }
}

} // verus!
