use geosuggest::builder::SourceFileContentOptions;
use geosuggest::engine::{Engine, DEFAULT_MIN_SCORE};
use geosuggest::index::IndexData;
use geosuggest::api::{CityResultItem, GetCapitalQuery, GetCityQuery, ReverseQuery, SuggestQuery};
use geosuggest::storage::Storage;

const CITIES: &str = "472045\tVoronezh\tVoronezh\tVoronez,Voronezh,Воронеж\t51.67204\t39.1843\tP\tPPLA\tRU\t\t86\t\t\t\t848752\t\t167\tEurope/Moscow\t2019-10-03\n524901\tMoscow\tMoscow\tMoskva,Москва\t55.75222\t37.61556\tP\tPPLC\tRU\t\t48\t\t\t\t10381222\t\t144\tEurope/Moscow\t2022-12-10\n2655858\tBeverley\tBeverley\t\t53.84587\t-0.42332\tP\tPPLA2\tGB\t\tENG\tJ2\t\t\t29110\t\t14\tEurope/London\t2017-06-12\n792680\tBelgrade\tBelgrade\tBeograd,Белград\t44.80401\t20.46513\tP\tPPLC\tRS\t\t00\t\t\t\t1273651\t\t117\tEurope/Belgrade\t2019-09-05\n100\tFarmville\tFarmville\t\t50.0\t30.0\tP\tPPLF\tRU\t\t86\t\t\t\t10\t\t0\tEurope/Moscow\t2020-01-01\n";

const COUNTRIES: &str = "#ISO\tISO3\tISO-Numeric\tfips\tCountry\tCapital\tArea(in sq km)\tPopulation\tContinent\ttld\tCurrencyCode\tCurrencyName\tPhone\tPostal Code Format\tPostal Code Regex\tLanguages\tgeonameid\tneighbours\tEquivalentFipsCode\nRU\tRUS\t643\tRS\tRussia\tMoscow\t17100000\t144478050\tEU\t.ru\tRUB\tRuble\t7\t######\t\tru,tt\t2017370\tGE,CN\t\nGB\tGBR\t826\tUK\tUnited Kingdom\tLondon\t244820\t66488991\tEU\t.uk\tGBP\tPound\t44\t\t\ten-GB\t2635167\tIE\t\nRS\tSRB\t688\tRI\tSerbia\tBelgrade\t88361\t6982084\tEU\t.rs\tRSD\tDinar\t381\t#####\t\tsr,hu\t6290252\tAL,HU\t\n";

const ADMIN1: &str = "RU.86\tVoronezj\tVoronezj\t472039\nRU.48\tMoscow\tMoscow\t524894\nGB.ENG\tEngland\tEngland\t6269131\nRS.00\tCentral Serbia\tCentral Serbia\t785958\n";

const ADMIN2: &str = "GB.ENG.J2\tEast Riding of Yorkshire\tEast Riding of Yorkshire\t2650345\n";

const NAMES: &str = "1\t472045\tru\tВоронеж\t1\t\t\t\t\t\n2\t2017370\tru\tРоссия\t\t\t\t\t\t\n3\t472039\tru\tВоронежская область\t\t\t\t\t\t\n4\t6290252\tru\tСербия\t\t\t\t\t\t\n5\t792680\tru\tБелград\t1\t\t\t\t\t\n6\t2650345\tru\tИст-Райдинг-оф-Йоркшир\t\t\t\t\t\t\n7\t472045\tru\tВоронежъ\t\t\t\t1\t\t\n8\t472045\tru\tVRN\t\t1\t\t\t\t\n9\t472045\tru\tВоронеж-2\t\t\t\t\t\t\n10\t524901\tru\tМосква\t\t\t\t\t\t\n11\t524901\tru\tПервопрестольная\t\t\t1\t\t\t\n12\t6290252\tsr\tСрбија\t\t\t\t\t\t\n13\t472045\tde\tWoronesch\t\t\t\t\t\t\n";

const WEIGHT_CITIES: &str = "524901\tMoscow\tMoscow\tMoskva\t55.75222\t37.61556\tP\tPPLC\tRU\t\t48\t\t\t\t10381222\t\t144\tEurope/Moscow\t2022-12-10\n532535\tLyublino\tLyublino\t\t55.67738\t37.76005\tP\tPPL\tRU\t\t48\t\t\t\t172000\t\t144\tEurope/Moscow\t2022-12-10\n532615\tLyubertsy\tLyubertsy\t\t55.67719\t37.89322\tP\tPPL\tRU\t\t50\t\t\t\t171978\t\t144\tEurope/Moscow\t2022-12-10\n";

fn options(cities: &str, langs: &[&str]) -> SourceFileContentOptions {
    SourceFileContentOptions {
        cities: cities.to_string(),
        names: Some(NAMES.to_string()),
        countries: Some(COUNTRIES.to_string()),
        admin1_codes: Some(ADMIN1.to_string()),
        admin2_codes: Some(ADMIN2.to_string()),
        filter_languages: langs.iter().map(|l| l.to_string()).collect(),
    }
}

fn get_engine(cities: Option<&str>, langs: &[&str]) -> Engine {
    Engine::new(IndexData::new_from_files_content(options(cities.unwrap_or(CITIES), langs)))
}

fn codes(list: &[&str]) -> Vec<String> {
    list.iter().map(|c| c.to_string()).collect()
}

#[test]
fn suggest() {
    let engine = get_engine(None, &[]);

    let items = engine.suggest("voronezh", 1, None, None);
    assert_eq!(items.len(), 1);
    assert_eq!(items[0].name, "Voronezh");
    assert_eq!(items[0].country.as_ref().unwrap().name, "Russia");
    assert_eq!(items[0].admin_division.as_ref().unwrap().name, "Voronezj");

    let items = engine.suggest("Beverley", 1, None, None);
    assert_eq!(items[0].name, "Beverley");
    assert_eq!(items[0].admin2_division.as_ref().unwrap().name, "East Riding of Yorkshire");

    let items = engine.suggest("Beverley", 1, None, Some(&codes(&["ru"])));
    assert_eq!(items.len(), 0);

    let items = engine.suggest("Beverley", 1, None, Some(&codes(&["gb"])));
    assert_eq!(items.len(), 1);
}

#[test]
fn reverse() {
    let engine = get_engine(None, &[]);
    let result = engine.reverse(51_637_200, 39_193_700, 1, None, None);
    assert!(result.is_some());
    let items = result.unwrap();
    assert_eq!(items.len(), 1);
    assert_eq!(items[0].city.name, "Voronezh");
    assert_eq!(items[0].city.country.as_ref().unwrap().name, "Russia");
    assert_eq!(items[0].city.admin_division.as_ref().unwrap().name, "Voronezj");

    let result = engine.reverse(53_845_870, -423_320, 1, None, None);
    assert!(result.is_some());
    let items = result.unwrap();
    assert_eq!(items.len(), 1);
    assert_eq!(items[0].city.name, "Beverley");
    assert_eq!(items[0].city.admin2_division.as_ref().unwrap().name, "East Riding of Yorkshire");

    let result = engine.reverse(53_845_870, -423_320, 1, None, Some(&codes(&["ar"])));
    assert_eq!(result.unwrap().len(), 0);

    let result = engine.reverse(53_845_870, -423_320, 1, None, Some(&codes(&["gb"])));
    assert_eq!(result.unwrap().len(), 1);
}

#[test]
fn capital() {
    let engine = get_engine(None, &[]);
    let result = engine.capital("RU");
    assert!(result.is_some());
    let city = result.unwrap();
    assert_eq!(city.name, "Moscow");
    assert_eq!(city.country.as_ref().unwrap().name, "Russia");
}

#[test]
fn build_dump_load() {
    let storage = Storage::new();
    let engine = get_engine(None, &[]);
    // The stored payload here is the cities source itself; the index is
    // rebuilt from what is read back.
    let metadata: Vec<u8> = b"metadata archive".to_vec();
    let payload: Vec<u8> = CITIES.as_bytes().to_vec();

    let stored = storage.dump(&metadata, &payload);
    assert_eq!(&stored[..4], &[0, 0, 0, 16]);

    let head = stored[..4 + metadata.len()].to_vec();
    let read = storage.read_metadata(&head).unwrap();
    assert!(read.is_some());
    assert_eq!(read.unwrap(), metadata);

    let (m, p) = storage.load(&stored).unwrap();
    assert_eq!(m, metadata);
    let from_dump = get_engine(Some(&String::from_utf8(p).unwrap()), &[]);

    let ids = |e: &Engine| -> Vec<u32> { e.suggest("voronezh", 100, None, None).iter().map(|c| c.id).collect() };
    assert_eq!(ids(&engine), ids(&from_dump));
    assert_eq!(
        engine.suggest("voronezh", 100, None, None).len(),
        from_dump.suggest("voronezh", 100, None, None).len(),
    );
    assert_eq!(
        engine.reverse(51_637_200, 39_193_700, 1, None, None).unwrap()[0].city.id,
        from_dump.reverse(51_637_200, 39_193_700, 1, None, None).unwrap()[0].city.id,
    );
    let near = |e: &Engine| -> Vec<(u32, i128, i128)> {
        e.reverse(51_637_200, 39_193_700, 10, Some(5_000), None).unwrap().iter().map(|i| (i.city.id, i.distance, i.score)).collect()
    };
    assert_eq!(near(&engine), near(&from_dump));
}

#[test]
fn suggest_negative_min_accepts_all() {
    let engine = get_engine(None, &[]);
    let items = engine.suggest("x", 10, Some((-1.0f64).to_bits()), None);
    assert_eq!(items.len(), 4);
}

#[test]
fn reverse_weighted_scores() {
    let engine = get_engine(Some(WEIGHT_CITIES), &[]);
    let items = engine.reverse(55_677_380, 37_760_060, 5, Some(5_000), None).unwrap();
    for w in items.windows(2) {
        assert!(w[0].score <= w[1].score);
    }
    for i in &items {
        assert_eq!(i.score, i.distance - 5_000 * i.city.population as i128);
    }
}

#[test]
fn population_weight() {
    let engine = get_engine(Some(WEIGHT_CITIES), &[]);
    let population_weight: u64 = 5_000;

    let items = engine.reverse(55_677_380, 37_760_060, 5, None, None).unwrap();
    assert_eq!(items.len(), 3);
    assert_eq!(items[0].city.name, "Lyublino");

    let items = engine.reverse(55_677_380, 37_760_060, 5, Some(population_weight), None).unwrap();
    assert_eq!(items.len(), 3);
    assert_eq!(items[0].city.name, "Moscow");

    let items = engine.reverse(55_677_190, 37_893_220, 5, Some(population_weight), None).unwrap();
    assert_eq!(items.len(), 3);
    assert_eq!(items[0].city.name, "Lyubertsy");
}

#[test]
fn country_info() {
    let engine = get_engine(None, &["ru", "sr"]);

    let country1 = engine.country_info("rs").unwrap();
    let country2 = engine.country_info("RS").unwrap();

    assert_eq!(country1.info.geonameid, country2.info.geonameid);
    assert_eq!(country1.info.name, "Serbia");
    let names = country1.names.as_ref().unwrap();
    assert!(names.contains(&("ru".to_string(), "Сербия".to_string())));
    assert!(names.contains(&("sr".to_string(), "Србија".to_string())));
    let capital_names = country1.capital_names.as_ref().unwrap();
    assert!(capital_names.contains(&("ru".to_string(), "Белград".to_string())));
}

#[test]
fn preferred_names_stay() {
    let engine = get_engine(None, &["ru"]);
    let city = engine.get(472045).unwrap();
    let lang = "ru".to_string();
    let item = CityResultItem::from_city(&engine, city, Some(&lang));
    // The preferred name stays over a later plain one; historic and short
    // names are not taken.
    assert_eq!(item.name, "Воронеж");
    let moscow = engine.get(524901).unwrap();
    let item = CityResultItem::from_city(&engine, moscow, Some(&lang));
    assert_eq!(item.name, "Москва");
}

#[test]
fn names_outside_filter_are_dropped() {
    let engine = get_engine(None, &["ru"]);
    let city = engine.get(472045).unwrap();
    let lang = "de".to_string();
    let item = CityResultItem::from_city(&engine, city, Some(&lang));
    assert_eq!(item.name, "Voronezh");
}

#[test]
fn excluded_feature_codes_are_left_out() {
    let engine = get_engine(None, &[]);
    assert!(engine.get(100).is_none());
    assert!(engine.suggest("farmville", 10, None, None).is_empty());
    let items = engine.reverse(50_000_000, 30_000_000, 10, None, None).unwrap();
    assert!(items.iter().all(|i| i.city.id != 100));
    assert_eq!(items.len(), 4);
}

#[test]
fn capitals_are_capitals() {
    let engine = get_engine(None, &[]);
    assert_eq!(engine.capital("rs").unwrap().name, "Belgrade");
    assert!(engine.capital("GB").is_none());
    assert!(engine.capital("XX").is_none());
}

#[test]
fn capitals_without_country_table() {
    let mut opts = options(CITIES, &[]);
    opts.countries = None;
    let engine = Engine::new(IndexData::new_from_files_content(opts));
    assert_eq!(engine.capital("RU").unwrap().name, "Moscow");
    assert_eq!(engine.capital("ru").unwrap().name, "Moscow");
    let city = engine.get(524901).unwrap();
    assert!(city.country.is_none());
    assert!(engine.country_info("RU").is_none());
}

#[test]
fn suggest_zero_limit_is_empty() {
    let engine = get_engine(None, &[]);
    assert!(engine.suggest("voronezh", 0, None, None).is_empty());
}

#[test]
fn suggest_prefix_ranks_first() {
    let engine = get_engine(None, &[]);
    let items = engine.suggest("mos", 10, None, None);
    assert_eq!(items[0].name, "Moscow");
    let items = engine.suggest("б", 10, None, None);
    assert_eq!(items.len(), 1);
    assert_eq!(items[0].name, "Belgrade");
}

#[test]
fn suggest_typo_matches_fuzzily() {
    let engine = get_engine(None, &[]);
    let items = engine.suggest("voronesh", 5, None, None);
    assert_eq!(items.len(), 1);
    assert_eq!(items[0].id, 472045);
    let strict = engine.suggest("voronesh", 5, Some(1.0f64.to_bits()), None);
    assert!(strict.is_empty());
    assert_eq!(DEFAULT_MIN_SCORE, 0.8f64.to_bits());
}

#[test]
fn suggest_limit_gives_prefix() {
    let engine = get_engine(None, &[]);
    let all = engine.suggest("x", 10, Some(0), None);
    assert_eq!(all.len(), 4);
    for n in 0..6 {
        let part = engine.suggest("x", n, Some(0), None);
        let ids: Vec<u32> = part.iter().map(|c| c.id).collect();
        let full: Vec<u32> = all.iter().take(n).map(|c| c.id).collect();
        assert_eq!(ids, full);
    }
    // No entry resembles the pattern, so population decides.
    assert_eq!(all[0].name, "Moscow");
    assert_eq!(all[1].name, "Belgrade");
}

#[test]
fn suggest_is_repeatable() {
    let engine = get_engine(None, &[]);
    let a: Vec<u32> = engine.suggest("belgrad", 3, None, None).iter().map(|c| c.id).collect();
    let b: Vec<u32> = engine.suggest("belgrad", 3, None, None).iter().map(|c| c.id).collect();
    assert_eq!(a, b);
    assert_eq!(a, vec![792680]);
}

#[test]
fn reverse_orders_by_distance() {
    let engine = get_engine(None, &[]);
    let items = engine.reverse(51_637_200, 39_193_700, 10, None, None).unwrap();
    assert_eq!(items.len(), 4);
    for w in items.windows(2) {
        assert!(w[0].distance <= w[1].distance);
        assert_eq!(w[0].score, w[0].distance);
    }
    assert_eq!(items[0].city.name, "Voronezh");
    assert_eq!(items[1].city.name, "Moscow");
}

#[test]
fn reverse_distance_is_exact() {
    let engine = get_engine(None, &[]);
    let items = engine.reverse(51_672_040, 39_184_300, 1, None, None).unwrap();
    assert_eq!(items[0].distance, 0);
    let items = engine.reverse(51_672_041, 39_184_302, 1, Some(2), None).unwrap();
    assert_eq!(items[0].distance, 5);
    assert_eq!(items[0].score, 5 - 2 * 848_752);
}

#[test]
fn reverse_zero_limit_is_none() {
    let engine = get_engine(None, &[]);
    assert!(engine.reverse(51_637_200, 39_193_700, 0, None, None).is_none());
}

#[test]
fn reverse_out_of_range_is_empty() {
    let engine = get_engine(None, &[]);
    assert_eq!(engine.reverse(91_000_000, 0, 3, None, None).unwrap().len(), 0);
    assert_eq!(engine.reverse(0, -180_000_001, 3, None, None).unwrap().len(), 0);
}

#[test]
fn reverse_country_filter_any_case() {
    let engine = get_engine(None, &[]);
    let items = engine.reverse(51_637_200, 39_193_700, 10, None, Some(&codes(&["rs", "Gb"]))).unwrap();
    assert_eq!(items.len(), 2);
    assert_eq!(items[0].city.name, "Belgrade");
    assert_eq!(items[1].city.name, "Beverley");
}

#[test]
fn entries_cover_names() {
    let data = IndexData::new_from_files_content(options(CITIES, &[]));
    let values: Vec<&str> = data.entries.iter().filter(|e| e.id == 472045).map(|e| e.value.as_str()).collect();
    assert_eq!(values, vec!["voronezh", "voronez", "voronezh", "воронеж"]);
    assert!(data.entries.iter().all(|e| data.geonames.contains_key(&e.id)));
    let moscow: Vec<&str> = data.entries.iter().filter(|e| e.id == 524901).map(|e| e.value.as_str()).collect();
    assert_eq!(moscow, vec!["moscow", "moskva", "москва"]);
    assert!(data.entries.iter().filter(|e| e.id == 524901).all(|e| e.country_id == Some(2017370)));
    // An empty list of alternate names still gives one empty entry.
    let beverley: Vec<&str> = data.entries.iter().filter(|e| e.id == 2655858).map(|e| e.value.as_str()).collect();
    assert_eq!(beverley, vec!["beverley", ""]);
    assert!(data.entries.iter().all(|e| e.id != 100));
}

#[test]
fn same_sources_build_the_same_index() {
    let a = IndexData::new_from_files_content(options(CITIES, &["ru"]));
    let b = IndexData::new_from_files_content(options(CITIES, &["ru"]));
    let ea: Vec<(u32, String)> = a.entries.iter().map(|e| (e.id, e.value.clone())).collect();
    let eb: Vec<(u32, String)> = b.entries.iter().map(|e| (e.id, e.value.clone())).collect();
    assert_eq!(ea, eb);
    let mut ka: Vec<u32> = a.geonames.keys().copied().collect();
    let mut kb: Vec<u32> = b.geonames.keys().copied().collect();
    ka.sort();
    kb.sort();
    assert_eq!(ka, kb);
    assert_eq!(a.capitals, b.capitals);
}

fn suggest_query(pattern: &str, lang: Option<&str>, limit: Option<usize>) -> SuggestQuery {
    SuggestQuery {
        pattern: pattern.to_string(),
        limit,
        lang: lang.map(String::from),
        min_score: None,
        countries: None,
    }
}

fn reverse_query(lat: i32, lng: i32, lang: Option<&str>, limit: Option<usize>) -> ReverseQuery {
    ReverseQuery { lat, lng, limit, lang: lang.map(String::from), k: None, nearest_limit: None, countries: None }
}

#[test]
fn api_get() {
    let engine = get_engine(None, &["ru"]);
    let city = geosuggest::api::city_get(&engine, &GetCityQuery { id: 472045, lang: None });
    assert!(city.is_some());
    assert_eq!(city.unwrap().name, "Voronezh");
}

#[test]
fn api_capital() {
    let engine = get_engine(None, &["ru"]);
    let query = GetCapitalQuery { country_code: "RU".to_string(), lang: None };
    let city = geosuggest::api::capital(&engine, &query);
    assert!(city.is_some());
    assert_eq!(city.unwrap().name, "Moscow");
}

#[test]
fn api_get_lang() {
    let engine = get_engine(None, &["ru"]);
    let query = GetCityQuery { id: 472045, lang: Some("ru".to_string()) };
    let city = geosuggest::api::city_get(&engine, &query).unwrap();
    assert_eq!(city.name, "Воронеж");
    assert_eq!(city.country.unwrap().name, "Россия");
    assert_eq!(city.admin_division.unwrap().name, "Воронежская область");
}

#[test]
fn api_suggest() {
    let engine = get_engine(None, &["ru"]);
    let items = geosuggest::api::suggest(&engine, &suggest_query("Voronezh", None, None));
    assert!(!items.is_empty());
    assert_eq!(items[0].name, "Voronezh");
}

#[test]
fn api_suggest_lang() {
    let engine = get_engine(None, &["ru"]);
    let items = geosuggest::api::suggest(&engine, &suggest_query("Voronezh", Some("ru"), Some(1)));
    assert_eq!(items.len(), 1);
    assert_eq!(items[0].name, "Воронеж");
    assert_eq!(items[0].country.as_ref().unwrap().name, "Россия");
    assert_eq!(items[0].admin_division.as_ref().unwrap().name, "Воронежская область");
}

#[test]
fn api_reverse() {
    let engine = get_engine(None, &["ru"]);
    let items = geosuggest::api::reverse(&engine, &reverse_query(51_637_200, 39_193_700, None, Some(1)));
    assert_eq!(items.len(), 1);
    assert_eq!(items[0].city.name, "Voronezh");
}

#[test]
fn api_reverse_lang() {
    let engine = get_engine(None, &["ru"]);
    let items = geosuggest::api::reverse(&engine, &reverse_query(51_637_200, 39_193_700, Some("ru"), Some(1)));
    assert_eq!(items.len(), 1);
    assert_eq!(items[0].city.name, "Воронеж");
    assert_eq!(items[0].city.country.as_ref().unwrap().name, "Россия");
    assert_eq!(items[0].city.admin_division.as_ref().unwrap().name, "Воронежская область");
}

#[test]
fn api_suggest_admin2_lang() {
    let engine = get_engine(None, &["ru"]);
    let items = geosuggest::api::suggest(&engine, &suggest_query("Beverley", Some("ru"), Some(1)));
    assert_eq!(items.len(), 1);
    assert_eq!(items[0].name, "Beverley");
    assert_eq!(items[0].admin2_division.as_ref().unwrap().name, "Ист-Райдинг-оф-Йоркшир");
}

#[test]
fn api_reverse_admin2_lang() {
    let engine = get_engine(None, &["ru"]);
    let items = geosuggest::api::reverse(&engine, &reverse_query(53_845_870, -423_320, Some("ru"), Some(1)));
    assert_eq!(items.len(), 1);
    assert_eq!(items[0].city.name, "Beverley");
    assert_eq!(items[0].city.admin2_division.as_ref().unwrap().name, "Ист-Райдинг-оф-Йоркшир");
}

#[test]
fn api_suggest_country_filter() {
    let engine = get_engine(None, &[]);
    let mut query = suggest_query("Beverley", None, Some(1));
    query.countries = Some("ru".to_string());
    assert!(geosuggest::api::suggest(&engine, &query).is_empty());
    query.countries = Some("ru,gb".to_string());
    assert_eq!(geosuggest::api::suggest(&engine, &query).len(), 1);
}

#[test]
fn api_reverse_defaults() {
    let engine = get_engine(Some(WEIGHT_CITIES), &[]);
    // Without a weight the default one applies: Moscow outweighs Lyublino.
    let items = geosuggest::api::reverse(&engine, &reverse_query(55_677_380, 37_760_060, None, None));
    assert_eq!(items.len(), 3);
    assert_eq!(items[0].city.name, "Moscow");
    let mut query = reverse_query(55_677_380, 37_760_060, None, Some(2));
    query.nearest_limit = Some(1);
    let items = geosuggest::api::reverse(&engine, &query);
    assert_eq!(items.len(), 1);
    assert_eq!(items[0].city.name, "Lyublino");
}
