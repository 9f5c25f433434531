use manifester::RunError;
use manifester::assets::derivative_actions;
use manifester::assets::thumbnail_width;
use manifester::manifest::Month;
use manifester::manifest::generate_manifest;
use manifester::model::Cache;
use manifester::model::CacheEntry;
use manifester::model::Config;
use manifester::model::Country;
use manifester::model::CountryCodes;
use manifester::model::GeoPoint;
use manifester::model::Location;
use manifester::model::Trip;

fn entry(name: &str, code: &str, lon_micro: i64, lat_micro: i64) -> CacheEntry {
    CacheEntry {
        name: name.to_string(),
        local_name: None,
        country_code: code.to_string(),
        point: GeoPoint { lon_micro, lat_micro },
    }
}

fn japan_cache() -> Cache {
    Cache {
        entries: vec![
            entry("Kyoto", "JPN", 135_768_100, 35_011_600),
            entry("Osaka", "JPN", 135_502_300, 34_693_700),
        ],
    }
}

fn japan_config() -> Config {
    Config {
        places: vec![Country {
            id: "Japan".to_string(),
            locations: vec![
                Location { id: "Local".to_string(), local_name: Some("Nihon".to_string()) },
                Location { id: "Osaka".to_string(), local_name: Some("Osaka-shi".to_string()) },
                Location { id: "Kyoto".to_string(), local_name: None },
            ],
        }],
        trips: vec![Trip {
            name: "Kansai".to_string(),
            description: "A Kansai Loop 2019/05".to_string(),
            cities: vec!["Kyoto".to_string(), "Osaka".to_string()],
            dates: vec!["2019/05".to_string(), "2019/06".to_string()],
        }],
    }
}

fn codes_table() -> CountryCodes {
    CountryCodes::try_new(vec![("Japan".to_string(), "JPN".to_string())]).unwrap()
}

#[test]
fn manifest_country_table_is_total() {
    let m = generate_manifest(&japan_config(), &japan_cache(), &codes_table()).unwrap();
    assert_eq!(m.countries.len(), 1);
    assert_eq!(m.countries[0].id, "Japan");
    assert_eq!(m.countries[0].name, "Japan");
    assert_eq!(m.countries[0].code, "JPN");
    assert_eq!(m.countries[0].local_name.as_deref(), Some("Nihon"));
}

#[test]
fn manifest_locations_sorted_with_millidegree_coordinates() {
    let m = generate_manifest(&japan_config(), &japan_cache(), &codes_table()).unwrap();
    assert_eq!(m.locations.len(), 2);
    assert_eq!(m.locations[0].id, "Kyoto");
    assert_eq!(m.locations[1].id, "Osaka");
    assert_eq!(m.locations[0].name, "Kyoto");
    assert_eq!(m.locations[0].country_id, "Japan");
    assert_eq!(m.locations[0].lon_milli, 135_768);
    assert_eq!(m.locations[0].lat_milli, 35_012);
    assert_eq!(m.locations[1].local_name.as_deref(), Some("Osaka-shi"));
    assert!(m.locations[0].local_name.is_none());
}

#[test]
fn manifest_local_slot_is_not_a_location() {
    let m = generate_manifest(&japan_config(), &japan_cache(), &codes_table()).unwrap();
    assert!(m.locations.iter().all(|l| l.id != "Local"));
}

#[test]
fn manifest_trip_table_with_parsed_dates() {
    let m = generate_manifest(&japan_config(), &japan_cache(), &codes_table()).unwrap();
    assert_eq!(m.trips.len(), 1);
    assert_eq!(m.trips[0].id, "AKansaiLoop201905");
    assert_eq!(m.trips[0].name, "Kansai");
    assert_eq!(m.trips[0].description, "A Kansai Loop 2019/05");
    assert_eq!(m.trips[0].locations, vec!["Kyoto".to_string(), "Osaka".to_string()]);
    assert_eq!(m.trips[0].dates.len(), 2);
    assert_eq!(m.trips[0].dates[0].year, "2019");
    assert_eq!(m.trips[0].dates[0].month, Month::May);
    assert_eq!(m.trips[0].dates[1].month, Month::Jun);
}

#[test]
fn manifest_lines_keep_full_precision() {
    let m = generate_manifest(&japan_config(), &japan_cache(), &codes_table()).unwrap();
    assert_eq!(m.lines.len(), 1);
    assert_eq!(m.lines[0].id, "AKansaiLoop201905");
    assert_eq!(m.lines[0].name, "Kansai");
    assert_eq!(
        m.lines[0].points,
        vec![
            GeoPoint { lon_micro: 135_768_100, lat_micro: 35_011_600 },
            GeoPoint { lon_micro: 135_502_300, lat_micro: 34_693_700 },
        ]
    );
}

#[test]
fn trip_referencing_unknown_location_is_missing_coordinate() {
    let mut config = japan_config();
    config.trips[0].cities.push("Atlantis".to_string());
    let r = generate_manifest(&config, &japan_cache(), &codes_table());
    assert_eq!(r.unwrap_err(), RunError::MissingCoordinate);
}

#[test]
fn unresolved_location_is_missing_coordinate() {
    let mut config = japan_config();
    config.places[0].locations.push(Location { id: "Nara".to_string(), local_name: None });
    let r = generate_manifest(&config, &japan_cache(), &codes_table());
    assert_eq!(r.unwrap_err(), RunError::MissingCoordinate);
}

#[test]
fn country_missing_from_table_is_identifier_mismatch() {
    let codes = CountryCodes::try_new(vec![("Iceland".to_string(), "ISL".to_string())]).unwrap();
    let r = generate_manifest(&japan_config(), &japan_cache(), &codes);
    assert_eq!(r.unwrap_err(), RunError::IdentifierMismatch);
}

#[test]
fn malformed_trip_date_is_identifier_mismatch() {
    let mut config = japan_config();
    config.trips[0].dates.push("July 2019".to_string());
    let r = generate_manifest(&config, &japan_cache(), &codes_table());
    assert_eq!(r.unwrap_err(), RunError::IdentifierMismatch);
}

#[test]
fn cache_lookup_matches_canonicalized_entry_names() {
    let cache = japan_cache();
    let l = Location { id: "Kyoto".to_string(), local_name: None };
    let p = l.feature_coordinates(&cache.entries).unwrap();
    assert_eq!(p, GeoPoint { lon_micro: 135_768_100, lat_micro: 35_011_600 });
    let missing = Location { id: "Nara".to_string(), local_name: None };
    assert_eq!(
        missing.feature_coordinates(&cache.entries).unwrap_err(),
        RunError::MissingCoordinate
    );
}

#[test]
fn thumbnail_width_buckets_by_aspect_ratio() {
    assert_eq!(thumbnail_width(1000, 500), 500);
    assert_eq!(thumbnail_width(1499, 500), 500);
    assert_eq!(thumbnail_width(1500, 500), 900);
    assert_eq!(thumbnail_width(100, 0), 900);
}

#[test]
fn derivatives_generated_only_when_missing() {
    assert_eq!(derivative_actions(false, false), (true, true));
    assert_eq!(derivative_actions(true, false), (false, true));
    assert_eq!(derivative_actions(false, true), (true, false));
    assert_eq!(derivative_actions(true, true), (false, false));
}
