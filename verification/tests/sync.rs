use manifester::RunError;
use manifester::diff::get_new_places;
use manifester::model::Cache;
use manifester::model::CacheEntry;
use manifester::model::Config;
use manifester::model::Country;
use manifester::model::CountryCodes;
use manifester::model::GeoPoint;
use manifester::model::Location;
use manifester::resolve::LookupOutcome;
use manifester::resolve::ResolutionPlan;
use manifester::resolve::commit_run;
use manifester::resolve::first_search_result;
use manifester::resolve::plan_resolution;
use manifester::validate::validate_config;

fn japan_config(location_ids: &[&str]) -> Config {
    let locations = location_ids
        .iter()
        .map(|id| Location { id: id.to_string(), local_name: None })
        .collect();
    Config {
        places: vec![Country { id: "Japan".to_string(), locations }],
        trips: Vec::new(),
    }
}

fn codes_table() -> CountryCodes {
    CountryCodes::try_new(vec![("Japan".to_string(), "JPN".to_string())]).unwrap()
}

fn found(lon: &str, lat: &str) -> LookupOutcome {
    LookupOutcome::Found(lon.to_string(), lat.to_string())
}

fn run_scenario_a() -> (Config, CountryCodes, ResolutionPlan, Cache) {
    let config = japan_config(&["Kyoto", "Osaka"]);
    let codes = codes_table();
    let cache = Cache { entries: Vec::new() };
    validate_config(&config).unwrap();
    let plan = plan_resolution(&config, &cache, &codes).unwrap();
    let outcomes = vec![found("135.7681", "35.0116"), found("135.5023", "34.6937")];
    let commit = commit_run(&cache, &plan, &outcomes).unwrap();
    assert!(commit.changed);
    (config, codes, plan, commit.cache)
}

#[test]
fn empty_cache_plans_one_lookup_per_location() {
    let config = japan_config(&["Kyoto", "Osaka"]);
    let codes = codes_table();
    let cache = Cache { entries: Vec::new() };
    let plan = plan_resolution(&config, &cache, &codes).unwrap();
    assert_eq!(plan.pending.len(), 2);
    assert_eq!(plan.pending[0].location_id, "Kyoto");
    assert_eq!(plan.pending[0].query, "Kyoto, Japan");
    assert_eq!(plan.pending[0].country_code, "JPN");
    assert_eq!(plan.pending[1].location_id, "Osaka");
    assert_eq!(plan.pending[1].query, "Osaka, Japan");
    assert_eq!(plan.new_countries, vec!["Japan".to_string()]);
}

#[test]
fn committed_run_persists_tagged_entries() {
    let (_config, _codes, plan, cache) = run_scenario_a();
    assert_eq!(plan.pending.len(), 2);
    assert_eq!(cache.entries.len(), 2);
    assert_eq!(cache.entries[0].name, "Kyoto");
    assert_eq!(cache.entries[0].country_code, "JPN");
    assert_eq!(cache.entries[0].point, GeoPoint { lon_micro: 135_768_100, lat_micro: 35_011_600 });
    assert_eq!(cache.entries[1].name, "Osaka");
    assert_eq!(cache.entries[1].country_code, "JPN");
}

#[test]
fn rerun_with_merged_cache_needs_no_lookup() {
    let (config, codes, _plan, cache) = run_scenario_a();
    let again = plan_resolution(&config, &cache, &codes).unwrap();
    assert_eq!(again.pending.len(), 0);
    assert_eq!(again.new_countries.len(), 0);
    let commit = commit_run(&cache, &again, &Vec::new()).unwrap();
    assert!(!commit.changed);
}

#[test]
fn new_location_under_known_country_plans_one_lookup() {
    let (_config, codes, _plan, cache) = run_scenario_a();
    let grown = japan_config(&["Kyoto", "Osaka", "Tokyo"]);
    let (new_countries, new_locations) = get_new_places(&cache, &grown, &codes);
    assert_eq!(new_countries.len(), 0);
    assert_eq!(new_locations, vec!["Tokyo".to_string()]);
    let plan = plan_resolution(&grown, &cache, &codes).unwrap();
    assert_eq!(plan.pending.len(), 1);
    assert_eq!(plan.pending[0].location_id, "Tokyo");
    assert_eq!(plan.pending[0].query, "Tokyo, Japan");
}

#[test]
fn cached_keys_survive_a_commit() {
    let (config, codes, _plan, cache) = run_scenario_a();
    let grown = japan_config(&["Kyoto", "Osaka", "Tokyo"]);
    let plan = plan_resolution(&grown, &cache, &codes).unwrap();
    let outcomes = vec![found("139.7594", "35.6828")];
    let commit = commit_run(&cache, &plan, &outcomes).unwrap();
    assert_eq!(commit.cache.entries.len(), 3);
    for entry in &cache.entries {
        assert!(commit.cache.entries.iter().any(|e| e.name == entry.name));
    }
    let rerun = plan_resolution(&config, &commit.cache, &codes).unwrap();
    assert_eq!(rerun.pending.len(), 0);
}

#[test]
fn failed_lookup_aborts_whole_run() {
    let config = japan_config(&["Kyoto", "Osaka"]);
    let codes = codes_table();
    let cache = Cache { entries: Vec::new() };
    let plan = plan_resolution(&config, &cache, &codes).unwrap();
    let outcomes = vec![found("135.7681", "35.0116"), LookupOutcome::NotFound];
    assert_eq!(commit_run(&cache, &plan, &outcomes).unwrap_err(), RunError::LookupNotFound);
    let outcomes = vec![LookupOutcome::TransportFailed, found("135.5023", "34.6937")];
    assert_eq!(
        commit_run(&cache, &plan, &outcomes).unwrap_err(),
        RunError::LookupTransportError
    );
}

#[test]
fn unreadable_coordinate_is_transport_failure() {
    let config = japan_config(&["Kyoto"]);
    let codes = codes_table();
    let cache = Cache { entries: Vec::new() };
    let plan = plan_resolution(&config, &cache, &codes).unwrap();
    let outcomes = vec![found("east of the river", "35.0116")];
    assert_eq!(
        commit_run(&cache, &plan, &outcomes).unwrap_err(),
        RunError::LookupTransportError
    );
}

#[test]
fn first_search_result_takes_the_best_match() {
    let rows = vec![
        ("135.7681".to_string(), "35.0116".to_string()),
        ("0".to_string(), "0".to_string()),
    ];
    assert_eq!(
        first_search_result(rows),
        LookupOutcome::Found("135.7681".to_string(), "35.0116".to_string())
    );
}

#[test]
fn first_search_result_empty_is_not_found() {
    assert_eq!(first_search_result(Vec::new()), LookupOutcome::NotFound);
}

#[test]
fn unknown_country_name_fails_planning() {
    let codes = CountryCodes::try_new(vec![("Iceland".to_string(), "ISL".to_string())]).unwrap();
    let config = japan_config(&["Kyoto"]);
    let cache = Cache { entries: Vec::new() };
    assert_eq!(
        plan_resolution(&config, &cache, &codes).unwrap_err(),
        RunError::IdentifierMismatch
    );
}

#[test]
fn local_slot_is_never_planned() {
    let config = Config {
        places: vec![Country {
            id: "Japan".to_string(),
            locations: vec![
                Location { id: "Local".to_string(), local_name: Some("Nihon".to_string()) },
                Location { id: "Kyoto".to_string(), local_name: None },
            ],
        }],
        trips: Vec::new(),
    };
    let codes = codes_table();
    let cache = Cache { entries: Vec::new() };
    let plan = plan_resolution(&config, &cache, &codes).unwrap();
    assert_eq!(plan.pending.len(), 1);
    assert_eq!(plan.pending[0].location_id, "Kyoto");
}

#[test]
fn diff_reads_cached_codes_through_the_table() {
    let codes = CountryCodes::try_new(vec![
        ("Iceland".to_string(), "ISL".to_string()),
        ("Japan".to_string(), "JPN".to_string()),
    ])
    .unwrap();
    let cache = Cache {
        entries: vec![CacheEntry {
            name: "Reykjavik".to_string(),
            local_name: None,
            country_code: "ISL".to_string(),
            point: GeoPoint { lon_micro: -21_817_400, lat_micro: 64_128_100 },
        }],
    };
    let config = japan_config(&["Kyoto"]);
    let (new_countries, new_locations) = get_new_places(&cache, &config, &codes);
    assert_eq!(new_countries, vec!["Japan".to_string()]);
    assert_eq!(new_locations, vec!["Kyoto".to_string()]);
}

#[test]
fn validate_accepts_well_formed_config() {
    let config = japan_config(&["Kyoto", "Osaka", "HoChiMinhCity", "SingaporeCity"]);
    assert!(validate_config(&config).is_ok());
}

#[test]
fn validate_rejects_duplicate_location_ids() {
    let config = Config {
        places: vec![
            Country {
                id: "Japan".to_string(),
                locations: vec![Location { id: "Kyoto".to_string(), local_name: None }],
            },
            Country {
                id: "Iceland".to_string(),
                locations: vec![Location { id: "Kyoto".to_string(), local_name: None }],
            },
        ],
        trips: Vec::new(),
    };
    assert_eq!(validate_config(&config).unwrap_err(), RunError::ConfigParseError);
}

#[test]
fn validate_rejects_duplicate_country_ids() {
    let config = Config {
        places: vec![
            Country { id: "Japan".to_string(), locations: Vec::new() },
            Country { id: "Japan".to_string(), locations: Vec::new() },
        ],
        trips: Vec::new(),
    };
    assert_eq!(validate_config(&config).unwrap_err(), RunError::ConfigParseError);
}

#[test]
fn validate_rejects_identifier_that_does_not_round_trip() {
    let config = japan_config(&["MexicoCity"]);
    assert_eq!(validate_config(&config).unwrap_err(), RunError::ConfigParseError);
}

#[test]
fn code_table_lookups_both_ways() {
    let codes = CountryCodes::try_new(vec![
        ("Iceland".to_string(), "ISL".to_string()),
        ("Japan".to_string(), "JPN".to_string()),
    ])
    .unwrap();
    assert_eq!(codes.code_of_name("Japan").unwrap(), "JPN");
    assert_eq!(codes.name_of_code("ISL").unwrap(), "Iceland");
    assert!(codes.code_of_name("Atlantis").is_none());
    assert!(codes.name_of_code("ATL").is_none());
}

#[test]
fn code_table_rejects_unsorted_rows() {
    let out_of_order = vec![
        ("Japan".to_string(), "JPN".to_string()),
        ("Iceland".to_string(), "ISL".to_string()),
    ];
    assert_eq!(CountryCodes::try_new(out_of_order).unwrap_err(), RunError::ConfigParseError);
    let duplicate = vec![
        ("Japan".to_string(), "JPN".to_string()),
        ("Japan".to_string(), "JPN".to_string()),
    ];
    assert_eq!(CountryCodes::try_new(duplicate).unwrap_err(), RunError::ConfigParseError);
}
