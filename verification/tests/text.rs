use manifester::RunError;
use manifester::canon::location_display_name;
use manifester::canon::spaced_name;
use manifester::canon::to_location_identfier_string;
use manifester::manifest::Month;
use manifester::manifest::parse_date;
use manifester::model::Country;
use manifester::model::Location;
use manifester::model::Trip;
use manifester::resolve::get_query_string;
use manifester::resolve::search_url;

#[test]
fn canonicalize_plain_name_unchanged() {
    assert_eq!(to_location_identfier_string("Kyoto"), "Kyoto");
}

#[test]
fn canonicalize_strips_spaces_only() {
    assert_eq!(to_location_identfier_string("Ho Chi Minh City"), "HoChiMinhCity");
    // Only spaces are stripped; every other character is kept.
    assert_eq!(to_location_identfier_string("Bad_Belzig"), "Bad_Belzig");
}

#[test]
fn canonicalize_singapore_collision() {
    assert_eq!(to_location_identfier_string("Singapore"), "SingaporeCity");
}

#[test]
fn canonicalize_hong_kong_collision() {
    assert_eq!(to_location_identfier_string("Hong Kong"), "HongKongCity");
    assert_eq!(to_location_identfier_string("HongKong"), "HongKongCity");
}

#[test]
fn canonicalize_deterministic() {
    let a = to_location_identfier_string("Blue Mountains");
    let b = to_location_identfier_string("Blue Mountains");
    assert_eq!(a, b);
    assert_eq!(a, "BlueMountains");
}

#[test]
fn spaced_name_inserts_word_breaks() {
    assert_eq!(spaced_name("CzechRepublic"), "Czech Republic");
    assert_eq!(spaced_name("Japan"), "Japan");
    assert_eq!(spaced_name(""), "");
}

#[test]
fn location_display_drops_city_suffix() {
    assert_eq!(location_display_name("SingaporeCity"), "Singapore");
    assert_eq!(location_display_name("HongKongCity"), "Hong Kong");
}

#[test]
fn location_display_city_suffix_edge_cases() {
    // A lone "City" has no " City" tail of five characters and stays.
    assert_eq!(location_display_name("City"), "City");
    assert_eq!(location_display_name("XCity"), "X");
}

#[test]
fn location_display_keeps_ho_chi_minh_city() {
    assert_eq!(location_display_name("HoChiMinhCity"), "Ho Chi Minh City");
}

#[test]
fn country_name_derivation() {
    let c = Country { id: "FaeroeIslands".to_string(), locations: Vec::new() };
    assert_eq!(c.name(), "Faeroe Islands");
}

#[test]
fn location_name_derivation() {
    let l = Location { id: "StoraKarlso".to_string(), local_name: None };
    assert_eq!(l.name(), "Stora Karlso");
    let s = Location { id: "SingaporeCity".to_string(), local_name: None };
    assert_eq!(s.name(), "Singapore");
}

#[test]
fn trip_id_strips_spaces_and_slashes() {
    let t = Trip {
        name: "Grand Tour".to_string(),
        description: "A Grand Tour 2019/05".to_string(),
        cities: Vec::new(),
        dates: Vec::new(),
    };
    assert_eq!(t.id_string(), "AGrandTour201905");
}

#[test]
fn query_string_joins_pairs() {
    let q = get_query_string(vec![("format", "jsonv2"), ("q", "Kyoto, Japan"), ("limit", "1")]);
    assert_eq!(q, "format=jsonv2&q=Kyoto, Japan&limit=1");
}

#[test]
fn query_string_single_and_empty() {
    assert_eq!(get_query_string(vec![("a", "b")]), "a=b");
    assert_eq!(get_query_string(Vec::new()), "");
}

#[test]
fn search_url_shape() {
    assert_eq!(
        search_url("Kyoto, Japan"),
        "http://nominatim.openstreetmap.org/search?format=jsonv2&q=Kyoto, Japan&limit=1"
    );
}

#[test]
fn month_from_str_all_twelve() {
    assert_eq!(Month::from_str("01").unwrap(), Month::Jan);
    assert_eq!(Month::from_str("02").unwrap(), Month::Feb);
    assert_eq!(Month::from_str("03").unwrap(), Month::Mar);
    assert_eq!(Month::from_str("04").unwrap(), Month::Apr);
    assert_eq!(Month::from_str("05").unwrap(), Month::May);
    assert_eq!(Month::from_str("06").unwrap(), Month::Jun);
    assert_eq!(Month::from_str("07").unwrap(), Month::Jul);
    assert_eq!(Month::from_str("08").unwrap(), Month::Aug);
    assert_eq!(Month::from_str("09").unwrap(), Month::Sep);
    assert_eq!(Month::from_str("10").unwrap(), Month::Oct);
    assert_eq!(Month::from_str("11").unwrap(), Month::Nov);
    assert_eq!(Month::from_str("12").unwrap(), Month::Dec);
}

#[test]
fn month_from_str_rejects_out_of_range() {
    assert_eq!(Month::from_str("00").unwrap_err(), RunError::IdentifierMismatch);
    assert_eq!(Month::from_str("13").unwrap_err(), RunError::IdentifierMismatch);
    assert_eq!(Month::from_str("1").unwrap_err(), RunError::IdentifierMismatch);
    assert_eq!(Month::from_str("").unwrap_err(), RunError::IdentifierMismatch);
}

#[test]
fn month_abbrev_names() {
    assert_eq!(Month::May.abbrev(), "May");
    assert_eq!(Month::Dec.abbrev(), "Dec");
}

#[test]
fn parse_date_year_and_month() {
    let d = parse_date("2019/05").unwrap();
    assert_eq!(d.year, "2019");
    assert_eq!(d.month, Month::May);
}

#[test]
fn parse_date_extra_slashes_fold_into_month() {
    let d = parse_date("2019/0/5").unwrap();
    assert_eq!(d.year, "2019");
    assert_eq!(d.month, Month::May);
}

#[test]
fn parse_date_missing_slash_is_mismatch() {
    assert_eq!(parse_date("201905").unwrap_err(), RunError::IdentifierMismatch);
}

#[test]
fn parse_date_bad_month_is_mismatch() {
    assert_eq!(parse_date("2019/13").unwrap_err(), RunError::IdentifierMismatch);
}
