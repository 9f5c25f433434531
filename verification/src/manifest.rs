//! The deterministic manifest generator.
//!
//! From the merged configuration and cache, the generator emits a typed
//! artifact: a closed identifier domain per entity kind together with
//! total lookup tables — id ↔ display name, id ↔ ISO code, id → optional
//! local name, id → rounded coordinates, and one resolved point sequence
//! per trip.  Locations are re-sorted by identifier before emission so
//! that unchanged input yields identical output.  Optional data always
//! carries an explicit absent case; no variant is silently dropped.

use vstd::prelude::*;
use vstd::string::StringExecFns;

use crate::RunError;
use crate::canon::find_char;
use crate::canon::first_index_of;
use crate::canon::lemma_first_index_props;
use crate::canon::location_display;
use crate::canon::location_display_name;
use crate::canon::retain_not;
use crate::canon::spaced;
use crate::canon::str_eq;
use crate::canon::strip2;
use crate::coords::round_micro_to_milli;
use crate::coords::round_milli_spec;
use crate::model::Cache;
use crate::model::CacheEntry;
use crate::model::Config;
use crate::model::Country;
use crate::model::CountryCodes;
use crate::model::GeoPoint;
use crate::model::Location;
use crate::model::Trip;
use crate::model::find_point;
use crate::model::has_key;
use crate::model::is_local_id;
use crate::model::lemma_find_point_has_key;
use crate::model::lemma_nonlocal_pairs_concat;
use crate::model::lemma_pairs_of_concat;
use crate::model::nonlocal_ids;
use crate::model::nonlocal_pairs;
use crate::model::pairs_of;
use crate::model::point_for_key;
use crate::model::spec_code_of_name;
use crate::model::spec_local_name;
use crate::order::lex_le;
use crate::order::lex_le_exec;
use crate::order::lemma_lex_le_total;
use crate::order::lemma_lex_le_trans;

verus! {

/// The closed month domain of trip dates.
#[derive(Clone, Copy, Debug, PartialEq, Eq, Structural)]
pub enum Month {
    Jan,
    Feb,
    Mar,
    Apr,
    May,
    Jun,
    Jul,
    Aug,
    Sep,
    Oct,
    Nov,
    Dec,
}

/// The month named by a two-digit string "01" through "12".
pub open spec fn month_of(s: Seq<char>) -> Option<Month> {
    if s == "01"@ {
        Some(Month::Jan)
    } else if s == "02"@ {
        Some(Month::Feb)
    } else if s == "03"@ {
        Some(Month::Mar)
    } else if s == "04"@ {
        Some(Month::Apr)
    } else if s == "05"@ {
        Some(Month::May)
    } else if s == "06"@ {
        Some(Month::Jun)
    } else if s == "07"@ {
        Some(Month::Jul)
    } else if s == "08"@ {
        Some(Month::Aug)
    } else if s == "09"@ {
        Some(Month::Sep)
    } else if s == "10"@ {
        Some(Month::Oct)
    } else if s == "11"@ {
        Some(Month::Nov)
    } else if s == "12"@ {
        Some(Month::Dec)
    } else {
        None
    }
}

/// The three-letter rendering of a month.
pub open spec fn month_abbrev(m: Month) -> Seq<char> {
    match m {
        Month::Jan => "Jan"@,
        Month::Feb => "Feb"@,
        Month::Mar => "Mar"@,
        Month::Apr => "Apr"@,
        Month::May => "May"@,
        Month::Jun => "Jun"@,
        Month::Jul => "Jul"@,
        Month::Aug => "Aug"@,
        Month::Sep => "Sep"@,
        Month::Oct => "Oct"@,
        Month::Nov => "Nov"@,
        Month::Dec => "Dec"@,
    }
}

impl Month {
    /// Decodes a two-digit month string; anything outside "01"–"12" is an
    /// `IdentifierMismatch`.
    pub fn from_str(s: &str) -> (r: Result<Month, RunError>)
        ensures
            match month_of(s@) {
                Some(m) => r matches Ok(x) && x == m,
                None => r matches Err(e) && e == RunError::IdentifierMismatch,
            },
    {
        if str_eq(s, "01") {
            Ok(Month::Jan)
        } else if str_eq(s, "02") {
            Ok(Month::Feb)
        } else if str_eq(s, "03") {
            Ok(Month::Mar)
        } else if str_eq(s, "04") {
            Ok(Month::Apr)
        } else if str_eq(s, "05") {
            Ok(Month::May)
        } else if str_eq(s, "06") {
            Ok(Month::Jun)
        } else if str_eq(s, "07") {
            Ok(Month::Jul)
        } else if str_eq(s, "08") {
            Ok(Month::Aug)
        } else if str_eq(s, "09") {
            Ok(Month::Sep)
        } else if str_eq(s, "10") {
            Ok(Month::Oct)
        } else if str_eq(s, "11") {
            Ok(Month::Nov)
        } else if str_eq(s, "12") {
            Ok(Month::Dec)
        } else {
            Err(RunError::IdentifierMismatch)
        }
    }

    /// The month's three-letter name, for callers that render dates.
    pub fn abbrev(&self) -> (r: String)
        ensures
            r@ == month_abbrev(*self),
    {
        match self {
            Month::Jan => String::from_str("Jan"),
            Month::Feb => String::from_str("Feb"),
            Month::Mar => String::from_str("Mar"),
            Month::Apr => String::from_str("Apr"),
            Month::May => String::from_str("May"),
            Month::Jun => String::from_str("Jun"),
            Month::Jul => String::from_str("Jul"),
            Month::Aug => String::from_str("Aug"),
            Month::Sep => String::from_str("Sep"),
            Month::Oct => String::from_str("Oct"),
            Month::Nov => String::from_str("Nov"),
            Month::Dec => String::from_str("Dec"),
        }
    }
}

/// A parsed "YYYY/MM" trip date: the text before the first slash, and the
/// month named by the remaining digits.
#[derive(Clone, Debug, PartialEq, Eq)]
pub struct TripDate {
    pub year: String,
    pub month: Month,
}

/// Parses a date string: the year is everything before the first slash,
/// the month is what remains once every slash is removed.  A date with no
/// slash, or whose month is outside "01"–"12", is malformed.
pub open spec fn parse_date_spec(s: Seq<char>) -> Option<(Seq<char>, Month)> {
    match first_index_of(s, '/') {
        None => None,
        Some(d) => {
            let year = s.take(d);
            let month_digits = strip2(s.skip(d), '/', '/');
            match month_of(month_digits) {
                Some(m) => Some((year, m)),
                None => None,
            }
        },
    }
}

/// Parses one "YYYY/MM" date string; a malformed one is an
/// `IdentifierMismatch`.
pub fn parse_date(s: &str) -> (r: Result<TripDate, RunError>)
    ensures
        match parse_date_spec(s@) {
            Some(p) => r matches Ok(d) && d.year@ == p.0 && d.month == p.1,
            None => r matches Err(e) && e == RunError::IdentifierMismatch,
        },
{
    match find_char(s, '/') {
        None => Err(RunError::IdentifierMismatch),
        Some(d) => {
            proof {
                lemma_first_index_props(s@, '/');
            }
            let n = s.unicode_len();
            let year_str = s.substring_char(0, d);
            let tail = s.substring_char(d, n);
            proof {
                assert(year_str@ =~= s@.take(d as int));
                assert(tail@ =~= s@.skip(d as int));
            }
            let month_str = retain_not(tail, '/', '/');
            match Month::from_str(month_str.as_str()) {
                Ok(m) => Ok(TripDate { year: String::from_str(year_str), month: m }),
                Err(e) => Err(e),
            }
        },
    }
}

/// The character sequences behind an optional string.
pub open spec fn opt_view(o: Option<String>) -> Option<Seq<char>> {
    match o {
        Some(n) => Some(n@),
        None => None,
    }
}

/// One row of the country domain: identifier, display name, ISO alpha-3
/// code, and the explicit optional local name.
#[derive(Clone, Debug, PartialEq, Eq)]
pub struct CountryEntry {
    pub id: String,
    pub name: String,
    pub code: String,
    pub local_name: Option<String>,
}

/// One row of the location domain: identifier, display name, the explicit
/// optional local name, the owning country's identifier, and the
/// three-decimal coordinates in millidegrees.
#[derive(Clone, Debug, PartialEq, Eq)]
pub struct LocationEntry {
    pub id: String,
    pub name: String,
    pub local_name: Option<String>,
    pub country_id: String,
    pub lon_milli: i64,
    pub lat_milli: i64,
}

/// One row of the trip domain: derived identifier, name, description,
/// ordered location references, and ordered parsed dates.
#[derive(Clone, Debug, PartialEq, Eq)]
pub struct TripEntry {
    pub id: String,
    pub name: String,
    pub description: String,
    pub locations: Vec<String>,
    pub dates: Vec<TripDate>,
}

/// One trip's resolved geometry: the ordered full-precision points of its
/// location references.
#[derive(Clone, Debug, PartialEq, Eq)]
pub struct TripLine {
    pub id: String,
    pub name: String,
    pub points: Vec<GeoPoint>,
}

/// The generated artifact: closed domains and total tables for countries,
/// locations and trips, plus one geometry per trip.
#[derive(Clone, Debug, PartialEq, Eq)]
pub struct Manifest {
    pub countries: Vec<CountryEntry>,
    pub locations: Vec<LocationEntry>,
    pub trips: Vec<TripEntry>,
    pub lines: Vec<TripLine>,
}

/// Everything a location row says, as one pure value.
pub open spec fn loc_entry_abs(e: LocationEntry) -> (
    Seq<char>,
    Seq<char>,
    Option<Seq<char>>,
    Seq<char>,
    int,
    int,
) {
    (e.id@, e.name@, opt_view(e.local_name), e.country_id@, e.lon_milli as int, e.lat_milli as int)
}

/// The pure values of a location table, row by row.
pub open spec fn abs_list(ls: Seq<LocationEntry>) -> Seq<
    (Seq<char>, Seq<char>, Option<Seq<char>>, Seq<char>, int, int),
> {
    ls.map_values(|e: LocationEntry| loc_entry_abs(e))
}

/// The identifiers of a location table, row by row.
pub open spec fn id_list(ls: Seq<LocationEntry>) -> Seq<Seq<char>> {
    ls.map_values(|e: LocationEntry| e.id@)
}

/// The row that one configured (country, location) pair must produce:
/// its names, its country, and its cached coordinate rounded to
/// millidegrees.
pub open spec fn spec_location_abs(pair: (Country, Location), entries: Seq<CacheEntry>) -> (
    Seq<char>,
    Seq<char>,
    Option<Seq<char>>,
    Seq<char>,
    int,
    int,
) {
    (
        pair.1.id@,
        location_display(pair.1.id@),
        opt_view(pair.1.local_name),
        pair.0.id@,
        match find_point(entries, pair.1.id@) {
            Some(p) => round_milli_spec(p.lon_micro as int),
            None => 0,
        },
        match find_point(entries, pair.1.id@) {
            Some(p) => round_milli_spec(p.lat_micro as int),
            None => 0,
        },
    )
}

/// The rows that the configuration's pairs must produce, in configuration
/// order (before sorting).
pub open spec fn spec_abs_list(ps: Seq<(Country, Location)>, entries: Seq<CacheEntry>) -> Seq<
    (Seq<char>, Seq<char>, Option<Seq<char>>, Seq<char>, int, int),
> {
    ps.map_values(|p: (Country, Location)| spec_location_abs(p, entries))
}

/// The location table is ordered by identifier.
pub open spec fn locations_sorted(ls: Seq<LocationEntry>) -> bool {
    forall|i: int, j: int|
        #![trigger ls[i], ls[j]]
        0 <= i < j < ls.len() ==> lex_le(ls[i].id@, ls[j].id@)
}

/// The position of an entry with the smallest identifier.
fn min_index(v: &Vec<LocationEntry>) -> (mi: usize)
    requires
        v@.len() > 0,
    ensures
        mi < v@.len(),
        forall|k: int| 0 <= k < v@.len() ==> lex_le(v@[mi as int].id@, #[trigger] v@[k].id@),
{
    let mut mi: usize = 0;
    let mut k: usize = 1;
    proof {
        lemma_lex_le_total(v@[0].id@, v@[0].id@);
    }
    while k < v.len()
        invariant
            mi < k,
            k <= v@.len(),
            forall|q: int| 0 <= q < k ==> lex_le(v@[mi as int].id@, #[trigger] v@[q].id@),
        decreases v@.len() - k,
    {
        if !lex_le_exec(v[mi].id.as_str(), v[k].id.as_str()) {
            proof {
                lemma_lex_le_total(v@[mi as int].id@, v@[k as int].id@);
                assert forall|q: int| 0 <= q < k + 1 implies lex_le(
                    v@[k as int].id@,
                    #[trigger] v@[q].id@,
                ) by {
                    if q < k {
                        lemma_lex_le_trans(v@[k as int].id@, v@[mi as int].id@, v@[q].id@);
                    } else {
                        lemma_lex_le_total(v@[k as int].id@, v@[k as int].id@);
                    }
                }
            }
            mi = k;
        }
        k = k + 1;
    }
    mi
}

/// Re-sorts the location table by identifier: same rows, ordered output.
fn sort_locations(v: Vec<LocationEntry>) -> (r: Vec<LocationEntry>)
    ensures
        abs_list(r@).to_multiset() == abs_list(v@).to_multiset(),
        id_list(r@).to_multiset() == id_list(v@).to_multiset(),
        locations_sorted(r@),
{
    broadcast use vstd::seq_lib::group_to_multiset_ensures;
    broadcast use vstd::multiset::group_multiset_axioms;

    let mut src = v;
    let mut r: Vec<LocationEntry> = Vec::new();
    proof {
        assert(abs_list(r@) =~= Seq::<
            (Seq<char>, Seq<char>, Option<Seq<char>>, Seq<char>, int, int),
        >::empty());
        assert(abs_list(r@).to_multiset().add(abs_list(src@).to_multiset()) =~= abs_list(
            src@,
        ).to_multiset());
        assert(id_list(r@) =~= Seq::<Seq<char>>::empty());
        assert(id_list(r@).to_multiset().add(id_list(src@).to_multiset()) =~= id_list(
            src@,
        ).to_multiset());
    }
    while src.len() > 0
        invariant
            locations_sorted(r@),
            abs_list(r@).to_multiset().add(abs_list(src@).to_multiset()) == abs_list(
                v@,
            ).to_multiset(),
            id_list(r@).to_multiset().add(id_list(src@).to_multiset()) == id_list(
                v@,
            ).to_multiset(),
            forall|a: int, b: int|
                #![trigger r@[a], src@[b]]
                0 <= a < r@.len() && 0 <= b < src@.len() ==> lex_le(r@[a].id@, src@[b].id@),
        decreases src@.len(),
    {
        let mi = min_index(&src);
        let ghost old_src = src@;
        let ghost old_r = r@;
        let x = src.remove(mi);
        r.push(x);
        proof {
            let a = loc_entry_abs(old_src[mi as int]);
            assert(src@ == old_src.remove(mi as int));
            assert(r@ == old_r.push(old_src[mi as int]));
            assert(abs_list(src@) =~= abs_list(old_src).remove(mi as int));
            assert(abs_list(r@) =~= abs_list(old_r).push(a));
            assert(abs_list(old_src)[mi as int] == a);
            assert(abs_list(old_src).contains(a));
            vstd::seq_lib::to_multiset_remove(abs_list(old_src), mi as int);
            assert(abs_list(old_src).remove(mi as int).to_multiset() == abs_list(
                old_src,
            ).to_multiset().remove(a));
            vstd::seq_lib::to_multiset_build(abs_list(old_r), a);
            abs_list(old_src).to_multiset_ensures();
            assert(abs_list(old_src).to_multiset().count(a) > 0);
            assert(abs_list(old_r).push(a).to_multiset() == abs_list(
                old_r,
            ).to_multiset().insert(a));
            assert(abs_list(r@).to_multiset().add(abs_list(src@).to_multiset())
                =~= abs_list(old_r).to_multiset().add(abs_list(old_src).to_multiset()));
            let aid = old_src[mi as int].id@;
            assert(id_list(src@) =~= id_list(old_src).remove(mi as int));
            assert(id_list(r@) =~= id_list(old_r).push(aid));
            assert(id_list(old_src)[mi as int] == aid);
            assert(id_list(old_src).contains(aid));
            vstd::seq_lib::to_multiset_remove(id_list(old_src), mi as int);
            vstd::seq_lib::to_multiset_build(id_list(old_r), aid);
            id_list(old_src).to_multiset_ensures();
            assert(id_list(old_src).to_multiset().count(aid) > 0);
            assert(id_list(r@).to_multiset().add(id_list(src@).to_multiset())
                =~= id_list(old_r).to_multiset().add(id_list(old_src).to_multiset()));
            assert forall|p: int, q: int|
                #![trigger r@[p], r@[q]]
                0 <= p < q < r@.len() implies lex_le(r@[p].id@, r@[q].id@) by {
                if q < r@.len() - 1 {
                    assert(lex_le(old_r[p].id@, old_r[q].id@));
                } else {
                    assert(lex_le(old_r[p].id@, old_src[mi as int].id@));
                }
            }
            assert forall|p: int, b: int|
                #![trigger r@[p], src@[b]]
                0 <= p < r@.len() && 0 <= b < src@.len() implies lex_le(
                r@[p].id@,
                src@[b].id@,
            ) by {
                let ob = if b < mi { b } else { b + 1 };
                assert(src@[b] == old_src[ob]);
                if p < r@.len() - 1 {
                    assert(lex_le(old_r[p].id@, old_src[ob].id@));
                } else {
                    assert(lex_le(old_src[mi as int].id@, old_src[ob].id@));
                }
            }
        }
    }
    proof {
        assert(abs_list(src@) =~= Seq::<
            (Seq<char>, Seq<char>, Option<Seq<char>>, Seq<char>, int, int),
        >::empty());
        assert(abs_list(r@).to_multiset() =~= abs_list(r@).to_multiset().add(abs_list(
            src@,
        ).to_multiset()));
        assert(id_list(src@) =~= Seq::<Seq<char>>::empty());
        assert(id_list(r@).to_multiset() =~= id_list(r@).to_multiset().add(id_list(
            src@,
        ).to_multiset()));
    }
    r
}

/// What one country row promises: identifier, derived display name, the
/// code found in the table, and the `Local` slot's explicit value.
pub open spec fn country_entry_matches(
    e: CountryEntry,
    c: Country,
    codes: Seq<(String, String)>,
) -> bool {
    &&& e.id@ == c.id@
    &&& e.name@ == spaced(c.id@)
    &&& (match spec_code_of_name(codes, spaced(c.id@)) {
        Some(code) => e.code@ == code,
        None => false,
    })
    &&& (match spec_local_name(c.locations@) {
        Some(n) => e.local_name matches Some(m) && m@ == n,
        None => e.local_name is None,
    })
}

/// Every configured country's display name is in the code table.
pub open spec fn countries_ok(places: Seq<Country>, codes: Seq<(String, String)>) -> bool {
    forall|i: int|
        0 <= i < places.len() ==> spec_code_of_name(
            codes,
            spaced(#[trigger] places[i].id@),
        ) is Some
}

/// Every geocodable configured location has a cached coordinate.
pub open spec fn locations_ok(places: Seq<Country>, entries: Seq<CacheEntry>) -> bool {
    forall|k: int|
        0 <= k < nonlocal_pairs(places).len() ==> has_key(
            entries,
            #[trigger] nonlocal_pairs(places)[k].1.id@,
        )
}

/// Every date string of one trip parses.
pub open spec fn trip_dates_ok(t: Trip) -> bool {
    forall|k: int| 0 <= k < t.dates@.len() ==> parse_date_spec(#[trigger] t.dates@[k]@) is Some
}

/// Every date string of every trip parses.
pub open spec fn trips_ok(trips: Seq<Trip>) -> bool {
    forall|i: int| 0 <= i < trips.len() ==> trip_dates_ok(#[trigger] trips[i])
}

/// Every location one trip references has a cached coordinate.
pub open spec fn trip_refs_ok(t: Trip, entries: Seq<CacheEntry>) -> bool {
    forall|k: int| 0 <= k < t.cities@.len() ==> has_key(entries, #[trigger] t.cities@[k]@)
}

/// Every location every trip references has a cached coordinate.
pub open spec fn lines_ok(trips: Seq<Trip>, entries: Seq<CacheEntry>) -> bool {
    forall|i: int| 0 <= i < trips.len() ==> trip_refs_ok(#[trigger] trips[i], entries)
}

/// What one trip row promises: the derived identifier, the verbatim name,
/// description and location references, and the parsed dates in order.
pub open spec fn trip_entry_matches(e: TripEntry, t: Trip) -> bool {
    &&& e.id@ == strip2(t.description@, ' ', '/')
    &&& e.name@ == t.name@
    &&& e.description@ == t.description@
    &&& e.locations@.len() == t.cities@.len()
    &&& (forall|k: int| 0 <= k < t.cities@.len() ==> #[trigger] e.locations@[k]@ == t.cities@[k]@)
    &&& e.dates@.len() == t.dates@.len()
    &&& (forall|k: int|
        0 <= k < t.dates@.len() ==> (parse_date_spec(#[trigger] t.dates@[k]@) matches Some(p)
            && e.dates@[k].year@ == p.0 && e.dates@[k].month == p.1))
}

/// What one geometry row promises: the trip's identity and, in order, the
/// full-precision cached point of each referenced location.
pub open spec fn line_matches(e: TripLine, t: Trip, entries: Seq<CacheEntry>) -> bool {
    &&& e.id@ == strip2(t.description@, ' ', '/')
    &&& e.name@ == t.name@
    &&& e.points@.len() == t.cities@.len()
    &&& (forall|k: int|
        0 <= k < t.cities@.len() ==> (find_point(
            entries,
            #[trigger] t.cities@[k]@,
        ) matches Some(p) && e.points@[k] == p))
}

/// Generation succeeds exactly under these four conditions.
pub open spec fn manifest_ok(config: Config, cache: Cache, codes: Seq<(String, String)>) -> bool {
    &&& countries_ok(config.places@, codes)
    &&& locations_ok(config.places@, cache.entries@)
    &&& trips_ok(config.trips@)
    &&& lines_ok(config.trips@, cache.entries@)
}

/// Where a geocodable location stands among the configuration's pairs:
/// right after the pairs contributed by everything configured before it.
proof fn lemma_pair_position(places: Seq<Country>, ci: int, j: int)
    requires
        0 <= ci < places.len(),
        0 <= j < places[ci].locations@.len(),
        !is_local_id(places[ci].locations@[j].id@),
    ensures
        ({
            let prefix = nonlocal_pairs(places.take(ci)) + pairs_of(
                places[ci],
                places[ci].locations@.take(j),
            );
            prefix.len() < nonlocal_pairs(places).len() && nonlocal_pairs(places)[prefix.len() as int]
                == (places[ci], places[ci].locations@[j])
        }),
{
    let c = places[ci];
    let locs = c.locations@;
    let l = locs[j];
    assert(places =~= places.take(ci) + seq![c] + places.skip(ci + 1));
    lemma_nonlocal_pairs_concat(places.take(ci) + seq![c], places.skip(ci + 1));
    lemma_nonlocal_pairs_concat(places.take(ci), seq![c]);
    assert(seq![c].drop_last() =~= Seq::<Country>::empty());
    assert(nonlocal_pairs(seq![c]) == nonlocal_pairs(Seq::<Country>::empty()) + pairs_of(
        c,
        locs,
    ));
    assert(nonlocal_pairs(Seq::<Country>::empty()) + pairs_of(c, locs) =~= pairs_of(c, locs));
    assert(locs =~= locs.take(j) + seq![l] + locs.skip(j + 1));
    lemma_pairs_of_concat(c, locs.take(j) + seq![l], locs.skip(j + 1));
    lemma_pairs_of_concat(c, locs.take(j), seq![l]);
    assert(seq![l].drop_last() =~= Seq::<Location>::empty());
    assert(pairs_of(c, seq![l]) == pairs_of(c, Seq::<Location>::empty()) + seq![(c, l)]);
    assert(pairs_of(c, Seq::<Location>::empty()) + seq![(c, l)] =~= seq![(c, l)]);
    let x = nonlocal_pairs(places.take(ci)) + pairs_of(c, locs.take(j));
    let y = pairs_of(c, locs.skip(j + 1)) + nonlocal_pairs(places.skip(ci + 1));
    assert(nonlocal_pairs(places) =~= x + seq![(c, l)] + y);
    assert((x + seq![(c, l)] + y)[x.len() as int] == (c, l));
}

/// Emits the manifest from the merged configuration and cache: the
/// country table in configuration order, the location table re-sorted by
/// identifier with three-decimal coordinates, the trip table with parsed
/// dates, and one full-precision geometry per trip.  An unknown country
/// name or a malformed date is an `IdentifierMismatch`; a location or
/// trip reference without a cached coordinate is a `MissingCoordinate`,
/// and no artifact is produced.
pub fn generate_manifest(config: &Config, cache: &Cache, cca3: &CountryCodes) -> (r: Result<
    Manifest,
    RunError,
>)
    ensures
        r is Ok <==> manifest_ok(*config, *cache, cca3.codes@),
        !countries_ok(config.places@, cca3.codes@) ==> (r matches Err(e) && e
            == RunError::IdentifierMismatch),
        countries_ok(config.places@, cca3.codes@) && !locations_ok(config.places@, cache.entries@)
            ==> (r matches Err(e) && e == RunError::MissingCoordinate),
        countries_ok(config.places@, cca3.codes@) && locations_ok(config.places@, cache.entries@)
            && !trips_ok(config.trips@) ==> (r matches Err(e) && e == RunError::IdentifierMismatch),
        countries_ok(config.places@, cca3.codes@) && locations_ok(config.places@, cache.entries@)
            && trips_ok(config.trips@) && !lines_ok(config.trips@, cache.entries@) ==> (
        r matches Err(e) && e == RunError::MissingCoordinate),
        r matches Ok(m) ==> ({
            &&& m.countries@.len() == config.places@.len()
            &&& (forall|i: int|
                0 <= i < config.places@.len() ==> country_entry_matches(
                    #[trigger] m.countries@[i],
                    config.places@[i],
                    cca3.codes@,
                ))
            &&& abs_list(m.locations@).to_multiset() == spec_abs_list(
                nonlocal_pairs(config.places@),
                cache.entries@,
            ).to_multiset()
            &&& id_list(m.locations@).to_multiset() == nonlocal_ids(config.places@).to_multiset()
            &&& locations_sorted(m.locations@)
            &&& m.trips@.len() == config.trips@.len()
            &&& (forall|i: int|
                0 <= i < config.trips@.len() ==> trip_entry_matches(
                    #[trigger] m.trips@[i],
                    config.trips@[i],
                ))
            &&& m.lines@.len() == config.trips@.len()
            &&& (forall|i: int|
                0 <= i < config.trips@.len() ==> line_matches(
                    #[trigger] m.lines@[i],
                    config.trips@[i],
                    cache.entries@,
                ))
        }),
{
    let n = config.places.len();
    let mut countries: Vec<CountryEntry> = Vec::new();
    let mut i: usize = 0;
    while i < n
        invariant
            i <= n,
            n == config.places@.len(),
            countries@.len() == i,
            forall|q: int|
                0 <= q < i ==> country_entry_matches(
                    #[trigger] countries@[q],
                    config.places@[q],
                    cca3.codes@,
                ),
        decreases n - i,
    {
        let code = match config.places[i].code(cca3) {
            Ok(code) => code,
            Err(e) => {
                proof {
                    assert(spec_code_of_name(
                        cca3.codes@,
                        spaced(config.places@[i as int].id@),
                    ) is None);
                    assert(!countries_ok(config.places@, cca3.codes@));
                }
                return Err(e);
            },
        };
        let name = config.places[i].name();
        let local_name = config.places[i].local_name();
        let entry = CountryEntry { id: config.places[i].id.clone(), name, code, local_name };
        countries.push(entry);
        i = i + 1;
    }
    proof {
        assert forall|q: int|
            0 <= q < config.places@.len() implies spec_code_of_name(
            cca3.codes@,
            spaced(#[trigger] config.places@[q].id@),
        ) is Some by {
            assert(country_entry_matches(countries@[q], config.places@[q], cca3.codes@));
        }
        assert(countries_ok(config.places@, cca3.codes@));
    }
    let mut locs_unsorted: Vec<LocationEntry> = Vec::new();
    let mut ci: usize = 0;
    while ci < n
        invariant
            ci <= n,
            n == config.places@.len(),
            countries_ok(config.places@, cca3.codes@),
            countries@.len() == n,
            forall|q: int|
                0 <= q < n ==> country_entry_matches(
                    #[trigger] countries@[q],
                    config.places@[q],
                    cca3.codes@,
                ),
            abs_list(locs_unsorted@) == spec_abs_list(
                nonlocal_pairs(config.places@.take(ci as int)),
                cache.entries@,
            ),
            forall|k: int|
                0 <= k < nonlocal_pairs(config.places@.take(ci as int)).len() ==> find_point(
                    cache.entries@,
                    #[trigger] nonlocal_pairs(config.places@.take(ci as int))[k].1.id@,
                ) is Some,
        decreases n - ci,
    {
        let locs = &config.places[ci].locations;
        let m = locs.len();
        let mut j: usize = 0;
        while j < m
            invariant
                j <= m,
                m == locs@.len(),
                ci < n,
                n == config.places@.len(),
                locs@ == config.places@[ci as int].locations@,
                countries_ok(config.places@, cca3.codes@),
                abs_list(locs_unsorted@) == spec_abs_list(
                    nonlocal_pairs(config.places@.take(ci as int)) + pairs_of(
                        config.places@[ci as int],
                        locs@.take(j as int),
                    ),
                    cache.entries@,
                ),
                forall|k: int|
                    0 <= k < (nonlocal_pairs(config.places@.take(ci as int)) + pairs_of(
                        config.places@[ci as int],
                        locs@.take(j as int),
                    )).len() ==> find_point(
                        cache.entries@,
                        #[trigger] (nonlocal_pairs(config.places@.take(ci as int)) + pairs_of(
                            config.places@[ci as int],
                            locs@.take(j as int),
                        ))[k].1.id@,
                    ) is Some,
            decreases m - j,
        {
            let is_local = str_eq(locs[j].id.as_str(), "Local");
            let ghost base = nonlocal_pairs(config.places@.take(ci as int)) + pairs_of(
                config.places@[ci as int],
                locs@.take(j as int),
            );
            if !is_local {
                let display = location_display_name(locs[j].id.as_str());
                let point = match point_for_key(&cache.entries, locs[j].id.as_str()) {
                    Some(p) => p,
                    None => {
                        proof {
                            lemma_pair_position(config.places@, ci as int, j as int);
                            let np = nonlocal_pairs(config.places@);
                            let k0 = base.len() as int;
                            assert(np[k0] == (config.places@[ci as int], locs@[j as int]));
                            lemma_find_point_has_key(cache.entries@, locs@[j as int].id@);
                            assert(!has_key(cache.entries@, np[k0].1.id@));
                            assert(!locations_ok(config.places@, cache.entries@));
                        }
                        return Err(RunError::MissingCoordinate);
                    },
                };
                let lon_milli = round_micro_to_milli(point.lon_micro);
                let lat_milli = round_micro_to_milli(point.lat_micro);
                let entry = LocationEntry {
                    id: locs[j].id.clone(),
                    name: display,
                    local_name: crate::resolve::clone_opt_string(&locs[j].local_name),
                    country_id: config.places[ci].id.clone(),
                    lon_milli,
                    lat_milli,
                };
                locs_unsorted.push(entry);
            }
            proof {
                let c = config.places@[ci as int];
                let t1 = locs@.take(j + 1 as int);
                assert(t1.drop_last() =~= locs@.take(j as int));
                assert(t1.last() == locs@[j as int]);
                if is_local_id(locs@[j as int].id@) {
                    assert(pairs_of(c, t1) =~= pairs_of(c, locs@.take(j as int)));
                    assert(nonlocal_pairs(config.places@.take(ci as int)) + pairs_of(c, t1)
                        =~= base);
                } else {
                    assert(pairs_of(c, t1) =~= pairs_of(c, locs@.take(j as int)) + seq![
                        (c, locs@[j as int])]);
                    assert(nonlocal_pairs(config.places@.take(ci as int)) + pairs_of(c, t1)
                        =~= base.push((c, locs@[j as int])));
                    assert(base.push((c, locs@[j as int])).drop_last() =~= base);
                    assert(abs_list(locs_unsorted@) =~= spec_abs_list(
                        base,
                        cache.entries@,
                    ).push(spec_location_abs((c, locs@[j as int]), cache.entries@)));
                    assert(spec_abs_list(base.push((c, locs@[j as int])), cache.entries@)
                        =~= spec_abs_list(base, cache.entries@).push(
                        spec_location_abs((c, locs@[j as int]), cache.entries@),
                    ));
                }
            }
            j = j + 1;
        }
        proof {
            assert(locs@.take(m as int) =~= locs@);
            let t1 = config.places@.take(ci + 1 as int);
            assert(t1.drop_last() =~= config.places@.take(ci as int));
            assert(t1.last() == config.places@[ci as int]);
            lemma_nonlocal_pairs_concat(config.places@.take(ci as int), seq![config.places@[
                ci as int]]);
            assert(config.places@.take(ci + 1 as int) =~= config.places@.take(ci as int) + seq![
                config.places@[ci as int]]);
            assert(seq![config.places@[ci as int]].drop_last() =~= Seq::<Country>::empty());
            assert(nonlocal_pairs(seq![config.places@[ci as int]]) =~= pairs_of(
                config.places@[ci as int],
                config.places@[ci as int].locations@,
            ));
        }
        ci = ci + 1;
    }
    proof {
        assert(config.places@.take(n as int) =~= config.places@);
        assert forall|k: int|
            0 <= k < nonlocal_pairs(config.places@).len() implies has_key(
            cache.entries@,
            #[trigger] nonlocal_pairs(config.places@)[k].1.id@,
        ) by {
            lemma_find_point_has_key(
                cache.entries@,
                nonlocal_pairs(config.places@)[k].1.id@,
            );
        }
        assert(locations_ok(config.places@, cache.entries@));
    }
    proof {
        assert(id_list(locs_unsorted@) =~= nonlocal_ids(config.places@)) by {
            assert(abs_list(locs_unsorted@) == spec_abs_list(
                nonlocal_pairs(config.places@),
                cache.entries@,
            ));
            assert(id_list(locs_unsorted@).len() == nonlocal_ids(config.places@).len());
            assert forall|k: int|
                0 <= k < id_list(locs_unsorted@).len() implies id_list(locs_unsorted@)[k]
                == nonlocal_ids(config.places@)[k] by {
                assert(abs_list(locs_unsorted@)[k] == spec_abs_list(
                    nonlocal_pairs(config.places@),
                    cache.entries@,
                )[k]);
            }
        }
    }
    let locations = sort_locations(locs_unsorted);
    let tn = config.trips.len();
    let mut trips_out: Vec<TripEntry> = Vec::new();
    let mut ti: usize = 0;
    while ti < tn
        invariant
            ti <= tn,
            tn == config.trips@.len(),
            countries_ok(config.places@, cca3.codes@),
            locations_ok(config.places@, cache.entries@),
            trips_out@.len() == ti,
            forall|q: int|
                0 <= q < ti ==> trip_entry_matches(#[trigger] trips_out@[q], config.trips@[q]),
        decreases tn - ti,
    {
        let id = config.trips[ti].id_string();
        let dn = config.trips[ti].dates.len();
        let mut dates: Vec<TripDate> = Vec::new();
        let mut dk: usize = 0;
        while dk < dn
            invariant
                dk <= dn,
                ti < tn,
                tn == config.trips@.len(),
                countries_ok(config.places@, cca3.codes@),
                locations_ok(config.places@, cache.entries@),
                dn == config.trips@[ti as int].dates@.len(),
                dates@.len() == dk,
                forall|q: int|
                    0 <= q < dk ==> (parse_date_spec(
                        #[trigger] config.trips@[ti as int].dates@[q]@,
                    ) matches Some(p) && dates@[q].year@ == p.0 && dates@[q].month == p.1),
            decreases dn - dk,
        {
            match parse_date(config.trips[ti].dates[dk].as_str()) {
                Ok(d) => {
                    dates.push(d);
                },
                Err(e) => {
                    proof {
                        assert(parse_date_spec(
                            config.trips@[ti as int].dates@[dk as int]@,
                        ) is None);
                        assert(!trip_dates_ok(config.trips@[ti as int]));
                        assert(!trips_ok(config.trips@));
                    }
                    return Err(e);
                },
            }
            dk = dk + 1;
        }
        let cn = config.trips[ti].cities.len();
        let mut lrefs: Vec<String> = Vec::new();
        let mut ck: usize = 0;
        while ck < cn
            invariant
                ck <= cn,
                ti < tn,
                tn == config.trips@.len(),
                cn == config.trips@[ti as int].cities@.len(),
                lrefs@.len() == ck,
                forall|q: int|
                    0 <= q < ck ==> #[trigger] lrefs@[q]@ == config.trips@[ti as int].cities@[q]@,
            decreases cn - ck,
        {
            lrefs.push(config.trips[ti].cities[ck].clone());
            ck = ck + 1;
        }
        let entry = TripEntry {
            id,
            name: config.trips[ti].name.clone(),
            description: config.trips[ti].description.clone(),
            locations: lrefs,
            dates,
        };
        trips_out.push(entry);
        ti = ti + 1;
    }
    proof {
        assert(trips_ok(config.trips@)) by {
            assert forall|q: int|
                0 <= q < config.trips@.len() implies trip_dates_ok(
                #[trigger] config.trips@[q],
            ) by {
                assert(trip_entry_matches(trips_out@[q], config.trips@[q]));
            }
        }
    }
    let mut lines: Vec<TripLine> = Vec::new();
    let mut li: usize = 0;
    while li < tn
        invariant
            li <= tn,
            tn == config.trips@.len(),
            countries_ok(config.places@, cca3.codes@),
            locations_ok(config.places@, cache.entries@),
            trips_ok(config.trips@),
            lines@.len() == li,
            forall|q: int|
                0 <= q < li ==> line_matches(#[trigger] lines@[q], config.trips@[q], cache.entries@),
        decreases tn - li,
    {
        let cn = config.trips[li].cities.len();
        let mut points: Vec<GeoPoint> = Vec::new();
        let mut pk: usize = 0;
        while pk < cn
            invariant
                pk <= cn,
                li < tn,
                tn == config.trips@.len(),
                countries_ok(config.places@, cca3.codes@),
                locations_ok(config.places@, cache.entries@),
                trips_ok(config.trips@),
                cn == config.trips@[li as int].cities@.len(),
                points@.len() == pk,
                forall|q: int|
                    0 <= q < pk ==> (find_point(
                        cache.entries@,
                        #[trigger] config.trips@[li as int].cities@[q]@,
                    ) matches Some(p) && points@[q] == p),
            decreases cn - pk,
        {
            match point_for_key(&cache.entries, config.trips[li].cities[pk].as_str()) {
                Some(p) => {
                    points.push(p);
                },
                None => {
                    proof {
                        lemma_find_point_has_key(
                            cache.entries@,
                            config.trips@[li as int].cities@[pk as int]@,
                        );
                        assert(!trip_refs_ok(config.trips@[li as int], cache.entries@));
                        assert(!lines_ok(config.trips@, cache.entries@));
                    }
                    return Err(RunError::MissingCoordinate);
                },
            }
            pk = pk + 1;
        }
        let entry = TripLine {
            id: config.trips[li].id_string(),
            name: config.trips[li].name.clone(),
            points,
        };
        lines.push(entry);
        li = li + 1;
    }
    proof {
        assert forall|q: int|
            0 <= q < config.trips@.len() implies trip_refs_ok(
            #[trigger] config.trips@[q],
            cache.entries@,
        ) by {
            assert(line_matches(lines@[q], config.trips@[q], cache.entries@));
            assert forall|k: int|
                0 <= k < config.trips@[q].cities@.len() implies has_key(
                cache.entries@,
                #[trigger] config.trips@[q].cities@[k]@,
            ) by {
                lemma_find_point_has_key(
                    cache.entries@,
                    config.trips@[q].cities@[k]@,
                );
            }
        }
        assert(lines_ok(config.trips@, cache.entries@));
    }
    Ok(Manifest { countries, locations, trips: trips_out, lines })
}

} // verus!
