//! Resolution planning and the all-or-nothing commit.
//!
//! A run is split into a pure plan, an effectful middle that the caller
//! drives, and a pure commit.  `plan_resolution` lists exactly one pending
//! lookup per new location — the at-most-one-external-call-per-entity
//! rule — each with the ready-made query text.  The caller performs the
//! lookups sequentially, observing the politeness delay between calls, and
//! records one outcome per pending lookup.  `commit_run` then either turns
//! a fully successful run into the merged cache, or reports the first
//! failure and produces nothing: no partial merge exists, so a failed run
//! leaves the persisted cache untouched.

use vstd::prelude::*;
use vstd::string::StringExecFns;

use crate::RunError;
use crate::canon::location_display;
use crate::canon::spaced;
use crate::coords::parse_coord_spec;
use crate::coords::parse_coordinate;
use crate::model::Cache;
use crate::model::CacheEntry;
use crate::model::Config;
use crate::model::Country;
use crate::model::CountryCodes;
use crate::model::GeoPoint;
use crate::model::Location;
use crate::model::cache_key_list;
use crate::model::contains_str;
use crate::model::entry_key;
use crate::model::has_key;
use crate::model::is_local_id;
use crate::model::lemma_nonlocal_pairs_concat;
use crate::model::lemma_pairs_of_concat;
use crate::model::loc_key;
use crate::model::nonlocal_pairs;
use crate::model::pairs_of;
use crate::model::spec_code_of_name;
use crate::model::views_match;
use crate::diff::get_new_places;
use crate::diff::spec_new_countries;

verus! {

/// One external lookup that a run still owes: the location to resolve,
/// the fields of the cache entry it will produce, and the query text.
#[derive(Clone, Debug, PartialEq, Eq)]
pub struct PendingLookup {
    pub location_id: String,
    pub name: String,
    pub local_name: Option<String>,
    pub country_code: String,
    pub query: String,
}

/// What a run will do: one pending lookup per new location, plus the new
/// country identifiers (which trigger a persist but no lookup).
#[derive(Clone, Debug, PartialEq, Eq)]
pub struct ResolutionPlan {
    pub pending: Vec<PendingLookup>,
    pub new_countries: Vec<String>,
}

/// What one external lookup came back with: the best match's coordinates
/// as the transport's decimal text, zero results, or a lower-level
/// failure.
#[derive(Clone, Debug, PartialEq, Eq)]
pub enum LookupOutcome {
    Found(String, String),
    NotFound,
    TransportFailed,
}

/// A fully successful run: the merged cache and whether it differs from
/// the persisted one (so the caller persists exactly when it must).
#[derive(Clone, Debug, PartialEq, Eq)]
pub struct RunCommit {
    pub cache: Cache,
    pub changed: bool,
}

/// "key=value" pairs joined with "&".
pub open spec fn query_string_spec(params: Seq<(&str, &str)>) -> Seq<char>
    decreases params.len(),
{
    if params.len() == 0 {
        Seq::empty()
    } else {
        query_string_spec(params.drop_last()) + (if params.len() > 1 {
            "&"@
        } else {
            Seq::empty()
        }) + params.last().0@ + "="@ + params.last().1@
    }
}

/// Joins query parameters into a "k=v&k=v" string.
pub fn get_query_string(params: Vec<(&str, &str)>) -> (r: String)
    ensures
        r@ == query_string_spec(params@),
{
    let mut r = String::new();
    let n = params.len();
    let mut i: usize = 0;
    while i < n
        invariant
            i <= n,
            n == params@.len(),
            r@ == query_string_spec(params@.take(i as int)),
        decreases n - i,
    {
        if i > 0 {
            r.append("&");
        }
        r.append(params[i].0);
        r.append("=");
        r.append(params[i].1);
        proof {
            let t1 = params@.take(i + 1 as int);
            assert(t1.drop_last() =~= params@.take(i as int));
            assert(t1.last() == params@[i as int]);
            if i > 0 {
                assert(r@ =~= query_string_spec(params@.take(i as int)) + "&"@ + params@[
                    i as int].0@ + "="@ + params@[i as int].1@);
            } else {
                assert(r@ =~= query_string_spec(params@.take(i as int)) + Seq::<
                    char,
                >::empty() + params@[i as int].0@ + "="@ + params@[i as int].1@);
            }
        }
        i = i + 1;
    }
    proof {
        assert(params@.take(n as int) =~= params@);
    }
    r
}

/// The full search request for one place: the fixed endpoint, a JSON
/// answer, the place text, and a single best match.
pub fn search_url(place_name: &str) -> (r: String)
    ensures
        r@ == "http://nominatim.openstreetmap.org/search?"@ + query_string_spec(
            seq![("format", "jsonv2"), ("q", place_name), ("limit", "1")],
        ),
{
    let params: Vec<(&str, &str)> = vec![("format", "jsonv2"), ("q", place_name), ("limit", "1")];
    proof {
        assert(params@ =~= seq![("format", "jsonv2"), ("q", place_name), ("limit", "1")]);
    }
    let qs = get_query_string(params);
    let mut url = String::from_str("http://nominatim.openstreetmap.org/search?");
    url.append(qs.as_str());
    url
}

/// Judges the decoded rows of one search answer: the single best match
/// is the first row — its longitude and latitude text — and an empty
/// answer means the place was not found.  Transport-level failures never
/// reach this point; the caller reports those directly.
pub fn first_search_result(results: Vec<(String, String)>) -> (r: LookupOutcome)
    ensures
        results@.len() == 0 ==> r == LookupOutcome::NotFound,
        results@.len() > 0 ==> (r matches LookupOutcome::Found(lon, lat) && lon@ == results@[0].0@
            && lat@ == results@[0].1@),
{
    let mut results = results;
    if results.len() == 0 {
        LookupOutcome::NotFound
    } else {
        let first = results.remove(0);
        LookupOutcome::Found(first.0, first.1)
    }
}

/// Of an ordered pair list, those whose cache key is not yet present.
pub open spec fn new_pairs_of(ps: Seq<(Country, Location)>, entries: Seq<CacheEntry>) -> Seq<
    (Country, Location),
>
    decreases ps.len(),
{
    if ps.len() == 0 {
        Seq::empty()
    } else {
        new_pairs_of(ps.drop_last(), entries) + (if has_key(
            entries,
            loc_key(ps.last().1.id@),
        ) {
            Seq::empty()
        } else {
            seq![ps.last()]
        })
    }
}

/// The location identifiers of an ordered pair list.
pub open spec fn pair_id_list(ps: Seq<(Country, Location)>) -> Seq<Seq<char>> {
    ps.map_values(|p: (Country, Location)| p.1.id@)
}

/// The (country, location) pairs a run must resolve, in configuration
/// order.
pub open spec fn spec_new_pairs(places: Seq<Country>, entries: Seq<CacheEntry>) -> Seq<
    (Country, Location),
> {
    new_pairs_of(nonlocal_pairs(places), entries)
}

/// `new_pairs_of` distributes over concatenation.
proof fn lemma_new_pairs_concat(
    a: Seq<(Country, Location)>,
    b: Seq<(Country, Location)>,
    entries: Seq<CacheEntry>,
)
    ensures
        new_pairs_of(a + b, entries) == new_pairs_of(a, entries) + new_pairs_of(b, entries),
    decreases b.len(),
{
    if b.len() == 0 {
        assert(a + b =~= a);
        assert(new_pairs_of(a, entries) + new_pairs_of(b, entries) =~= new_pairs_of(a, entries));
    } else {
        assert((a + b).drop_last() =~= a + b.drop_last());
        assert((a + b).last() == b.last());
        lemma_new_pairs_concat(a, b.drop_last(), entries);
        let piece = if has_key(entries, loc_key(b.last().1.id@)) {
            Seq::<(Country, Location)>::empty()
        } else {
            seq![b.last()]
        };
        assert(new_pairs_of(a + b, entries) == new_pairs_of(a, entries) + new_pairs_of(
            b.drop_last(),
            entries,
        ) + piece);
        assert(new_pairs_of(b, entries) == new_pairs_of(b.drop_last(), entries) + piece);
        assert(new_pairs_of(a, entries) + new_pairs_of(b.drop_last(), entries) + piece
            =~= new_pairs_of(a, entries) + (new_pairs_of(b.drop_last(), entries) + piece));
    }
}

/// Where a new location stands in the run's pair list: right after the
/// new pairs contributed by everything configured before it.
proof fn lemma_new_pair_position(
    places: Seq<Country>,
    entries: Seq<CacheEntry>,
    ci: int,
    j: int,
)
    requires
        0 <= ci < places.len(),
        0 <= j < places[ci].locations@.len(),
        !is_local_id(places[ci].locations@[j].id@),
        !has_key(entries, loc_key(places[ci].locations@[j].id@)),
    ensures
        ({
            let prefix = new_pairs_of(
                nonlocal_pairs(places.take(ci)) + pairs_of(
                    places[ci],
                    places[ci].locations@.take(j),
                ),
                entries,
            );
            prefix.len() < spec_new_pairs(places, entries).len() && spec_new_pairs(
                places,
                entries,
            )[prefix.len() as int] == (places[ci], places[ci].locations@[j])
        }),
{
    let c = places[ci];
    let locs = c.locations@;
    let l = locs[j];
    assert(places =~= places.take(ci) + seq![c] + places.skip(ci + 1));
    lemma_nonlocal_pairs_concat(places.take(ci) + seq![c], places.skip(ci + 1));
    lemma_nonlocal_pairs_concat(places.take(ci), seq![c]);
    assert(seq![c].drop_last() =~= Seq::<Country>::empty());
    assert(nonlocal_pairs(seq![c]) == nonlocal_pairs(Seq::<Country>::empty()) + pairs_of(
        c,
        locs,
    ));
    assert(nonlocal_pairs(Seq::<Country>::empty()) + pairs_of(c, locs) =~= pairs_of(c, locs));
    assert(locs =~= locs.take(j) + seq![l] + locs.skip(j + 1));
    lemma_pairs_of_concat(c, locs.take(j) + seq![l], locs.skip(j + 1));
    lemma_pairs_of_concat(c, locs.take(j), seq![l]);
    assert(seq![l].drop_last() =~= Seq::<Location>::empty());
    assert(pairs_of(c, seq![l]) == pairs_of(c, Seq::<Location>::empty()) + seq![(c, l)]);
    assert(pairs_of(c, Seq::<Location>::empty()) + seq![(c, l)] =~= seq![(c, l)]);
    let x = nonlocal_pairs(places.take(ci)) + pairs_of(c, locs.take(j));
    let y = pairs_of(c, locs.skip(j + 1)) + nonlocal_pairs(places.skip(ci + 1));
    assert(nonlocal_pairs(places) =~= x + seq![(c, l)] + y);
    lemma_new_pairs_concat(x + seq![(c, l)], y, entries);
    lemma_new_pairs_concat(x, seq![(c, l)], entries);
    assert(seq![(c, l)].drop_last() =~= Seq::<(Country, Location)>::empty());
    assert(seq![(c, l)].last() == (c, l));
    assert(new_pairs_of(Seq::<(Country, Location)>::empty(), entries) =~= Seq::<
        (Country, Location),
    >::empty());
    assert(new_pairs_of(seq![(c, l)], entries) == new_pairs_of(
        Seq::<(Country, Location)>::empty(),
        entries,
    ) + seq![(c, l)]);
    assert(new_pairs_of(seq![(c, l)], entries) =~= seq![(c, l)]);
    let prefix = new_pairs_of(x, entries);
    assert(spec_new_pairs(places, entries) == new_pairs_of(x + seq![(c, l)] + y, entries));
    assert(new_pairs_of(x + seq![(c, l)] + y, entries) == new_pairs_of(x + seq![(c, l)], entries)
        + new_pairs_of(y, entries));
    assert(new_pairs_of(x + seq![(c, l)], entries) == prefix + seq![(c, l)]);
    assert((prefix + seq![(c, l)] + new_pairs_of(y, entries))[prefix.len() as int] == (c, l));
}

/// What one pending lookup promises about its pair: the entry fields are
/// the location's, the country code was found in the table, and the query
/// is "<location display name>, <country display name>".
pub open spec fn pending_matches(
    p: PendingLookup,
    pair: (Country, Location),
    codes: Seq<(String, String)>,
) -> bool {
    &&& p.location_id@ == pair.1.id@
    &&& p.name@ == location_display(pair.1.id@)
    &&& (match pair.1.local_name {
        Some(n) => p.local_name matches Some(m) && m@ == n@,
        None => p.local_name is None,
    })
    &&& (match spec_code_of_name(codes, spaced(pair.0.id@)) {
        Some(c) => p.country_code@ == c,
        None => false,
    })
    &&& p.query@ == location_display(pair.1.id@) + ", "@ + spaced(pair.0.id@)
}

/// `pending` lists one matching lookup per pair, in order.
pub open spec fn pending_list_matches(
    pending: Seq<PendingLookup>,
    ps: Seq<(Country, Location)>,
    codes: Seq<(String, String)>,
) -> bool {
    pending.len() == ps.len() && forall|k: int|
        0 <= k < pending.len() ==> pending_matches(#[trigger] pending[k], ps[k], codes)
}

/// A plan exists exactly when the code table knows the country of every
/// location that must be resolved.
pub open spec fn plan_ok(
    places: Seq<Country>,
    entries: Seq<CacheEntry>,
    codes: Seq<(String, String)>,
) -> bool {
    forall|k: int|
        0 <= k < spec_new_pairs(places, entries).len() ==> spec_code_of_name(
            codes,
            spaced(#[trigger] spec_new_pairs(places, entries)[k].0.id@),
        ) is Some
}

/// Plans a run against the current cache: exactly one pending lookup per
/// new location, in configuration order, plus the new countries.  Fails
/// with `IdentifierMismatch` exactly when some new location's country is
/// missing from the code table.
pub fn plan_resolution(config: &Config, cache: &Cache, cca3: &CountryCodes) -> (r: Result<
    ResolutionPlan,
    RunError,
>)
    ensures
        r is Ok <==> plan_ok(config.places@, cache.entries@, cca3.codes@),
        r matches Err(e) ==> e == RunError::IdentifierMismatch,
        r matches Ok(plan) ==> pending_list_matches(
            plan.pending@,
            spec_new_pairs(config.places@, cache.entries@),
            cca3.codes@,
        ) && views_match(
            plan.new_countries@,
            spec_new_countries(config.places@, cache.entries@, cca3.codes@),
        ),
{
    let (new_countries, _new_locations) = get_new_places(cache, config, cca3);
    let keys = cache_key_list(&cache.entries);
    let mut pending: Vec<PendingLookup> = Vec::new();
    let n = config.places.len();
    let mut ci: usize = 0;
    while ci < n
        invariant
            ci <= n,
            n == config.places@.len(),
            keys@.len() == cache.entries@.len(),
            forall|k: int| 0 <= k < keys@.len() ==> keys@[k]@ == entry_key(cache.entries@[k]),
            pending_list_matches(
                pending@,
                new_pairs_of(nonlocal_pairs(config.places@.take(ci as int)), cache.entries@),
                cca3.codes@,
            ),
        decreases n - ci,
    {
        let country_display = config.places[ci].name();
        let locs = &config.places[ci].locations;
        let m = locs.len();
        let mut j: usize = 0;
        while j < m
            invariant
                j <= m,
                m == locs@.len(),
                ci < n,
                n == config.places@.len(),
                locs@ == config.places@[ci as int].locations@,
                country_display@ == spaced(config.places@[ci as int].id@),
                keys@.len() == cache.entries@.len(),
                forall|k: int| 0 <= k < keys@.len() ==> keys@[k]@ == entry_key(cache.entries@[k]),
                pending_list_matches(
                    pending@,
                    new_pairs_of(
                        nonlocal_pairs(config.places@.take(ci as int)) + pairs_of(
                            config.places@[ci as int],
                            locs@.take(j as int),
                        ),
                        cache.entries@,
                    ),
                    cca3.codes@,
                ),
            decreases m - j,
        {
            let is_local = crate::canon::str_eq(locs[j].id.as_str(), "Local");
            let ghost base = nonlocal_pairs(config.places@.take(ci as int)) + pairs_of(
                config.places@[ci as int],
                locs@.take(j as int),
            );
            if !is_local {
                let display = crate::canon::location_display_name(locs[j].id.as_str());
                let key = crate::canon::to_location_identfier_string(display.as_str());
                let cached = contains_str(&keys, key.as_str());
                proof {
                    let lk = loc_key(locs@[j as int].id@);
                    assert(key@ == lk);
                    if cached {
                        let k = choose|k: int| 0 <= k < keys@.len() && keys@[k]@ == key@;
                        assert(entry_key(cache.entries@[k]) == lk);
                        assert(has_key(cache.entries@, lk));
                    } else {
                        if has_key(cache.entries@, lk) {
                            let k = choose|k: int|
                                0 <= k < cache.entries@.len() && entry_key(
                                    cache.entries@[k],
                                ) == lk;
                            assert(keys@[k]@ == lk);
                        }
                    }
                }
                if !cached {
                    let code = match config.places[ci].code(cca3) {
                        Ok(code) => code,
                        Err(e) => {
                            proof {
                                lemma_new_pair_position(
                                    config.places@,
                                    cache.entries@,
                                    ci as int,
                                    j as int,
                                );
                                let np = spec_new_pairs(config.places@, cache.entries@);
                                let k = pending@.len() as int;
                                assert(k == new_pairs_of(base, cache.entries@).len());
                                assert(0 <= k < np.len());
                                assert(np[k] == (
                                    config.places@[ci as int],
                                    locs@[j as int],
                                ));
                                assert(np[k].0 == config.places@[ci as int]);
                                assert(spec_code_of_name(
                                    cca3.codes@,
                                    spaced(np[k].0.id@),
                                ) is None);
                                assert(!plan_ok(config.places@, cache.entries@, cca3.codes@));
                            }
                            return Err(e);
                        },
                    };
                    let local_name = match &locs[j].local_name {
                        Some(s) => Some(s.clone()),
                        None => None,
                    };
                    let mut query = String::from_str(display.as_str());
                    query.append(", ");
                    query.append(country_display.as_str());
                    let entry = PendingLookup {
                        location_id: locs[j].id.clone(),
                        name: display,
                        local_name,
                        country_code: code,
                        query,
                    };
                    pending.push(entry);
                }
            }
            proof {
                let c = config.places@[ci as int];
                let t1 = locs@.take(j + 1 as int);
                assert(t1.drop_last() =~= locs@.take(j as int));
                assert(t1.last() == locs@[j as int]);
                if is_local_id(locs@[j as int].id@) {
                    assert(pairs_of(c, t1) =~= pairs_of(c, locs@.take(j as int)));
                    assert(nonlocal_pairs(config.places@.take(ci as int)) + pairs_of(c, t1)
                        =~= base);
                } else {
                    assert(pairs_of(c, t1) =~= pairs_of(c, locs@.take(j as int)) + seq![
                        (c, locs@[j as int])]);
                    assert(nonlocal_pairs(config.places@.take(ci as int)) + pairs_of(c, t1)
                        =~= base.push((c, locs@[j as int])));
                    assert(base.push((c, locs@[j as int])).drop_last() =~= base);
                    assert(base.push((c, locs@[j as int])).last() == (c, locs@[j as int]));
                }
            }
            j = j + 1;
        }
        proof {
            assert(locs@.take(m as int) =~= locs@);
            let t1 = config.places@.take(ci + 1 as int);
            assert(t1.drop_last() =~= config.places@.take(ci as int));
            assert(t1.last() == config.places@[ci as int]);
            lemma_nonlocal_pairs_concat(config.places@.take(ci as int), seq![config.places@[
                ci as int]]);
            assert(config.places@.take(ci + 1 as int) =~= config.places@.take(ci as int) + seq![
                config.places@[ci as int]]);
            assert(seq![config.places@[ci as int]].drop_last() =~= Seq::<Country>::empty());
            assert(nonlocal_pairs(seq![config.places@[ci as int]]) =~= pairs_of(
                config.places@[ci as int],
                config.places@[ci as int].locations@,
            ));
        }
        ci = ci + 1;
    }
    proof {
        assert(config.places@.take(n as int) =~= config.places@);
        assert forall|k: int|
            0 <= k < spec_new_pairs(config.places@, cache.entries@).len() implies spec_code_of_name(
            cca3.codes@,
            spaced(#[trigger] spec_new_pairs(config.places@, cache.entries@)[k].0.id@),
        ) is Some by {
            assert(pending_matches(
                pending@[k],
                spec_new_pairs(config.places@, cache.entries@)[k],
                cca3.codes@,
            ));
        }
    }
    Ok(ResolutionPlan { pending, new_countries })
}

/// Whether one lookup outcome resolves: a found match whose two
/// coordinate strings both parse.
pub open spec fn outcome_ok(o: LookupOutcome) -> bool {
    o matches LookupOutcome::Found(lon, lat) && parse_coord_spec(lon@) is Some
        && parse_coord_spec(lat@) is Some
}

/// The error a failed outcome reports: zero results are `LookupNotFound`,
/// anything lower-level — including an unreadable coordinate — is
/// `LookupTransportError`.
pub open spec fn spec_outcome_error(o: LookupOutcome) -> RunError {
    match o {
        LookupOutcome::Found(lon, lat) => RunError::LookupTransportError,
        LookupOutcome::NotFound => RunError::LookupNotFound,
        LookupOutcome::TransportFailed => RunError::LookupTransportError,
    }
}

/// The error of the first outcome that did not resolve, if any.
pub open spec fn first_failure(outcomes: Seq<LookupOutcome>) -> Option<RunError>
    decreases outcomes.len(),
{
    if outcomes.len() == 0 {
        None
    } else if !outcome_ok(outcomes.first()) {
        Some(spec_outcome_error(outcomes.first()))
    } else {
        first_failure(outcomes.drop_first())
    }
}

proof fn lemma_first_failure_skip(outcomes: Seq<LookupOutcome>, k: int)
    requires
        0 <= k <= outcomes.len(),
        forall|j: int| 0 <= j < k ==> outcome_ok(#[trigger] outcomes[j]),
    ensures
        first_failure(outcomes) == first_failure(outcomes.skip(k)),
    decreases k,
{
    if k == 0 {
        assert(outcomes.skip(0) =~= outcomes);
    } else {
        assert(outcome_ok(outcomes[0]));
        assert(forall|j: int|
            0 <= j < k - 1 ==> outcome_ok(#[trigger] outcomes.drop_first()[j]));
        lemma_first_failure_skip(outcomes.drop_first(), k - 1);
        assert(outcomes.drop_first().skip(k - 1) =~= outcomes.skip(k));
    }
}

/// What a merged cache entry holds for one pending lookup and its
/// outcome: the pending fields and the parsed coordinates.
pub open spec fn entry_matches(e: CacheEntry, p: PendingLookup, o: LookupOutcome) -> bool {
    &&& e.name@ == p.name@
    &&& (match p.local_name {
        Some(n) => e.local_name matches Some(m) && m@ == n@,
        None => e.local_name is None,
    })
    &&& e.country_code@ == p.country_code@
    &&& (o matches LookupOutcome::Found(lon, lat) && (parse_coord_spec(lon@) matches Some(x)
        && e.point.lon_micro as int == x) && (parse_coord_spec(lat@) matches Some(y)
        && e.point.lat_micro as int == y))
}

/// Clones an optional string, keeping its value.
pub(crate) fn clone_opt_string(o: &Option<String>) -> (r: Option<String>)
    ensures
        r == *o,
{
    match o {
        Some(s) => Some(s.clone()),
        None => None,
    }
}

/// Clones a cache entry, keeping its value.
fn clone_entry(e: &CacheEntry) -> (r: CacheEntry)
    ensures
        r == *e,
{
    CacheEntry {
        name: e.name.clone(),
        local_name: clone_opt_string(&e.local_name),
        country_code: e.country_code.clone(),
        point: e.point,
    }
}

/// Merges a fully successful run into a new cache value, or reports the
/// first failure and produces nothing.  The old entries are kept
/// unchanged, one entry is appended per pending lookup in plan order, and
/// `changed` says whether the caller must persist.  Since no partial
/// merge exists, a run with any failed resolution leaves the persisted
/// cache exactly as it was.
///
/// `changed` is true exactly when the diff was non-empty — new countries
/// counted as well as new locations — so a run whose only novelty is a
/// country with fully cached locations still asks for a persist, even
/// though the rewritten file holds the same entries.
pub fn commit_run(cache: &Cache, plan: &ResolutionPlan, outcomes: &Vec<LookupOutcome>) -> (r:
    Result<RunCommit, RunError>)
    requires
        outcomes@.len() == plan.pending@.len(),
    ensures
        r is Ok <==> first_failure(outcomes@) is None,
        r matches Err(e) ==> (first_failure(outcomes@) matches Some(e2) && e == e2),
        r matches Ok(c) ==> ({
            &&& c.cache.entries@.len() == cache.entries@.len() + plan.pending@.len()
            &&& forall|k: int|
                0 <= k < cache.entries@.len() ==> c.cache.entries@[k] == cache.entries@[k]
            &&& forall|k: int|
                0 <= k < plan.pending@.len() ==> entry_matches(
                    #[trigger] c.cache.entries@[cache.entries@.len() + k],
                    plan.pending@[k],
                    outcomes@[k],
                )
            &&& c.changed == (plan.new_countries@.len() + plan.pending@.len() > 0)
        }),
{
    let mut entries: Vec<CacheEntry> = Vec::new();
    let en = cache.entries.len();
    let mut i: usize = 0;
    while i < en
        invariant
            i <= en,
            en == cache.entries@.len(),
            entries@.len() == i,
            forall|q: int| 0 <= q < i ==> entries@[q] == cache.entries@[q],
        decreases en - i,
    {
        entries.push(clone_entry(&cache.entries[i]));
        i = i + 1;
    }
    let n = plan.pending.len();
    let mut k: usize = 0;
    while k < n
        invariant
            k <= n,
            n == plan.pending@.len(),
            n == outcomes@.len(),
            en == cache.entries@.len(),
            entries@.len() == en + k,
            forall|q: int| 0 <= q < en ==> entries@[q] == cache.entries@[q],
            forall|q: int| 0 <= q < k ==> outcome_ok(#[trigger] outcomes@[q]),
            forall|q: int|
                0 <= q < k ==> entry_matches(
                    #[trigger] entries@[en + q],
                    plan.pending@[q],
                    outcomes@[q],
                ),
        decreases n - k,
    {
        let o = &outcomes[k];
        match o {
            LookupOutcome::Found(lon, lat) => {
                let x = match parse_coordinate(lon.as_str()) {
                    Ok(x) => x,
                    Err(e) => {
                        proof {
                            lemma_first_failure_skip(outcomes@, k as int);
                            assert(outcomes@.skip(k as int).first() == outcomes@[k as int]);
                            assert(!outcome_ok(outcomes@[k as int]));
                        }
                        return Err(e);
                    },
                };
                let y = match parse_coordinate(lat.as_str()) {
                    Ok(y) => y,
                    Err(e) => {
                        proof {
                            lemma_first_failure_skip(outcomes@, k as int);
                            assert(outcomes@.skip(k as int).first() == outcomes@[k as int]);
                            assert(!outcome_ok(outcomes@[k as int]));
                        }
                        return Err(e);
                    },
                };
                let p = &plan.pending[k];
                let entry = CacheEntry {
                    name: p.name.clone(),
                    local_name: clone_opt_string(&p.local_name),
                    country_code: p.country_code.clone(),
                    point: GeoPoint { lon_micro: x, lat_micro: y },
                };
                entries.push(entry);
                proof {
                    assert(outcome_ok(outcomes@[k as int]));
                    assert(entry_matches(
                        entries@[en + k as int],
                        plan.pending@[k as int],
                        outcomes@[k as int],
                    ));
                }
            },
            LookupOutcome::NotFound => {
                proof {
                    lemma_first_failure_skip(outcomes@, k as int);
                    assert(outcomes@.skip(k as int).first() == outcomes@[k as int]);
                    assert(!outcome_ok(outcomes@[k as int]));
                }
                return Err(RunError::LookupNotFound);
            },
            LookupOutcome::TransportFailed => {
                proof {
                    lemma_first_failure_skip(outcomes@, k as int);
                    assert(outcomes@.skip(k as int).first() == outcomes@[k as int]);
                    assert(!outcome_ok(outcomes@[k as int]));
                }
                return Err(RunError::LookupTransportError);
            },
        }
        k = k + 1;
    }
    proof {
        lemma_first_failure_skip(outcomes@, n as int);
        assert(outcomes@.skip(n as int).len() == 0);
    }
    let changed = plan.new_countries.len() > 0 || plan.pending.len() > 0;
    Ok(RunCommit { cache: Cache { entries }, changed })
}

} // verus!
