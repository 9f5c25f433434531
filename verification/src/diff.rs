//! The diff: which configured entities the cache does not yet hold.
//!
//! Two disjoint sets are computed against the persisted cache.  New
//! countries are those whose identifier is absent from the identifiers
//! reachable from cached country codes through the static name ↔ code
//! table.  New locations are the geocodable locations whose canonicalized
//! display name is absent from the set of canonicalized names already
//! present among the cache entries.  Only new locations are resolved; a
//! new country by itself triggers no lookup, only a persist.

use vstd::prelude::*;

use crate::canon::location_display_name;
use crate::canon::str_eq;
use crate::canon::strip2;
use crate::canon::to_location_identfier_string;
use crate::model::Cache;
use crate::model::CacheEntry;
use crate::model::Config;
use crate::model::Country;
use crate::model::CountryCodes;
use crate::model::Location;
use crate::model::cache_key_list;
use crate::model::contains_str;
use crate::model::entry_key;
use crate::model::has_key;
use crate::model::is_local_id;
use crate::model::loc_key;
use crate::model::nonlocal_pairs;
use crate::model::pairs_of;
use crate::canon::retain_not;
use crate::model::spec_name_of_code;
use crate::model::views_match;

verus! {

/// The country identifiers reachable from the cache: each entry's country
/// code is looked up in the table and the found name has its spaces
/// removed; codes the table does not know contribute nothing.
pub open spec fn cached_country_ids(entries: Seq<CacheEntry>, codes: Seq<(String, String)>) -> Seq<
    Seq<char>,
>
    decreases entries.len(),
{
    if entries.len() == 0 {
        Seq::empty()
    } else {
        cached_country_ids(entries.drop_last(), codes) + (match spec_name_of_code(
            codes,
            entries.last().country_code@,
        ) {
            Some(n) => seq![strip2(n, ' ', ' ')],
            None => Seq::empty(),
        })
    }
}

/// The configured country identifiers that the cache does not reach yet,
/// in configuration order.
pub open spec fn spec_new_countries(
    places: Seq<Country>,
    entries: Seq<CacheEntry>,
    codes: Seq<(String, String)>,
) -> Seq<Seq<char>>
    decreases places.len(),
{
    if places.len() == 0 {
        Seq::empty()
    } else {
        spec_new_countries(places.drop_last(), entries, codes) + (if cached_country_ids(
            entries,
            codes,
        ).contains(places.last().id@) {
            Seq::empty()
        } else {
            seq![places.last().id@]
        })
    }
}

/// Of an ordered pair list, the identifiers of the locations whose cache
/// key is not yet present among the entries.
pub open spec fn new_ids_of_pairs(
    ps: Seq<(Country, Location)>,
    entries: Seq<CacheEntry>,
) -> Seq<Seq<char>>
    decreases ps.len(),
{
    if ps.len() == 0 {
        Seq::empty()
    } else {
        new_ids_of_pairs(ps.drop_last(), entries) + (if has_key(
            entries,
            loc_key(ps.last().1.id@),
        ) {
            Seq::empty()
        } else {
            seq![ps.last().1.id@]
        })
    }
}

/// The geocodable configured locations that the cache does not hold, in
/// configuration order.
pub open spec fn spec_new_location_ids(places: Seq<Country>, entries: Seq<CacheEntry>) -> Seq<
    Seq<char>,
>
    decreases places.len(),
{
    new_ids_of_pairs(nonlocal_pairs(places), entries)
}

/// Computes the diff of the configuration against the cache: the new
/// country identifiers and the new location identifiers, each in
/// configuration order.
pub fn get_new_places(cities: &Cache, config: &Config, cca3: &CountryCodes) -> (r: (
    Vec<String>,
    Vec<String>,
))
    ensures
        views_match(r.0@, spec_new_countries(config.places@, cities.entries@, cca3.codes@)),
        views_match(r.1@, spec_new_location_ids(config.places@, cities.entries@)),
{
    let en = cities.entries.len();
    let mut ccids: Vec<String> = Vec::new();
    let mut e: usize = 0;
    while e < en
        invariant
            e <= en,
            en == cities.entries@.len(),
            views_match(ccids@, cached_country_ids(cities.entries@.take(e as int), cca3.codes@)),
        decreases en - e,
    {
        match cca3.name_of_code(cities.entries[e].country_code.as_str()) {
            Some(n) => {
                let ident = retain_not(n.as_str(), ' ', ' ');
                ccids.push(ident);
            },
            None => {},
        }
        proof {
            let t1 = cities.entries@.take(e + 1 as int);
            assert(t1.drop_last() =~= cities.entries@.take(e as int));
            assert(t1.last() == cities.entries@[e as int]);
        }
        e = e + 1;
    }
    proof {
        assert(cities.entries@.take(en as int) =~= cities.entries@);
    }
    let n = config.places.len();
    let mut new_countries: Vec<String> = Vec::new();
    let mut i: usize = 0;
    while i < n
        invariant
            i <= n,
            n == config.places@.len(),
            views_match(ccids@, cached_country_ids(cities.entries@, cca3.codes@)),
            views_match(
                new_countries@,
                spec_new_countries(config.places@.take(i as int), cities.entries@, cca3.codes@),
            ),
        decreases n - i,
    {
        let present = contains_str(&ccids, config.places[i].id.as_str());
        proof {
            let cc = cached_country_ids(cities.entries@, cca3.codes@);
            if present {
                let k = choose|k: int|
                    0 <= k < ccids@.len() && ccids@[k]@ == config.places@[i as int].id@;
                assert(cc[k] == config.places@[i as int].id@);
                assert(cc.contains(config.places@[i as int].id@));
            } else {
                if cc.contains(config.places@[i as int].id@) {
                    let k = choose|k: int| 0 <= k < cc.len() && cc[k] == config.places@[
                        i as int].id@;
                    assert(ccids@[k]@ == config.places@[i as int].id@);
                }
            }
            let t1 = config.places@.take(i + 1 as int);
            assert(t1.drop_last() =~= config.places@.take(i as int));
            assert(t1.last() == config.places@[i as int]);
        }
        if !present {
            new_countries.push(config.places[i].id.clone());
        }
        i = i + 1;
    }
    proof {
        assert(config.places@.take(n as int) =~= config.places@);
    }
    let keys = cache_key_list(&cities.entries);
    let mut new_locations: Vec<String> = Vec::new();
    let mut ci: usize = 0;
    while ci < n
        invariant
            ci <= n,
            n == config.places@.len(),
            keys@.len() == cities.entries@.len(),
            forall|k: int| 0 <= k < keys@.len() ==> keys@[k]@ == entry_key(cities.entries@[k]),
            views_match(
                new_locations@,
                new_ids_of_pairs(nonlocal_pairs(config.places@.take(ci as int)), cities.entries@),
            ),
        decreases n - ci,
    {
        let locs = &config.places[ci].locations;
        let m = locs.len();
        let mut j: usize = 0;
        while j < m
            invariant
                j <= m,
                m == locs@.len(),
                ci < n,
                n == config.places@.len(),
                locs@ == config.places@[ci as int].locations@,
                keys@.len() == cities.entries@.len(),
                forall|k: int| 0 <= k < keys@.len() ==> keys@[k]@ == entry_key(cities.entries@[k]),
                views_match(
                    new_locations@,
                    new_ids_of_pairs(
                        nonlocal_pairs(config.places@.take(ci as int)) + pairs_of(
                            config.places@[ci as int],
                            locs@.take(j as int),
                        ),
                        cities.entries@,
                    ),
                ),
            decreases m - j,
        {
            let is_local = str_eq(locs[j].id.as_str(), "Local");
            if !is_local {
                let display = location_display_name(locs[j].id.as_str());
                let key = to_location_identfier_string(display.as_str());
                let cached = contains_str(&keys, key.as_str());
                proof {
                    let lk = loc_key(locs@[j as int].id@);
                    assert(key@ == lk);
                    if cached {
                        let k = choose|k: int| 0 <= k < keys@.len() && keys@[k]@ == key@;
                        assert(entry_key(cities.entries@[k]) == lk);
                        assert(has_key(cities.entries@, lk));
                    } else {
                        if has_key(cities.entries@, lk) {
                            let k = choose|k: int|
                                0 <= k < cities.entries@.len() && entry_key(
                                    cities.entries@[k],
                                ) == lk;
                            assert(keys@[k]@ == lk);
                        }
                    }
                }
                if !cached {
                    new_locations.push(locs[j].id.clone());
                }
            }
            proof {
                let c = config.places@[ci as int];
                let base = nonlocal_pairs(config.places@.take(ci as int));
                let t1 = locs@.take(j + 1 as int);
                assert(t1.drop_last() =~= locs@.take(j as int));
                assert(t1.last() == locs@[j as int]);
                if is_local_id(locs@[j as int].id@) {
                    assert(pairs_of(c, t1) =~= pairs_of(c, locs@.take(j as int)));
                    assert(base + pairs_of(c, t1) =~= base + pairs_of(c, locs@.take(j as int)));
                } else {
                    assert(pairs_of(c, t1) =~= pairs_of(c, locs@.take(j as int)) + seq![
                        (c, locs@[j as int])]);
                    let ps = base + pairs_of(c, locs@.take(j as int));
                    assert(base + pairs_of(c, t1) =~= ps.push((c, locs@[j as int])));
                    assert(ps.push((c, locs@[j as int])).drop_last() =~= ps);
                    assert(ps.push((c, locs@[j as int])).last() == (c, locs@[j as int]));
                }
            }
            j = j + 1;
        }
        proof {
            assert(locs@.take(m as int) =~= locs@);
            let t1 = config.places@.take(ci + 1 as int);
            assert(t1.drop_last() =~= config.places@.take(ci as int));
            assert(t1.last() == config.places@[ci as int]);
        }
        ci = ci + 1;
    }
    proof {
        assert(config.places@.take(n as int) =~= config.places@);
    }
    (new_countries, new_locations)
}

} // verus!
