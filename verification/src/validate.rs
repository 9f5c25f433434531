//! Structural validation of the configuration and the country-code table.
//!
//! The configuration is loaded once per run and treated as immutable, so
//! its invariants — globally unique identifiers and identifiers that
//! round-trip through display-name derivation and canonicalization — are
//! checked once, up front.  Every later guarantee about diffing, resolution
//! and generation is stated against a configuration that passed here.

use vstd::prelude::*;
use vstd::string::StringExecFns;

use crate::RunError;
use crate::canon::location_display_name;
use crate::canon::str_eq;
use crate::canon::to_location_identfier_string;
use crate::model::Config;
use crate::model::Country;
use crate::model::CountryCodes;
use crate::model::Location;
use crate::model::config_wf;
use crate::model::contains_str;
use crate::model::country_id_list;
use crate::model::distinct_seqs;
use crate::model::ids_round_trip;
use crate::model::is_local_id;
use crate::model::loc_key;
use crate::model::nonlocal_ids;
use crate::model::nonlocal_pairs;
use crate::model::pairs_of;
use crate::order::lex_le_exec;
use crate::order::lex_lt;

verus! {

/// `r` lists, in order, the identifiers of the pairs in `ps`.
pub open spec fn ids_match(r: Seq<String>, ps: Seq<(Country, Location)>) -> bool {
    r.len() == ps.len() && forall|k: int| 0 <= k < r.len() ==> r[k]@ == ps[k].1.id@
}

/// Flattens the configuration's country/location tree into the ordered
/// list of geocodable location identifiers (the `Local` slot left out).
pub fn nonlocal_id_list(places: &Vec<Country>) -> (r: Vec<String>)
    ensures
        ids_match(r@, nonlocal_pairs(places@)),
{
    let mut r: Vec<String> = Vec::new();
    let n = places.len();
    let mut i: usize = 0;
    while i < n
        invariant
            i <= n,
            n == places@.len(),
            ids_match(r@, nonlocal_pairs(places@.take(i as int))),
        decreases n - i,
    {
        let locs = &places[i].locations;
        let m = locs.len();
        let mut j: usize = 0;
        while j < m
            invariant
                j <= m,
                m == locs@.len(),
                i < n,
                n == places@.len(),
                locs@ == places@[i as int].locations@,
                ids_match(
                    r@,
                    nonlocal_pairs(places@.take(i as int)) + pairs_of(
                        places@[i as int],
                        locs@.take(j as int),
                    ),
                ),
            decreases m - j,
        {
            if !str_eq(locs[j].id.as_str(), "Local") {
                r.push(locs[j].id.clone());
            }
            proof {
                let c = places@[i as int];
                let t1 = locs@.take(j + 1 as int);
                assert(t1.drop_last() =~= locs@.take(j as int));
                assert(t1.last() == locs@[j as int]);
                if is_local_id(locs@[j as int].id@) {
                    assert(pairs_of(c, t1) =~= pairs_of(c, locs@.take(j as int)));
                } else {
                    assert(pairs_of(c, t1) =~= pairs_of(c, locs@.take(j as int)) + seq![
                        (c, locs@[j as int])]);
                }
            }
            j = j + 1;
        }
        proof {
            assert(locs@.take(m as int) =~= locs@);
            let t1 = places@.take(i + 1 as int);
            assert(t1.drop_last() =~= places@.take(i as int));
            assert(t1.last() == places@[i as int]);
        }
        i = i + 1;
    }
    proof {
        assert(places@.take(n as int) =~= places@);
    }
    r
}

/// Checks the configuration invariants: unique country identifiers,
/// globally unique location identifiers, and identifiers that are the
/// canonicalized form of their own display names.  A failed check is a
/// `ConfigParseError`; no later run step re-checks these.
pub fn validate_config(config: &Config) -> (r: Result<(), RunError>)
    ensures
        r is Ok <==> config_wf(*config),
        r matches Err(e) ==> e == RunError::ConfigParseError,
{
    let n = config.places.len();
    let mut seen: Vec<String> = Vec::new();
    let mut i: usize = 0;
    while i < n
        invariant
            i <= n,
            n == config.places@.len(),
            seen@.len() == i,
            forall|k: int| 0 <= k < i ==> seen@[k]@ == config.places@[k].id@,
            forall|k1: int, k2: int|
                #![trigger config.places@[k1], config.places@[k2]]
                0 <= k1 < k2 < i ==> config.places@[k1].id@ != config.places@[k2].id@,
        decreases n - i,
    {
        if contains_str(&seen, config.places[i].id.as_str()) {
            proof {
                let k = choose|k: int|
                    0 <= k < seen@.len() && seen@[k]@ == config.places@[i as int].id@;
                assert(country_id_list(config.places@)[k] == country_id_list(
                    config.places@,
                )[i as int]);
                assert(!distinct_seqs(country_id_list(config.places@)));
            }
            return Err(RunError::ConfigParseError);
        }
        proof {
            assert forall|k1: int| 0 <= k1 < i implies config.places@[k1].id@ != config.places@[
                i as int].id@ by {
                assert(seen@[k1]@ == config.places@[k1].id@);
            }
        }
        seen.push(config.places[i].id.clone());
        i = i + 1;
    }
    proof {
        assert forall|k1: int, k2: int|
            0 <= k1 < k2 < country_id_list(config.places@).len() implies #[trigger] country_id_list(
            config.places@,
        )[k1] != #[trigger] country_id_list(config.places@)[k2] by {
            assert(config.places@[k1].id@ != config.places@[k2].id@);
        }
    }
    let flat = nonlocal_id_list(&config.places);
    let m = flat.len();
    let mut seen_locs: Vec<String> = Vec::new();
    let mut k: usize = 0;
    while k < m
        invariant
            k <= m,
            m == flat@.len(),
            ids_match(flat@, nonlocal_pairs(config.places@)),
            seen_locs@.len() == k,
            forall|q: int| 0 <= q < k ==> seen_locs@[q]@ == flat@[q]@,
            forall|q1: int, q2: int|
                #![trigger flat@[q1], flat@[q2]]
                0 <= q1 < q2 < k ==> flat@[q1]@ != flat@[q2]@,
            forall|q: int|
                0 <= q < k ==> loc_key(#[trigger] flat@[q]@) == flat@[q]@,
        decreases m - k,
    {
        if contains_str(&seen_locs, flat[k].as_str()) {
            proof {
                let q = choose|q: int|
                    0 <= q < seen_locs@.len() && seen_locs@[q]@ == flat@[k as int]@;
                assert(nonlocal_ids(config.places@)[q] == nonlocal_ids(config.places@)[
                    k as int]);
                assert(!distinct_seqs(nonlocal_ids(config.places@)));
            }
            return Err(RunError::ConfigParseError);
        }
        let display = location_display_name(flat[k].as_str());
        let key = to_location_identfier_string(display.as_str());
        if !str_eq(key.as_str(), flat[k].as_str()) {
            proof {
                assert(nonlocal_ids(config.places@)[k as int] == flat@[k as int]@);
                assert(!ids_round_trip(config.places@));
            }
            return Err(RunError::ConfigParseError);
        }
        proof {
            assert forall|q1: int| 0 <= q1 < k implies flat@[q1]@ != flat@[k as int]@ by {
                assert(seen_locs@[q1]@ == flat@[q1]@);
            }
        }
        seen_locs.push(flat[k].clone());
        k = k + 1;
    }
    proof {
        assert forall|q1: int, q2: int|
            0 <= q1 < q2 < nonlocal_ids(config.places@).len() implies #[trigger] nonlocal_ids(
            config.places@,
        )[q1] != #[trigger] nonlocal_ids(config.places@)[q2] by {
            assert(flat@[q1]@ != flat@[q2]@);
        }
        assert forall|q: int|
            0 <= q < nonlocal_ids(config.places@).len() implies loc_key(
            #[trigger] nonlocal_ids(config.places@)[q],
        ) == nonlocal_ids(config.places@)[q] by {
            assert(loc_key(flat@[q]@) == flat@[q]@);
        }
    }
    Ok(())
}

/// Rows strictly ordered by country name: the shape in which the
/// name ↔ code table is kept, so that each name appears at most once.
pub open spec fn table_wf(codes: Seq<(String, String)>) -> bool {
    forall|i: int|
        0 <= i < codes.len() - 1 ==> lex_lt(#[trigger] codes[i].0@, codes[i + 1].0@)
}

impl CountryCodes {
    /// Accepts a table whose rows are strictly sorted by country name —
    /// the order in which the caller collected them — and refuses any
    /// other, so a well-formed table maps each name to one code.
    pub fn try_new(codes: Vec<(String, String)>) -> (r: Result<CountryCodes, RunError>)
        ensures
            r is Ok <==> table_wf(codes@),
            r matches Ok(t) ==> t.codes@ == codes@,
            r matches Err(e) ==> e == RunError::ConfigParseError,
    {
        let n = codes.len();
        if n > 0 {
            let mut i: usize = 0;
            while i + 1 < n
                invariant
                    i < n,
                    n == codes@.len(),
                    forall|j: int|
                        0 <= j < i ==> lex_lt(#[trigger] codes@[j].0@, codes@[j + 1].0@),
                decreases n - i,
            {
                let le = lex_le_exec(codes[i].0.as_str(), codes[i + 1].0.as_str());
                let eq = str_eq(codes[i].0.as_str(), codes[i + 1].0.as_str());
                if !le || eq {
                    proof {
                        assert(!lex_lt(codes@[i as int].0@, codes@[i + 1 as int].0@));
                    }
                    return Err(RunError::ConfigParseError);
                }
                i = i + 1;
            }
        }
        Ok(CountryCodes { codes })
    }
}

} // verus!
