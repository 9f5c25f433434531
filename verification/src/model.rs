//! The data model: configuration, country-code table, and cache.
//!
//! Entities are data-driven registries parsed from the configuration at run
//! time rather than identifier lists fixed at build time.  A `Location`
//! whose identifier is `"Local"` is a reserved pseudo-location: it only
//! carries its country's local-language name and is never geocoded or
//! emitted.  Coordinates are held as signed microdegrees so that every
//! computation on them is exact.

use vstd::prelude::*;
use vstd::string::StringExecFns;

use crate::RunError;
use crate::canon::canon_spec;
use crate::canon::location_display;
use crate::canon::location_display_name;
use crate::canon::retain_not;
use crate::canon::spaced;
use crate::canon::spaced_name;
use crate::canon::str_eq;
use crate::canon::strip2;

verus! {

/// A coordinate pair in microdegrees (millionths of a degree), longitude
/// first, matching the order of the persisted cache.
#[derive(Clone, Copy, Debug, PartialEq, Eq, Structural)]
pub struct GeoPoint {
    pub lon_micro: i64,
    pub lat_micro: i64,
}

/// A place under a country: its identifier and an optional local-language
/// name.  The identifier `"Local"` marks the pseudo-location that carries
/// the country's own local name.
#[derive(Clone, Debug, PartialEq, Eq)]
pub struct Location {
    pub id: String,
    pub local_name: Option<String>,
}

/// A country and its declared locations.
#[derive(Clone, Debug, PartialEq, Eq)]
pub struct Country {
    pub id: String,
    pub locations: Vec<Location>,
}

/// A trip: display name, a free-text description that doubles as the seed
/// of its identifier, ordered location references (location identifiers),
/// and ordered "YYYY/MM" date strings.
#[derive(Clone, Debug, PartialEq, Eq)]
pub struct Trip {
    pub name: String,
    pub description: String,
    pub cities: Vec<String>,
    pub dates: Vec<String>,
}

/// The full declarative configuration of a run.
#[derive(Clone, Debug, PartialEq, Eq)]
pub struct Config {
    pub places: Vec<Country>,
    pub trips: Vec<Trip>,
}

/// The static country-name ↔ ISO alpha-3 table, as (name, code) rows.
#[derive(Clone, Debug, PartialEq, Eq)]
pub struct CountryCodes {
    pub codes: Vec<(String, String)>,
}

/// One persisted resolution: the location's display name (the cache key is
/// its canonicalized form), optional local name, owning country code, and
/// the resolved coordinate.
#[derive(Clone, Debug, PartialEq, Eq)]
pub struct CacheEntry {
    pub name: String,
    pub local_name: Option<String>,
    pub country_code: String,
    pub point: GeoPoint,
}

/// The persisted store of previously resolved coordinates.
#[derive(Clone, Debug, PartialEq, Eq)]
pub struct Cache {
    pub entries: Vec<CacheEntry>,
}

/// The reserved pseudo-location identifier.
pub open spec fn is_local_id(id: Seq<char>) -> bool {
    id == "Local"@
}

/// The key under which a cache entry is found: its canonicalized display
/// name.
pub open spec fn entry_key(e: CacheEntry) -> Seq<char> {
    canon_spec(e.name@)
}

/// The key under which a configured location is cached: its canonicalized
/// display name, derived from the identifier.
pub open spec fn loc_key(id: Seq<char>) -> Seq<char> {
    canon_spec(location_display(id))
}

/// Whether some cache entry is stored under `key`.
pub open spec fn has_key(entries: Seq<CacheEntry>, key: Seq<char>) -> bool {
    exists|i: int| 0 <= i < entries.len() && entry_key(entries[i]) == key
}

/// The coordinate of the first cache entry stored under `key`.
pub open spec fn find_point(entries: Seq<CacheEntry>, key: Seq<char>) -> Option<GeoPoint>
    decreases entries.len(),
{
    if entries.len() == 0 {
        None
    } else if entry_key(entries.first()) == key {
        Some(entries.first().point)
    } else {
        find_point(entries.drop_first(), key)
    }
}

proof fn lemma_find_point_skip(entries: Seq<CacheEntry>, key: Seq<char>, i: int)
    requires
        0 <= i <= entries.len(),
        forall|j: int| 0 <= j < i ==> entry_key(entries[j]) != key,
    ensures
        find_point(entries, key) == find_point(entries.skip(i), key),
    decreases i,
{
    if i == 0 {
        assert(entries.skip(0) =~= entries);
    } else {
        assert(entry_key(entries[0]) != key);
        assert(forall|j: int|
            0 <= j < i - 1 ==> entry_key(entries.drop_first()[j]) != key);
        lemma_find_point_skip(entries.drop_first(), key, i - 1);
        assert(entries.drop_first().skip(i - 1) =~= entries.skip(i));
    }
}

/// A found point is a witness that the key is present, and conversely.
pub proof fn lemma_find_point_has_key(entries: Seq<CacheEntry>, key: Seq<char>)
    ensures
        (find_point(entries, key) is Some) == has_key(entries, key),
    decreases entries.len(),
{
    if entries.len() > 0 {
        if entry_key(entries.first()) == key {
            assert(entry_key(entries[0]) == key);
        } else {
            lemma_find_point_has_key(entries.drop_first(), key);
            if has_key(entries.drop_first(), key) {
                let i = choose|i: int|
                    0 <= i < entries.drop_first().len() && entry_key(
                        entries.drop_first()[i],
                    ) == key;
                assert(entry_key(entries[i + 1]) == key);
            } else if has_key(entries, key) {
                let i = choose|i: int|
                    0 <= i < entries.len() && entry_key(entries[i]) == key;
                assert(entry_key(entries.drop_first()[i - 1]) == key);
            }
        }
    }
}

/// Looks up the coordinate cached under the canonicalized key `key`.
pub fn point_for_key(entries: &Vec<CacheEntry>, key: &str) -> (r: Option<GeoPoint>)
    ensures
        match find_point(entries@, key@) {
            Some(p) => r matches Some(q) && q == p,
            None => r is None,
        },
{
    let n = entries.len();
    let mut i: usize = 0;
    while i < n
        invariant
            i <= n,
            n == entries@.len(),
            forall|j: int| 0 <= j < i ==> entry_key(entries@[j]) != key@,
        decreases n - i,
    {
        let ek = crate::canon::to_location_identfier_string(entries[i].name.as_str());
        if str_eq(ek.as_str(), key) {
            proof {
                lemma_find_point_skip(entries@, key@, i as int);
                assert(entries@.skip(i as int).first() == entries@[i as int]);
            }
            return Some(entries[i].point);
        }
        i = i + 1;
    }
    proof {
        lemma_find_point_skip(entries@, key@, n as int);
    }
    None
}

impl Location {
    /// The canonical display name derived from the identifier.
    pub fn name(&self) -> (r: String)
        ensures
            r@ == location_display(self.id@),
    {
        location_display_name(self.id.as_str())
    }

    /// The cached coordinate of this location: the first entry whose
    /// canonicalized display name is this location's identifier, or
    /// `MissingCoordinate` if none is.  (For an identifier satisfying the
    /// round-trip invariant that `validate_config` checks, the identifier
    /// is the canonicalized form of the location's own display name.)
    pub fn feature_coordinates(&self, features: &Vec<CacheEntry>) -> (r: Result<
        GeoPoint,
        RunError,
    >)
        ensures
            match find_point(features@, self.id@) {
                Some(p) => r matches Ok(q) && q == p,
                None => r matches Err(e) && e == RunError::MissingCoordinate,
            },
    {
        match point_for_key(features, self.id.as_str()) {
            Some(p) => Ok(p),
            None => Err(RunError::MissingCoordinate),
        }
    }
}

impl Country {
    /// The canonical display name derived from the identifier.
    pub fn name(&self) -> (r: String)
        ensures
            r@ == spaced(self.id@),
    {
        spaced_name(self.id.as_str())
    }

    /// The ISO alpha-3 code of this country, looked up by display name, or
    /// `IdentifierMismatch` if the table has no row for it.
    pub fn code(&self, cca3: &CountryCodes) -> (r: Result<String, RunError>)
        ensures
            match spec_code_of_name(cca3.codes@, spaced(self.id@)) {
                Some(c) => r matches Ok(s) && s@ == c,
                None => r matches Err(e) && e == RunError::IdentifierMismatch,
            },
    {
        let display = self.name();
        match cca3.code_of_name(display.as_str()) {
            Some(c) => Ok(c),
            None => Err(RunError::IdentifierMismatch),
        }
    }

    /// The country's local-language name: the value carried by its `Local`
    /// pseudo-location, if that slot is present and filled.
    pub fn local_name(&self) -> (r: Option<String>)
        ensures
            match spec_local_name(self.locations@) {
                Some(n) => r matches Some(s) && s@ == n,
                None => r is None,
            },
    {
        let n = self.locations.len();
        let mut i: usize = 0;
        while i < n
            invariant
                i <= n,
                n == self.locations@.len(),
                forall|j: int| 0 <= j < i ==> !is_local_id(self.locations@[j].id@),
            decreases n - i,
        {
            if str_eq(self.locations[i].id.as_str(), "Local") {
                proof {
                    lemma_local_name_skip(self.locations@, i as int);
                    assert(self.locations@.skip(i as int).first() == self.locations@[
                        i as int]);
                }
                return match &self.locations[i].local_name {
                    Some(s) => Some(s.clone()),
                    None => None,
                };
            }
            i = i + 1;
        }
        proof {
            lemma_local_name_skip(self.locations@, n as int);
        }
        None
    }
}

/// The local name carried by the first `Local` pseudo-location, if any.
pub open spec fn spec_local_name(locs: Seq<Location>) -> Option<Seq<char>>
    decreases locs.len(),
{
    if locs.len() == 0 {
        None
    } else if is_local_id(locs.first().id@) {
        match locs.first().local_name {
            Some(n) => Some(n@),
            None => None,
        }
    } else {
        spec_local_name(locs.drop_first())
    }
}

proof fn lemma_local_name_skip(locs: Seq<Location>, i: int)
    requires
        0 <= i <= locs.len(),
        forall|j: int| 0 <= j < i ==> !is_local_id(locs[j].id@),
    ensures
        spec_local_name(locs) == spec_local_name(locs.skip(i)),
    decreases i,
{
    if i == 0 {
        assert(locs.skip(0) =~= locs);
    } else {
        assert(!is_local_id(locs[0].id@));
        assert(forall|j: int| 0 <= j < i - 1 ==> !is_local_id(locs.drop_first()[j].id@));
        lemma_local_name_skip(locs.drop_first(), i - 1);
        assert(locs.drop_first().skip(i - 1) =~= locs.skip(i));
    }
}

impl Trip {
    /// The trip's identifier: its description with spaces and slashes
    /// removed, a collision-safe derivation shared with the generator.
    pub fn id_string(&self) -> (r: String)
        ensures
            r@ == strip2(self.description@, ' ', '/'),
    {
        retain_not(self.description.as_str(), ' ', '/')
    }
}

/// The code of the first table row whose country name matches.
pub open spec fn spec_code_of_name(codes: Seq<(String, String)>, name: Seq<char>) -> Option<
    Seq<char>,
>
    decreases codes.len(),
{
    if codes.len() == 0 {
        None
    } else if codes.first().0@ == name {
        Some(codes.first().1@)
    } else {
        spec_code_of_name(codes.drop_first(), name)
    }
}

/// The country name of the first table row whose code matches.
pub open spec fn spec_name_of_code(codes: Seq<(String, String)>, code: Seq<char>) -> Option<
    Seq<char>,
>
    decreases codes.len(),
{
    if codes.len() == 0 {
        None
    } else if codes.first().1@ == code {
        Some(codes.first().0@)
    } else {
        spec_name_of_code(codes.drop_first(), code)
    }
}

proof fn lemma_code_of_name_skip(codes: Seq<(String, String)>, name: Seq<char>, i: int)
    requires
        0 <= i <= codes.len(),
        forall|j: int| 0 <= j < i ==> codes[j].0@ != name,
    ensures
        spec_code_of_name(codes, name) == spec_code_of_name(codes.skip(i), name),
    decreases i,
{
    if i == 0 {
        assert(codes.skip(0) =~= codes);
    } else {
        assert(codes[0].0@ != name);
        assert(forall|j: int| 0 <= j < i - 1 ==> codes.drop_first()[j].0@ != name);
        lemma_code_of_name_skip(codes.drop_first(), name, i - 1);
        assert(codes.drop_first().skip(i - 1) =~= codes.skip(i));
    }
}

proof fn lemma_name_of_code_skip(codes: Seq<(String, String)>, code: Seq<char>, i: int)
    requires
        0 <= i <= codes.len(),
        forall|j: int| 0 <= j < i ==> codes[j].1@ != code,
    ensures
        spec_name_of_code(codes, code) == spec_name_of_code(codes.skip(i), code),
    decreases i,
{
    if i == 0 {
        assert(codes.skip(0) =~= codes);
    } else {
        assert(codes[0].1@ != code);
        assert(forall|j: int| 0 <= j < i - 1 ==> codes.drop_first()[j].1@ != code);
        lemma_name_of_code_skip(codes.drop_first(), code, i - 1);
        assert(codes.drop_first().skip(i - 1) =~= codes.skip(i));
    }
}

/// `v` lists exactly the character sequences `ids`, in order.
pub open spec fn views_match(v: Seq<String>, ids: Seq<Seq<char>>) -> bool {
    v.len() == ids.len() && forall|k: int| 0 <= k < v.len() ==> v[k]@ == ids[k]
}

/// The canonicalized key of every cache entry, in order.
pub fn cache_key_list(entries: &Vec<CacheEntry>) -> (r: Vec<String>)
    ensures
        r@.len() == entries@.len(),
        forall|k: int| 0 <= k < r@.len() ==> r@[k]@ == entry_key(entries@[k]),
{
    let mut r: Vec<String> = Vec::new();
    let n = entries.len();
    let mut i: usize = 0;
    while i < n
        invariant
            i <= n,
            n == entries@.len(),
            r@.len() == i,
            forall|k: int| 0 <= k < i ==> r@[k]@ == entry_key(entries@[k]),
        decreases n - i,
    {
        let key = crate::canon::to_location_identfier_string(entries[i].name.as_str());
        r.push(key);
        i = i + 1;
    }
    r
}

/// Whether one of the strings in `v` holds the characters of `s`.
pub fn contains_str(v: &Vec<String>, s: &str) -> (r: bool)
    ensures
        r == exists|i: int| 0 <= i < v@.len() && v@[i]@ == s@,
{
    let n = v.len();
    let mut i: usize = 0;
    while i < n
        invariant
            i <= n,
            n == v@.len(),
            forall|j: int| 0 <= j < i ==> v@[j]@ != s@,
        decreases n - i,
    {
        if str_eq(v[i].as_str(), s) {
            proof {
                assert(v@[i as int]@ == s@);
            }
            return true;
        }
        i = i + 1;
    }
    false
}

/// The (country, location) pairs of one country's location list, in
/// declaration order, with the `Local` pseudo-location left out.
pub open spec fn pairs_of(c: Country, locs: Seq<Location>) -> Seq<(Country, Location)>
    decreases locs.len(),
{
    if locs.len() == 0 {
        Seq::empty()
    } else {
        pairs_of(c, locs.drop_last()) + (if is_local_id(locs.last().id@) {
            Seq::empty()
        } else {
            seq![(c, locs.last())]
        })
    }
}

/// Every geocodable (country, location) pair of the configuration, in
/// configuration order.
pub open spec fn nonlocal_pairs(places: Seq<Country>) -> Seq<(Country, Location)>
    decreases places.len(),
{
    if places.len() == 0 {
        Seq::empty()
    } else {
        nonlocal_pairs(places.drop_last()) + pairs_of(
            places.last(),
            places.last().locations@,
        )
    }
}

/// `pairs_of` distributes over concatenation of location lists.
pub proof fn lemma_pairs_of_concat(c: Country, l1: Seq<Location>, l2: Seq<Location>)
    ensures
        pairs_of(c, l1 + l2) == pairs_of(c, l1) + pairs_of(c, l2),
    decreases l2.len(),
{
    if l2.len() == 0 {
        assert(l1 + l2 =~= l1);
        assert(pairs_of(c, l1) + pairs_of(c, l2) =~= pairs_of(c, l1));
    } else {
        assert((l1 + l2).drop_last() =~= l1 + l2.drop_last());
        assert((l1 + l2).last() == l2.last());
        lemma_pairs_of_concat(c, l1, l2.drop_last());
        let piece = if is_local_id(l2.last().id@) {
            Seq::<(Country, Location)>::empty()
        } else {
            seq![(c, l2.last())]
        };
        assert(pairs_of(c, l1 + l2) == pairs_of(c, l1) + pairs_of(c, l2.drop_last()) + piece);
        assert(pairs_of(c, l2) == pairs_of(c, l2.drop_last()) + piece);
        assert(pairs_of(c, l1) + pairs_of(c, l2.drop_last()) + piece =~= pairs_of(c, l1) + (
        pairs_of(c, l2.drop_last()) + piece));
    }
}

/// `nonlocal_pairs` distributes over concatenation of country lists.
pub proof fn lemma_nonlocal_pairs_concat(a: Seq<Country>, b: Seq<Country>)
    ensures
        nonlocal_pairs(a + b) == nonlocal_pairs(a) + nonlocal_pairs(b),
    decreases b.len(),
{
    if b.len() == 0 {
        assert(a + b =~= a);
        assert(nonlocal_pairs(a) + nonlocal_pairs(b) =~= nonlocal_pairs(a));
    } else {
        assert((a + b).drop_last() =~= a + b.drop_last());
        assert((a + b).last() == b.last());
        lemma_nonlocal_pairs_concat(a, b.drop_last());
        let piece = pairs_of(b.last(), b.last().locations@);
        assert(nonlocal_pairs(a + b) == nonlocal_pairs(a) + nonlocal_pairs(b.drop_last())
            + piece);
        assert(nonlocal_pairs(b) == nonlocal_pairs(b.drop_last()) + piece);
        assert(nonlocal_pairs(a) + nonlocal_pairs(b.drop_last()) + piece =~= nonlocal_pairs(a)
            + (nonlocal_pairs(b.drop_last()) + piece));
    }
}

/// The identifiers of every geocodable location, in configuration order.
pub open spec fn nonlocal_ids(places: Seq<Country>) -> Seq<Seq<char>> {
    nonlocal_pairs(places).map_values(|p: (Country, Location)| p.1.id@)
}

/// The declared country identifiers, in configuration order.
pub open spec fn country_id_list(places: Seq<Country>) -> Seq<Seq<char>> {
    places.map_values(|c: Country| c.id@)
}

/// No two elements of the sequence are equal.
pub open spec fn distinct_seqs(ids: Seq<Seq<char>>) -> bool {
    forall|k1: int, k2: int|
        #![trigger ids[k1], ids[k2]]
        0 <= k1 < k2 < ids.len() ==> ids[k1] != ids[k2]
}

/// Every geocodable identifier round-trips through display-name derivation
/// and canonicalization: the cache key of a location is its identifier.
pub open spec fn ids_round_trip(places: Seq<Country>) -> bool {
    forall|k: int|
        0 <= k < nonlocal_ids(places).len() ==> loc_key(#[trigger] nonlocal_ids(places)[k])
            == nonlocal_ids(places)[k]
}

/// A structurally valid configuration: country identifiers are unique,
/// location identifiers are globally unique across countries, and each
/// location identifier is the canonicalized form of its own display name.
pub open spec fn config_wf(c: Config) -> bool {
    &&& distinct_seqs(country_id_list(c.places@))
    &&& distinct_seqs(nonlocal_ids(c.places@))
    &&& ids_round_trip(c.places@)
}

impl CountryCodes {
    /// The ISO alpha-3 code filed under a country display name.
    pub fn code_of_name(&self, name: &str) -> (r: Option<String>)
        ensures
            match spec_code_of_name(self.codes@, name@) {
                Some(c) => r matches Some(s) && s@ == c,
                None => r is None,
            },
    {
        let n = self.codes.len();
        let mut i: usize = 0;
        while i < n
            invariant
                i <= n,
                n == self.codes@.len(),
                forall|j: int| 0 <= j < i ==> self.codes@[j].0@ != name@,
            decreases n - i,
        {
            if str_eq(self.codes[i].0.as_str(), name) {
                proof {
                    lemma_code_of_name_skip(self.codes@, name@, i as int);
                    assert(self.codes@.skip(i as int).first() == self.codes@[i as int]);
                }
                return Some(self.codes[i].1.clone());
            }
            i = i + 1;
        }
        proof {
            lemma_code_of_name_skip(self.codes@, name@, n as int);
        }
        None
    }

    /// The country display name filed under an ISO alpha-3 code.
    pub fn name_of_code(&self, code: &str) -> (r: Option<String>)
        ensures
            match spec_name_of_code(self.codes@, code@) {
                Some(c) => r matches Some(s) && s@ == c,
                None => r is None,
            },
    {
        let n = self.codes.len();
        let mut i: usize = 0;
        while i < n
            invariant
                i <= n,
                n == self.codes@.len(),
                forall|j: int| 0 <= j < i ==> self.codes@[j].1@ != code@,
            decreases n - i,
        {
            if str_eq(self.codes[i].1.as_str(), code) {
                proof {
                    lemma_name_of_code_skip(self.codes@, code@, i as int);
                    assert(self.codes@.skip(i as int).first() == self.codes@[i as int]);
                }
                return Some(self.codes[i].0.clone());
            }
            i = i + 1;
        }
        proof {
            lemma_name_of_code_skip(self.codes@, code@, n as int);
        }
        None
    }
}

} // verus!
