//! The library's laws: what a whole run guarantees, proved once and for
//! all from the contracts of the planner, the commit, and the generator.

use vstd::prelude::*;

use crate::canon::canon_spec;
use crate::canon::location_display;
use crate::canon::strip2;
use crate::manifest::Manifest;
use crate::manifest::country_entry_matches;
use crate::manifest::id_list;
use crate::model::CacheEntry;
use crate::model::Config;
use crate::model::Country;
use crate::model::Location;
use crate::model::config_wf;
use crate::model::country_id_list;
use crate::model::entry_key;
use crate::model::has_key;
use crate::model::loc_key;
use crate::model::nonlocal_ids;
use crate::model::nonlocal_pairs;
use crate::resolve::LookupOutcome;
use crate::resolve::PendingLookup;
use crate::resolve::entry_matches;
use crate::resolve::first_failure;
use crate::resolve::new_pairs_of;
use crate::resolve::outcome_ok;
use crate::resolve::pending_list_matches;
use crate::resolve::pending_matches;
use crate::resolve::pair_id_list;
use crate::resolve::spec_new_pairs;
use crate::diff::new_ids_of_pairs;

verus! {

/// Removing nothing leaves a sequence unchanged.
proof fn lemma_strip_noop(s: Seq<char>, a: char, b: char)
    requires
        forall|i: int| 0 <= i < s.len() ==> s[i] != a && s[i] != b,
    ensures
        strip2(s, a, b) == s,
    decreases s.len(),
{
    if s.len() == 0 {
        assert(strip2(s, a, b) =~= s);
    } else {
        assert forall|i: int| 0 <= i < s.len() - 1 implies s.drop_last()[i] != a
            && s.drop_last()[i] != b by {
            assert(s.drop_last()[i] == s[i]);
        }
        lemma_strip_noop(s.drop_last(), a, b);
        assert(s[s.len() - 1] != a && s[s.len() - 1] != b);
        assert(strip2(s, a, b) =~= s.drop_last() + seq![s.last()]);
        assert(s.drop_last() + seq![s.last()] =~= s);
    }
}

/// Canonicalization determinism: the transform is a pure function of its
/// input, so identical display names always canonicalize identically.
/// The two names that collide with their country name gain a "City"
/// suffix; every other name is only stripped of its spaces.
pub proof fn lemma_canonicalization()
    ensures
        canon_spec("Singapore"@) == "SingaporeCity"@,
        canon_spec("HongKong"@) == "HongKongCity"@,
        forall|s: Seq<char>|
            strip2(s, ' ', ' ') != "Singapore"@ && strip2(s, ' ', ' ') != "HongKong"@
                ==> #[trigger] canon_spec(s) == strip2(s, ' ', ' '),
{
    reveal_strlit("Singapore");
    reveal_strlit("SingaporeCity");
    reveal_strlit("HongKong");
    reveal_strlit("HongKongCity");
    reveal_strlit("City");
    assert(forall|i: int| 0 <= i < "Singapore"@.len() ==> "Singapore"@[i] != ' ');
    lemma_strip_noop("Singapore"@, ' ', ' ');
    assert("Singapore"@ + "City"@ =~= "SingaporeCity"@);
    assert(forall|i: int| 0 <= i < "HongKong"@.len() ==> "HongKong"@[i] != ' ');
    lemma_strip_noop("HongKong"@, ' ', ' ');
    assert("HongKong"@ + "City"@ =~= "HongKongCity"@);
    assert("Singapore"@ != "HongKong"@);
}

/// Every pair whose key the cache lacks appears among the pairs to
/// resolve.
proof fn lemma_new_pairs_complete(
    ps: Seq<(Country, Location)>,
    entries: Seq<CacheEntry>,
    i: int,
)
    requires
        0 <= i < ps.len(),
        !has_key(entries, loc_key(ps[i].1.id@)),
    ensures
        exists|k: int|
            0 <= k < new_pairs_of(ps, entries).len() && new_pairs_of(ps, entries)[k] == ps[i],
    decreases ps.len(),
{
    if i == ps.len() - 1 {
        let prev = new_pairs_of(ps.drop_last(), entries);
        assert(ps.last() == ps[i]);
        assert(new_pairs_of(ps, entries) == prev + seq![ps.last()]);
        assert(new_pairs_of(ps, entries)[prev.len() as int] == ps[i]);
    } else {
        assert(ps.drop_last()[i] == ps[i]);
        lemma_new_pairs_complete(ps.drop_last(), entries, i);
        let k = choose|k: int|
            0 <= k < new_pairs_of(ps.drop_last(), entries).len() && new_pairs_of(
                ps.drop_last(),
                entries,
            )[k] == ps.drop_last()[i];
        assert(new_pairs_of(ps, entries)[k] == ps[i]);
    }
}

/// A cache that holds every pair's key leaves nothing to resolve.
proof fn lemma_new_pairs_empty(ps: Seq<(Country, Location)>, entries: Seq<CacheEntry>)
    requires
        forall|i: int|
            0 <= i < ps.len() ==> has_key(entries, loc_key(#[trigger] ps[i].1.id@)),
    ensures
        new_pairs_of(ps, entries).len() == 0,
    decreases ps.len(),
{
    if ps.len() > 0 {
        assert forall|i: int| 0 <= i < ps.len() - 1 implies has_key(
            entries,
            loc_key(#[trigger] ps.drop_last()[i].1.id@),
        ) by {
            assert(ps.drop_last()[i] == ps[i]);
        }
        lemma_new_pairs_empty(ps.drop_last(), entries);
        assert(ps.last() == ps[ps.len() - 1]);
        assert(has_key(entries, loc_key(ps.last().1.id@)));
    }
}

/// Idempotence: after a fully successful run is committed, planning the
/// same configuration against the merged cache finds nothing left to
/// resolve — a rerun with unchanged configuration issues zero external
/// lookups.  `pending` and the appended entries are as `plan_resolution`
/// and `commit_run` guarantee them.
pub proof fn lemma_rerun_needs_no_lookup(
    places: Seq<Country>,
    entries0: Seq<CacheEntry>,
    entries1: Seq<CacheEntry>,
    pending: Seq<PendingLookup>,
    outcomes: Seq<LookupOutcome>,
    codes: Seq<(String, String)>,
)
    requires
        pending_list_matches(pending, spec_new_pairs(places, entries0), codes),
        outcomes.len() == pending.len(),
        entries1.len() == entries0.len() + pending.len(),
        forall|k: int| 0 <= k < entries0.len() ==> entries1[k] == entries0[k],
        forall|k: int|
            0 <= k < pending.len() ==> entry_matches(
                #[trigger] entries1[entries0.len() + k],
                pending[k],
                outcomes[k],
            ),
    ensures
        spec_new_pairs(places, entries1).len() == 0,
{
    let ps = nonlocal_pairs(places);
    assert forall|i: int| 0 <= i < ps.len() implies has_key(
        entries1,
        loc_key(#[trigger] ps[i].1.id@),
    ) by {
        let key = loc_key(ps[i].1.id@);
        if has_key(entries0, key) {
            let w = choose|w: int| 0 <= w < entries0.len() && entry_key(entries0[w]) == key;
            assert(entries1[w] == entries0[w]);
            assert(entry_key(entries1[w]) == key);
        } else {
            lemma_new_pairs_complete(ps, entries0, i);
            let k = choose|k: int|
                0 <= k < new_pairs_of(ps, entries0).len() && new_pairs_of(ps, entries0)[k]
                    == ps[i];
            assert(pending_matches(pending[k], ps[i], codes));
            let e = entries1[entries0.len() + k];
            assert(entry_matches(e, pending[k], outcomes[k]));
            assert(e.name@ == location_display(ps[i].1.id@));
            assert(entry_key(e) == key);
        }
    }
    lemma_new_pairs_empty(ps, entries1);
}

/// One lookup per new entity: the identifiers the diff reports as new
/// are, one for one and in the same order, the identifiers of the pairs
/// the planner turns into pending lookups — so a run issues exactly one
/// external query per new location and none for anything else.
pub proof fn lemma_one_lookup_per_new_location(
    ps: Seq<(Country, Location)>,
    entries: Seq<CacheEntry>,
)
    ensures
        new_ids_of_pairs(ps, entries) == pair_id_list(new_pairs_of(ps, entries)),
    decreases ps.len(),
{
    if ps.len() == 0 {
        assert(new_ids_of_pairs(ps, entries) =~= pair_id_list(new_pairs_of(ps, entries)));
    } else {
        lemma_one_lookup_per_new_location(ps.drop_last(), entries);
        if has_key(entries, loc_key(ps.last().1.id@)) {
            assert(new_ids_of_pairs(ps, entries) =~= new_ids_of_pairs(ps.drop_last(), entries));
            assert(new_pairs_of(ps, entries) =~= new_pairs_of(ps.drop_last(), entries));
        } else {
            assert(new_ids_of_pairs(ps, entries) =~= new_ids_of_pairs(ps.drop_last(), entries)
                + seq![ps.last().1.id@]);
            assert(new_pairs_of(ps, entries) =~= new_pairs_of(ps.drop_last(), entries) + seq![
                ps.last()]);
            assert(pair_id_list(new_pairs_of(ps.drop_last(), entries) + seq![ps.last()])
                =~= pair_id_list(new_pairs_of(ps.drop_last(), entries)) + seq![ps.last().1.id@]);
        }
    }
}

/// Monotonicity: a committed run only appends entries, so every key the
/// cache held before the run it still holds after it.
pub proof fn lemma_merge_monotone(
    entries0: Seq<CacheEntry>,
    entries1: Seq<CacheEntry>,
    key: Seq<char>,
)
    requires
        entries0.len() <= entries1.len(),
        forall|k: int| 0 <= k < entries0.len() ==> entries1[k] == entries0[k],
        has_key(entries0, key),
    ensures
        has_key(entries1, key),
{
    let w = choose|w: int| 0 <= w < entries0.len() && entry_key(entries0[w]) == key;
    assert(entry_key(entries1[w]) == key);
}

/// Atomic persistence: one failed resolution anywhere in the run means
/// the commit reports a failure — `commit_run` succeeds exactly when
/// `first_failure` is absent — so no merged cache exists and the
/// persisted cache stays byte-identical to its pre-run contents.
pub proof fn lemma_failed_lookup_aborts(outcomes: Seq<LookupOutcome>, i: int)
    requires
        0 <= i < outcomes.len(),
        !outcome_ok(outcomes[i]),
    ensures
        first_failure(outcomes) is Some,
    decreases i,
{
    if outcome_ok(outcomes.first()) {
        assert(i > 0);
        assert(outcomes.drop_first()[i - 1] == outcomes[i]);
        lemma_failed_lookup_aborts(outcomes.drop_first(), i - 1);
    }
}

/// Total coverage: in a generated manifest for a well-formed
/// configuration, every declared location identifier appears in the
/// location table exactly once, and the country table lists each declared
/// country identifier exactly once, in configuration order.
pub proof fn lemma_total_coverage(
    config: Config,
    m: Manifest,
    codes: Seq<(String, String)>,
)
    requires
        config_wf(config),
        m.countries@.len() == config.places@.len(),
        forall|i: int|
            0 <= i < config.places@.len() ==> country_entry_matches(
                #[trigger] m.countries@[i],
                config.places@[i],
                codes,
            ),
        id_list(m.locations@).to_multiset() == nonlocal_ids(config.places@).to_multiset(),
    ensures
        forall|k: int|
            0 <= k < nonlocal_ids(config.places@).len() ==> id_list(
                m.locations@,
            ).to_multiset().count(#[trigger] nonlocal_ids(config.places@)[k]) == 1,
        forall|i: int|
            0 <= i < config.places@.len() ==> #[trigger] m.countries@[i].id@
                == config.places@[i].id@,
        forall|i1: int, i2: int|
            #![trigger m.countries@[i1].id@, m.countries@[i2].id@]
            0 <= i1 < i2 < m.countries@.len() ==> m.countries@[i1].id@ != m.countries@[i2].id@,
{
    let ids = nonlocal_ids(config.places@);
    assert(ids.no_duplicates()) by {
        assert forall|i: int, j: int|
            0 <= i < ids.len() && 0 <= j < ids.len() && i != j implies ids[i] != ids[j] by {
            if i < j {
                assert(ids[i] != ids[j]);
            } else {
                assert(ids[j] != ids[i]);
            }
        }
    }
    ids.lemma_multiset_has_no_duplicates();
    assert forall|k: int| 0 <= k < ids.len() implies id_list(m.locations@).to_multiset().count(
        #[trigger] ids[k],
    ) == 1 by {
        ids.to_multiset_ensures();
        assert(ids.contains(ids[k]));
        assert(ids.to_multiset().count(ids[k]) == 1);
    }
    assert forall|i: int| 0 <= i < config.places@.len() implies #[trigger] m.countries@[i].id@
        == config.places@[i].id@ by {
        assert(country_entry_matches(m.countries@[i], config.places@[i], codes));
    }
    assert forall|i1: int, i2: int|
        0 <= i1 < i2 < m.countries@.len() implies #[trigger] m.countries@[i1].id@
        != #[trigger] m.countries@[i2].id@ by {
        assert(country_id_list(config.places@)[i1] == config.places@[i1].id@);
        assert(country_id_list(config.places@)[i2] == config.places@[i2].id@);
        assert(country_entry_matches(m.countries@[i1], config.places@[i1], codes));
        assert(country_entry_matches(m.countries@[i2], config.places@[i2], codes));
    }
}

} // verus!
