//! Canonicalization of display names and identifiers.
//!
//! Cache entries are keyed by a canonicalized display name rather than by a
//! raw identifier, so one pure function — `to_location_identfier_string` —
//! owns that transform.  Its exceptions are kept here as data: the two city
//! names that collide with their country name ("Singapore" and "Hong Kong")
//! are disambiguated by appending "City", and one identifier
//! ("HoChiMinhCity") legitimately ends in "City" and keeps its suffix when a
//! display name is derived.

use vstd::prelude::*;
use vstd::string::StringExecFns;

verus! {

/// `s` with every occurrence of `a` and of `b` removed.
pub open spec fn strip2(s: Seq<char>, a: char, b: char) -> Seq<char>
    decreases s.len(),
{
    if s.len() == 0 {
        Seq::empty()
    } else {
        strip2(s.drop_last(), a, b) + (if s.last() != a && s.last() != b {
            seq![s.last()]
        } else {
            Seq::empty()
        })
    }
}

/// Removes every occurrence of `a` and of `b` from `s`.
pub fn retain_not(s: &str, a: char, b: char) -> (r: String)
    ensures
        r@ == strip2(s@, a, b),
{
    let n = s.unicode_len();
    let mut r = String::new();
    let mut i: usize = 0;
    while i < n
        invariant
            i <= n,
            n == s@.len(),
            r@ == strip2(s@.take(i as int), a, b),
        decreases n - i,
    {
        let c = s.get_char(i);
        if c != a && c != b {
            let piece = s.substring_char(i, i + 1);
            proof {
                assert(piece@ =~= seq![s@[i as int]]);
            }
            r.append(piece);
        }
        proof {
            let t1 = s@.take(i + 1 as int);
            assert(t1.drop_last() =~= s@.take(i as int));
            assert(t1.last() == s@[i as int]);
            if s@[i as int] != a && s@[i as int] != b {
                assert(strip2(t1, a, b) =~= strip2(s@.take(i as int), a, b) + seq![s@[
                    i as int]]);
            } else {
                assert(strip2(t1, a, b) =~= strip2(s@.take(i as int), a, b));
            }
        }
        i = i + 1;
    }
    proof {
        assert(s@.take(n as int) =~= s@);
    }
    r
}

/// Whether two string slices hold the same characters.
pub fn str_eq(a: &str, b: &str) -> (r: bool)
    ensures
        r == (a@ == b@),
{
    let sa = String::from_str(a);
    let sb = String::from_str(b);
    sa == sb
}

/// Display name → cache/lookup key: strip all spaces, then disambiguate
/// the two names that collide with their country name.
pub open spec fn canon_spec(s: Seq<char>) -> Seq<char> {
    let stripped = strip2(s, ' ', ' ');
    if stripped == "Singapore"@ || stripped == "HongKong"@ {
        stripped + "City"@
    } else {
        stripped
    }
}

/// Canonicalizes a display name into the stable key used by the cache and
/// by every identifier lookup.
pub fn to_location_identfier_string(from: &str) -> (r: String)
    ensures
        r@ == canon_spec(from@),
{
    let mut identifier = retain_not(from, ' ', ' ');
    let special = str_eq(identifier.as_str(), "Singapore") || str_eq(
        identifier.as_str(),
        "HongKong",
    );
    if special {
        identifier.append("City");
    }
    identifier
}

/// An ASCII capital letter; identifiers use these to mark word boundaries.
pub open spec fn is_ascii_upper(c: char) -> bool {
    'A' <= c && c <= 'Z'
}

/// Identifier → display name: a space is inserted before every capital
/// letter except the leading one ("CzechRepublic" → "Czech Republic").
pub open spec fn spaced(s: Seq<char>) -> Seq<char>
    decreases s.len(),
{
    if s.len() == 0 {
        Seq::empty()
    } else {
        spaced(s.drop_last()) + (if s.len() > 1 && is_ascii_upper(s.last()) {
            seq![' ', s.last()]
        } else {
            seq![s.last()]
        })
    }
}

/// Derives the display name of an identifier by inserting word breaks.
pub fn spaced_name(s: &str) -> (r: String)
    ensures
        r@ == spaced(s@),
{
    let n = s.unicode_len();
    let mut r = String::new();
    let mut i: usize = 0;
    while i < n
        invariant
            i <= n,
            n == s@.len(),
            r@ == spaced(s@.take(i as int)),
        decreases n - i,
    {
        let c = s.get_char(i);
        if i > 0 && 'A' <= c && c <= 'Z' {
            r.append(" ");
            proof {
                reveal_strlit(" ");
            }
        }
        let piece = s.substring_char(i, i + 1);
        proof {
            assert(piece@ =~= seq![s@[i as int]]);
        }
        r.append(piece);
        proof {
            let t = s@.take(i + 1 as int);
            assert(t.drop_last() =~= s@.take(i as int));
            assert(t.last() == s@[i as int]);
            if i > 0 && is_ascii_upper(s@[i as int]) {
                assert(r@ =~= spaced(t.drop_last()) + seq![' ', t.last()]);
            } else {
                assert(r@ =~= spaced(t.drop_last()) + seq![t.last()]);
            }
        }
        i = i + 1;
    }
    proof {
        assert(s@.take(n as int) =~= s@);
    }
    r
}

/// The index of the first occurrence of `c` in `s`.
pub open spec fn first_index_of(s: Seq<char>, c: char) -> Option<int>
    decreases s.len(),
{
    if s.len() == 0 {
        None
    } else if s.first() == c {
        Some(0)
    } else {
        match first_index_of(s.drop_first(), c) {
            Some(i) => Some(i + 1),
            None => None,
        }
    }
}

proof fn lemma_first_index_skip(s: Seq<char>, c: char, i: int)
    requires
        0 <= i <= s.len(),
        forall|j: int| 0 <= j < i ==> s[j] != c,
    ensures
        first_index_of(s, c) == match first_index_of(s.skip(i), c) {
            Some(d) => Some(d + i),
            None => None::<int>,
        },
    decreases i,
{
    if i == 0 {
        assert(s.skip(0) =~= s);
    } else {
        assert(s[0] != c);
        assert(forall|j: int| 0 <= j < i - 1 ==> s.drop_first()[j] != c);
        lemma_first_index_skip(s.drop_first(), c, i - 1);
        assert(s.drop_first().skip(i - 1) =~= s.skip(i));
    }
}

/// What a found (or absent) first index means for the characters of `s`.
pub proof fn lemma_first_index_props(s: Seq<char>, c: char)
    ensures
        match first_index_of(s, c) {
            Some(d) => 0 <= d < s.len() && s[d] == c && (forall|j: int|
                0 <= j < d ==> s[j] != c),
            None => forall|j: int| 0 <= j < s.len() ==> s[j] != c,
        },
    decreases s.len(),
{
    if s.len() > 0 && s.first() != c {
        lemma_first_index_props(s.drop_first(), c);
        assert(forall|j: int| 1 <= j < s.len() ==> s[j] == s.drop_first()[j - 1]);
    }
}

/// Finds the first occurrence of `c` in `s`.
pub fn find_char(s: &str, c: char) -> (r: Option<usize>)
    ensures
        match first_index_of(s@, c) {
            Some(d) => r matches Some(x) && x as int == d,
            None => r is None,
        },
{
    let n = s.unicode_len();
    let mut i: usize = 0;
    while i < n
        invariant
            i <= n,
            n == s@.len(),
            forall|j: int| 0 <= j < i ==> s@[j] != c,
        decreases n - i,
    {
        if s.get_char(i) == c {
            proof {
                lemma_first_index_skip(s@, c, i as int);
                assert(s@.skip(i as int).first() == s@[i as int]);
            }
            return Some(i);
        }
        i = i + 1;
    }
    proof {
        lemma_first_index_skip(s@, c, n as int);
    }
    None
}

/// The one identifier whose display name legitimately keeps a "City"
/// suffix; every other derived name ending in " City" drops it.
pub open spec fn keeps_city_suffix(id: Seq<char>) -> bool {
    id == "HoChiMinhCity"@
}

/// Identifier → display name for a location: word breaks, with a trailing
/// " City" removed unless the identifier is the documented exception
/// ("SingaporeCity" → "Singapore", "HoChiMinhCity" → "Ho Chi Minh City").
pub open spec fn location_display(id: Seq<char>) -> Seq<char> {
    let base = spaced(id);
    if base.len() >= 5 && base.skip(base.len() - 5) == " City"@ && !keeps_city_suffix(id) {
        base.take(base.len() - 5)
    } else {
        base
    }
}

/// Derives the display name of a location identifier.
pub fn location_display_name(id: &str) -> (r: String)
    ensures
        r@ == location_display(id@),
{
    let base = spaced_name(id);
    let n = base.as_str().unicode_len();
    if n >= 5 {
        let tail = base.as_str().substring_char(n - 5, n);
        proof {
            assert(tail@ =~= base@.skip(n - 5 as int));
        }
        if str_eq(tail, " City") && !str_eq(id, "HoChiMinhCity") {
            let head = base.as_str().substring_char(0, n - 5);
            proof {
                assert(head@ =~= base@.take(n - 5 as int));
            }
            return String::from_str(head);
        }
    }
    base
}

} // verus!
