//! Reading the HTTP `Accept-Language` header: the languages a client prefers,
//! most preferred first, and the part of them that an application supports.
use vstd::prelude::*;

pub mod language;
pub mod quality;
pub mod ranking;
pub mod text;

pub use language::Language;
pub use quality::Quality;
pub use ranking::ranked;

use quality::Decimal;
use ranking::{entries, is_ranking, parsed, ranked_entries, ranking};
use text::{chars_lt, chars_of, compare_chars, lemma_chars_lt_irreflexive, same_chars};

verus! {

/// The views of a list of strings.
pub open spec fn views(s: Seq<&str>) -> Seq<Seq<char>> {
    s.map_values(|x: &str| x@)
}

/// The names of a header, most preferred first, that `supported` holds.
pub open spec fn common(raw: Seq<char>, supported: Seq<Seq<char>>) -> Seq<Seq<char>> {
    parsed(raw).filter(|n: Seq<char>| supported.contains(n))
}

/// `s` is in ascending lexicographic order (equal neighbours allowed).
pub open spec fn sorted_ascending(s: Seq<Seq<char>>) -> bool {
    forall|i: int, j: int| 0 <= i < j < s.len() ==> !chars_lt(#[trigger] s[j], #[trigger] s[i])
}

/// The language tags of a raw Accept-Language header value, most preferred
/// first.  No tag is empty, and the order is the header's one ranking:
/// descending weight, and the written order among tags of equal weight.
pub fn parse(raw_languages: &str) -> (r: Vec<String>)
    ensures
        r@.map_values(|s: String| s@) == parsed(raw_languages@),
        forall|i: int| 0 <= i < r.len() ==> (#[trigger] r[i])@.len() > 0,
        is_ranking(entries(raw_languages@), ranking(entries(raw_languages@))),
{
    let tags = ranked(raw_languages);
    let names = names_of(&tags);
    names
}

/// Every tag that `intersection` returns is one that `parse` returns and that
/// `supported` holds.
pub proof fn lemma_intersection_within_parse(raw: Seq<char>, supported: Seq<Seq<char>>)
    ensures
        forall|n: Seq<char>|
            #[trigger] common(raw, supported).contains(n) ==> parsed(raw).contains(n)
                && supported.contains(n),
{
    let p = parsed(raw);
    assert forall|n: Seq<char>| #[trigger] common(raw, supported).contains(n) implies p.contains(n)
        && supported.contains(n) by {
        let c = common(raw, supported);
        let k = choose|k: int| 0 <= k < c.len() && c[k] == n;
        p.lemma_filter_pred(|m: Seq<char>| supported.contains(m), k);
        p.lemma_filter_contains_rev(|m: Seq<char>| supported.contains(m), n);
    }
}

/// The order of the supported list does not matter: `intersection` on a list
/// and `intersection_ordered` on the same list sorted give the same tags.
pub proof fn lemma_intersection_ignores_supported_order(
    raw: Seq<char>,
    supported: Seq<Seq<char>>,
    sorted: Seq<Seq<char>>,
)
    requires
        sorted.to_multiset() == supported.to_multiset(),
        sorted_ascending(sorted),
    ensures
        common(raw, supported) == common(raw, sorted),
{
    broadcast use vstd::seq_lib::group_to_multiset_ensures;

    assert forall|n: Seq<char>| supported.contains(n) == sorted.contains(n) by {
        assert(supported.contains(n) <==> supported.to_multiset().count(n) > 0);
        assert(sorted.contains(n) <==> sorted.to_multiset().count(n) > 0);
    }
    assert((|n: Seq<char>| supported.contains(n)) =~= (|n: Seq<char>| sorted.contains(n)));
}

fn chars_of_all(strs: &[&str]) -> (r: Vec<Vec<char>>)
    ensures
        r@.map_values(|v: Vec<char>| v@) == views(strs@),
{
    let mut r: Vec<Vec<char>> = Vec::new();
    let mut i: usize = 0;
    while i < strs.len()
        invariant
            i <= strs.len(),
            r.len() == i,
            forall|j: int| 0 <= j < i ==> (#[trigger] r[j])@ == strs[j]@,
        decreases strs.len() - i,
    {
        let chars = chars_of(strs[i]);
        r.push(chars);
        i = i + 1;
    }
    assert(r@.map_values(|v: Vec<char>| v@) =~= views(strs@));
    r
}

fn contains_linear(haystack: &Vec<Vec<char>>, needle: &Vec<char>) -> (r: bool)
    ensures
        r == haystack@.map_values(|v: Vec<char>| v@).contains(needle@),
{
    let ghost hs = haystack@.map_values(|v: Vec<char>| v@);
    let mut i: usize = 0;
    while i < haystack.len()
        invariant
            i <= haystack.len(),
            hs == haystack@.map_values(|v: Vec<char>| v@),
            forall|t: int| 0 <= t < i ==> hs[t] != needle@,
        decreases haystack.len() - i,
    {
        if same_chars(&haystack[i], needle) {
            assert(hs[i as int] == needle@);
            return true;
        }
        i = i + 1;
    }
    false
}

fn contains_sorted(haystack: &Vec<Vec<char>>, needle: &Vec<char>) -> (r: bool)
    requires
        sorted_ascending(haystack@.map_values(|v: Vec<char>| v@)),
    ensures
        r == haystack@.map_values(|v: Vec<char>| v@).contains(needle@),
{
    let ghost hs = haystack@.map_values(|v: Vec<char>| v@);
    let mut lo: usize = 0;
    let mut hi: usize = haystack.len();
    while lo < hi
        invariant
            lo <= hi <= haystack.len(),
            hs == haystack@.map_values(|v: Vec<char>| v@),
            sorted_ascending(hs),
            forall|t: int| 0 <= t < lo ==> hs[t] != needle@,
            forall|t: int| hi <= t < hs.len() ==> hs[t] != needle@,
        decreases hi - lo,
    {
        let mid = lo + (hi - lo) / 2;
        assert(hs[mid as int] == haystack[mid as int]@);
        proof {
            lemma_chars_lt_irreflexive(needle@);
        }
        match compare_chars(needle, &haystack[mid]) {
            core::cmp::Ordering::Equal => {
                assert(hs[mid as int] == needle@);
                return true;
            },
            core::cmp::Ordering::Less => {
                assert forall|t: int| mid <= t < hs.len() implies hs[t] != needle@ by {
                    if t > mid {
                        assert(!chars_lt(hs[t], hs[mid as int]));
                    }
                }
                hi = mid;
            },
            core::cmp::Ordering::Greater => {
                assert forall|t: int| 0 <= t <= mid implies hs[t] != needle@ by {
                    if t < mid {
                        assert(!chars_lt(hs[mid as int], hs[t]));
                    }
                }
                lo = mid + 1;
            },
        }
    }
    false
}

/// Keeps the tags whose name `supported` holds, in order.
fn keep_supported(tags: Vec<Language>, supported: &Vec<Vec<char>>, sorted: bool) -> (r: Vec<
    Language,
>)
    requires
        sorted ==> sorted_ascending(supported@.map_values(|v: Vec<char>| v@)),
    ensures
        r@.map_values(|l: Language| (l.name@, l.quality@)) == tags@.map_values(
            |l: Language| (l.name@, l.quality@),
        ).filter(
            |e: (Seq<char>, Decimal)| supported@.map_values(|v: Vec<char>| v@).contains(e.0),
        ),
{
    let ghost sup = supported@.map_values(|v: Vec<char>| v@);
    let ghost all = tags@.map_values(|l: Language| (l.name@, l.quality@));
    let ghost n = tags.len();
    let mut rest = tags;
    let mut r: Vec<Language> = Vec::new();
    let ghost mut kept: Seq<(Seq<char>, Decimal)> = Seq::empty();
    let mut i: usize = 0;
    assert(all.take(0).filter(|e: (Seq<char>, Decimal)| sup.contains(e.0)) =~= kept) by {
        reveal_with_fuel(Seq::filter, 1);
    }
    while rest.len() > 0
        invariant
            i + rest.len() == n,
            all.len() == n,
            forall|j: int|
                0 <= j < rest.len() ==> ((#[trigger] rest[j]).name@, rest[j].quality@) == all[i
                    + j],
            sup == supported@.map_values(|v: Vec<char>| v@),
            sorted ==> sorted_ascending(sup),
            kept == all.take(i as int).filter(|e: (Seq<char>, Decimal)| sup.contains(e.0)),
            r.len() == kept.len(),
            forall|j: int|
                0 <= j < r.len() ==> ((#[trigger] r[j]).name@, r[j].quality@) == kept[j],
        decreases rest.len(),
    {
        let tag = rest.remove(0);
        let name_chars = chars_of(tag.name.as_str());
        let found = if sorted {
            contains_sorted(supported, &name_chars)
        } else {
            contains_linear(supported, &name_chars)
        };
        proof {
            let t = all.take(i + 1);
            assert(t.drop_last() =~= all.take(i as int));
            assert(t.last() == all[i as int]);
            reveal_with_fuel(Seq::filter, 1);
            assert(t.filter(|e: (Seq<char>, Decimal)| sup.contains(e.0)) == if sup.contains(
                all[i as int].0,
            ) {
                all.take(i as int).filter(|e: (Seq<char>, Decimal)| sup.contains(e.0)).push(
                    all[i as int],
                )
            } else {
                all.take(i as int).filter(|e: (Seq<char>, Decimal)| sup.contains(e.0))
            });
            assert(sup.contains(all[i as int].0) == found);
        }
        if found {
            proof {
                kept = kept.push(all[i as int]);
            }
            r.push(tag);
        }
        i = i + 1;
    }
    assert(all.take(i as int) =~= all);
    assert(r@.map_values(|l: Language| (l.name@, l.quality@)) =~= kept);
    r
}

fn names_of(tags: &Vec<Language>) -> (r: Vec<String>)
    ensures
        r@.map_values(|s: String| s@) == tags@.map_values(|l: Language| (l.name@, l.quality@)).map_values(
            |e: (Seq<char>, Decimal)| e.0,
        ),
        r.len() == tags.len(),
        forall|j: int| 0 <= j < r.len() ==> (#[trigger] r[j])@ == tags[j].name@,
{
    let mut names: Vec<String> = Vec::new();
    let mut i: usize = 0;
    while i < tags.len()
        invariant
            i <= tags.len(),
            names.len() == i,
            forall|j: int| 0 <= j < i ==> (#[trigger] names[j])@ == tags[j].name@,
        decreases tags.len() - i,
    {
        let name = tags[i].name.clone();
        names.push(name);
        i = i + 1;
    }
    assert(names@.map_values(|s: String| s@) =~= tags@.map_values(
        |l: Language| (l.name@, l.quality@),
    ).map_values(|e: (Seq<char>, Decimal)| e.0));
    names
}

/// Keeping the entries whose name is supported, then taking the names, is
/// taking the names, then keeping the supported ones.
proof fn lemma_filter_names(xs: Seq<(Seq<char>, Decimal)>, sup: Seq<Seq<char>>)
    ensures
        xs.filter(|e: (Seq<char>, Decimal)| sup.contains(e.0)).map_values(
            |e: (Seq<char>, Decimal)| e.0,
        ) == xs.map_values(|e: (Seq<char>, Decimal)| e.0).filter(|n: Seq<char>| sup.contains(n)),
    decreases xs.len(),
{
    reveal_with_fuel(Seq::filter, 1);
    if xs.len() > 0 {
        lemma_filter_names(xs.drop_last(), sup);
        assert(xs.map_values(|e: (Seq<char>, Decimal)| e.0).drop_last() =~= xs.drop_last().map_values(
            |e: (Seq<char>, Decimal)| e.0,
        ));
        assert(xs.filter(|e: (Seq<char>, Decimal)| sup.contains(e.0)).map_values(
            |e: (Seq<char>, Decimal)| e.0,
        ) =~= xs.map_values(|e: (Seq<char>, Decimal)| e.0).filter(|n: Seq<char>| sup.contains(n)));
    } else {
        assert(xs.map_values(|e: (Seq<char>, Decimal)| e.0) =~= Seq::<Seq<char>>::empty());
    }
}

/// The tags, with their weights, of a raw Accept-Language header value whose
/// name `supported_languages` holds, most preferred first.
pub fn ranked_intersection(raw_languages: &str, supported_languages: &[&str]) -> (r: Vec<Language>)
    ensures
        r@.map_values(|l: Language| (l.name@, l.quality@)) == ranked_entries(raw_languages@).filter(
            |e: (Seq<char>, Decimal)| views(supported_languages@).contains(e.0),
        ),
        is_ranking(entries(raw_languages@), ranking(entries(raw_languages@))),
{
    let tags = ranked(raw_languages);
    let supported = chars_of_all(supported_languages);
    keep_supported(tags, &supported, false)
}

/// As `ranked_intersection`, for a `supported_languages` in ascending order,
/// which it searches by bisection.
pub fn ranked_intersection_ordered(raw_languages: &str, supported_languages: &[&str]) -> (r: Vec<
    Language,
>)
    requires
        sorted_ascending(views(supported_languages@)),
    ensures
        r@.map_values(|l: Language| (l.name@, l.quality@)) == ranked_entries(raw_languages@).filter(
            |e: (Seq<char>, Decimal)| views(supported_languages@).contains(e.0),
        ),
        is_ranking(entries(raw_languages@), ranking(entries(raw_languages@))),
{
    let tags = ranked(raw_languages);
    let supported = chars_of_all(supported_languages);
    keep_supported(tags, &supported, true)
}

/// The tags of a raw Accept-Language header value that `supported_languages`
/// holds, most preferred first.
pub fn intersection(raw_languages: &str, supported_languages: &[&str]) -> (r: Vec<String>)
    ensures
        r@.map_values(|s: String| s@) == common(raw_languages@, views(supported_languages@)),
        is_ranking(entries(raw_languages@), ranking(entries(raw_languages@))),
{
    let tags = ranked_intersection(raw_languages, supported_languages);
    proof {
        lemma_filter_names(ranked_entries(raw_languages@), views(supported_languages@));
    }
    names_of(&tags)
}

/// As `intersection`, for a `supported_languages` in ascending order, which it
/// searches by bisection.
pub fn intersection_ordered(raw_languages: &str, supported_languages: &[&str]) -> (r: Vec<String>)
    requires
        sorted_ascending(views(supported_languages@)),
    ensures
        r@.map_values(|s: String| s@) == common(raw_languages@, views(supported_languages@)),
        is_ranking(entries(raw_languages@), ranking(entries(raw_languages@))),
{
    let tags = ranked_intersection_ordered(raw_languages, supported_languages);
    proof {
        lemma_filter_names(ranked_entries(raw_languages@), views(supported_languages@));
    }
    names_of(&tags)
}

} // verus!
