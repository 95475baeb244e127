//! Ranking the entries of a header: higher weight first, and among entries of
//! equal weight the one written earlier first.
use vstd::prelude::*;

use crate::language::{tag_name, tag_quality, Language};
use crate::quality::{decimal_eq, decimal_lt, lemma_compare_at_scale, Decimal};
use crate::text::{chars_of, find_char, remove_spaces, split_at_each, split_chars, without_spaces};

verus! {

/// The entries of a header: its text without spaces, split at each comma.
pub open spec fn entries(raw: Seq<char>) -> Seq<Seq<char>> {
    split_at_each(without_spaces(raw), ',')
}

/// Entry `i` is preferred to entry `j`: it has the higher weight, or the same
/// weight and comes first.
pub open spec fn precedes(es: Seq<Seq<char>>, i: int, j: int) -> bool {
    let qi = tag_quality(es[i]);
    let qj = tag_quality(es[j]);
    decimal_lt(qj, qi) || (decimal_eq(qi, qj) && i < j)
}

/// `order` lists the indices of the entries that have a name, each once, most preferred first.
pub open spec fn is_ranking(es: Seq<Seq<char>>, order: Seq<int>) -> bool {
    &&& forall|a: int|
        0 <= a < order.len() ==> 0 <= #[trigger] order[a] < es.len() && tag_name(
            es[order[a]],
        ).len() > 0
    &&& forall|k: int| 0 <= k < es.len() && tag_name(es[k]).len() > 0 ==> order.contains(k)
    &&& forall|a: int, b: int|
        0 <= a < b < order.len() ==> precedes(es, #[trigger] order[a], #[trigger] order[b])
}

/// The ranking of a list of entries: there is at most one (`lemma_ranking_unique`),
/// and `ranked` builds it.
pub open spec fn ranking(es: Seq<Seq<char>>) -> Seq<int> {
    choose|order: Seq<int>| is_ranking(es, order)
}

/// The named entries of a header with their weights, most preferred first.
pub open spec fn ranked_entries(raw: Seq<char>) -> Seq<(Seq<char>, Decimal)> {
    let es = entries(raw);
    ranking(es).map_values(|k: int| (tag_name(es[k]), tag_quality(es[k])))
}

/// The tag names of a header, most preferred first.
pub open spec fn parsed(raw: Seq<char>) -> Seq<Seq<char>> {
    ranked_entries(raw).map_values(|p: (Seq<char>, Decimal)| p.0)
}

pub proof fn lemma_precedes_transitive(es: Seq<Seq<char>>, i: int, j: int, k: int)
    requires
        precedes(es, i, j),
        precedes(es, j, k),
    ensures
        precedes(es, i, k),
{
    let qi = tag_quality(es[i]);
    let qj = tag_quality(es[j]);
    let qk = tag_quality(es[k]);
    let s = qi.frac.len() + qj.frac.len() + qk.frac.len();
    lemma_compare_at_scale(qi, qj, s);
    lemma_compare_at_scale(qj, qi, s);
    lemma_compare_at_scale(qj, qk, s);
    lemma_compare_at_scale(qk, qj, s);
    lemma_compare_at_scale(qi, qk, s);
    lemma_compare_at_scale(qk, qi, s);
}

pub proof fn lemma_precedes_asymmetric(es: Seq<Seq<char>>, i: int, j: int)
    requires
        precedes(es, i, j),
    ensures
        !precedes(es, j, i),
{
    let qi = tag_quality(es[i]);
    let qj = tag_quality(es[j]);
    let s = qi.frac.len() + qj.frac.len();
    lemma_compare_at_scale(qi, qj, s);
    lemma_compare_at_scale(qj, qi, s);
}

/// A preferred entry never has the lower weight.
pub proof fn lemma_precedes_descending(es: Seq<Seq<char>>, i: int, j: int)
    requires
        precedes(es, i, j),
    ensures
        !decimal_lt(tag_quality(es[i]), tag_quality(es[j])),
{
    let qi = tag_quality(es[i]);
    let qj = tag_quality(es[j]);
    let s = qi.frac.len() + qj.frac.len();
    lemma_compare_at_scale(qi, qj, s);
    lemma_compare_at_scale(qj, qi, s);
}

/// A list of entries has at most one ranking.
pub proof fn lemma_ranking_unique(es: Seq<Seq<char>>, o1: Seq<int>, o2: Seq<int>)
    requires
        is_ranking(es, o1),
        is_ranking(es, o2),
    ensures
        o1 == o2,
{
    lemma_agree_from(es, o1, o2, 0);
}

proof fn lemma_precedes_irreflexive(es: Seq<Seq<char>>, i: int)
    ensures
        !precedes(es, i, i),
{
    let q = tag_quality(es[i]);
    lemma_compare_at_scale(q, q, q.frac.len());
}

/// Two rankings that agree before position `p` agree everywhere: at the first
/// position where they differ, each would have to prefer its own entry to the other's.
proof fn lemma_agree_from(es: Seq<Seq<char>>, o1: Seq<int>, o2: Seq<int>, p: int)
    requires
        is_ranking(es, o1),
        is_ranking(es, o2),
        0 <= p <= o1.len(),
        p <= o2.len(),
        forall|t: int| 0 <= t < p ==> o1[t] == o2[t],
    ensures
        o1 == o2,
    decreases o1.len() - p,
{
    let n = if o1.len() < o2.len() {
        o1.len() as int
    } else {
        o2.len() as int
    };
    if p < n && o1[p] == o2[p] {
        lemma_agree_from(es, o1, o2, p + 1);
    } else if p < n {
        let x = o1[p];
        let y = o2[p];
        assert(o1.contains(y));
        let p1 = choose|t: int| 0 <= t < o1.len() && o1[t] == y;
        assert(o2.contains(x));
        let p2 = choose|t: int| 0 <= t < o2.len() && o2[t] == x;
        if p1 < p {
            assert(o2[p1] == y);
            lemma_precedes_irreflexive(es, y);
            assert(precedes(es, o2[p1], o2[p]));
        } else if p2 < p {
            assert(o1[p2] == x);
            lemma_precedes_irreflexive(es, x);
            assert(precedes(es, o1[p2], o1[p]));
        } else {
            assert(p1 != p);
            assert(precedes(es, o1[p], o1[p1]));
            assert(p2 != p);
            assert(precedes(es, o2[p], o2[p2]));
            lemma_precedes_asymmetric(es, x, y);
        }
    } else if o1.len() < o2.len() {
        let y = o2[p];
        assert(o1.contains(y));
        let p1 = choose|t: int| 0 <= t < o1.len() && o1[t] == y;
        assert(o2[p1] == y);
        lemma_precedes_irreflexive(es, y);
        assert(precedes(es, o2[p1], o2[p]));
    } else if o2.len() < o1.len() {
        let x = o1[p];
        assert(o2.contains(x));
        let p2 = choose|t: int| 0 <= t < o2.len() && o2[t] == x;
        assert(o1[p2] == x);
        lemma_precedes_irreflexive(es, x);
        assert(precedes(es, o1[p2], o1[p]));
    } else {
        assert(o1 =~= o2);
    }
}

/// The named entries of a header, most preferred first: spaces are removed,
/// the text is split at each comma, each piece is read as a tag, the tags are
/// ordered by descending weight (keeping the written order among equal
/// weights), and tags with an empty name are left out.
pub fn ranked(raw_languages: &str) -> (r: Vec<Language>)
    ensures
        r@.map_values(|l: Language| (l.name@, l.quality@)) == ranked_entries(raw_languages@),
        is_ranking(entries(raw_languages@), ranking(entries(raw_languages@))),
        forall|a: int| 0 <= a < r.len() ==> (#[trigger] r[a]).name@.len() > 0,
        forall|a: int, b: int|
            0 <= a < b < r.len() ==> !decimal_lt(
                (#[trigger] r[a]).quality@,
                (#[trigger] r[b]).quality@,
            ),
{
    let chars = chars_of(raw_languages);
    let stripped = remove_spaces(&chars);
    let pieces = split_chars(&stripped, ',');
    let ghost es = entries(raw_languages@);
    let mut sorted: Vec<Language> = Vec::new();
    let ghost mut order: Seq<int> = Seq::empty();
    let mut i: usize = 0;
    while i < pieces.len()
        invariant
            i <= pieces.len(),
            pieces@.map_values(|p: Vec<char>| p@) == es,
            sorted.len() == order.len(),
            forall|a: int|
                0 <= a < order.len() ==> 0 <= #[trigger] order[a] < i && tag_name(
                    es[order[a]],
                ).len() > 0,
            forall|k: int| 0 <= k < i && tag_name(es[k]).len() > 0 ==> order.contains(k),
            forall|a: int, b: int|
                0 <= a < b < order.len() ==> precedes(es, #[trigger] order[a], #[trigger] order[b]),
            forall|a: int|
                0 <= a < sorted.len() ==> (#[trigger] sorted[a]).name@ == tag_name(es[order[a]])
                    && sorted[a].quality@ == tag_quality(es[order[a]]),
        decreases pieces.len() - i,
    {
        assert(pieces[i as int]@ == es[i as int]);
        let k = find_char(&pieces[i], ';');
        if k > 0 {
            let tag = Language::from_chars(&pieces[i]);
            let mut p: usize = 0;
            let mut stop = false;
            while !stop && p < sorted.len()
                invariant
                    p <= sorted.len(),
                    sorted.len() == order.len(),
                    i < pieces.len(),
                    pieces@.map_values(|p: Vec<char>| p@) == es,
                    tag.quality@ == tag_quality(es[i as int]),
                    forall|a: int| 0 <= a < order.len() ==> 0 <= #[trigger] order[a] < i,
                    forall|a: int|
                        0 <= a < sorted.len() ==> (#[trigger] sorted[a]).name@ == tag_name(
                            es[order[a]],
                        ) && sorted[a].quality@ == tag_quality(es[order[a]]),
                    forall|a: int| 0 <= a < p ==> precedes(es, #[trigger] order[a], i as int),
                    stop ==> p < sorted.len() && precedes(es, i as int, order[p as int]),
                decreases sorted.len() - p + if stop {
                    0int
                } else {
                    1int
                },
            {
                match tag.cmp(&sorted[p]) {
                    core::cmp::Ordering::Less => {
                        stop = true;
                    },
                    _ => {
                        p = p + 1;
                    },
                }
            }
            let ghost old_order = order;
            proof {
                order = order.insert(p as int, i as int);
                assert forall|a: int, b: int| 0 <= a < b < order.len() implies precedes(
                    es,
                    #[trigger] order[a],
                    #[trigger] order[b],
                ) by {
                    if b < p {
                        assert(order[a] == old_order[a] && order[b] == old_order[b]);
                    } else if b == p {
                        assert(order[a] == old_order[a]);
                    } else if a < p {
                        assert(order[a] == old_order[a] && order[b] == old_order[b - 1]);
                    } else if a == p {
                        assert(order[b] == old_order[b - 1]);
                        if b - 1 > p {
                            lemma_precedes_transitive(
                                es,
                                i as int,
                                old_order[p as int],
                                old_order[b - 1],
                            );
                        }
                    } else {
                        assert(order[a] == old_order[a - 1] && order[b] == old_order[b - 1]);
                    }
                }
                assert forall|q: int| 0 <= q < i + 1 && tag_name(es[q]).len() > 0 implies order.contains(
                    q,
                ) by {
                    if q == i {
                        assert(order[p as int] == q);
                    } else {
                        assert(old_order.contains(q));
                        let t = choose|t: int| 0 <= t < old_order.len() && old_order[t] == q;
                        if t < p {
                            assert(order[t] == q);
                        } else {
                            assert(order[t + 1] == q);
                        }
                    }
                }
                assert(tag_name(es[i as int]).len() > 0);
            }
            sorted.insert(p, tag);
        } else {
            proof {
                assert(tag_name(es[i as int]).len() == 0);
                assert forall|q: int| 0 <= q < i + 1 && tag_name(es[q]).len() > 0 implies order.contains(
                    q,
                ) by {}
            }
        }
        i = i + 1;
    }
    proof {
        assert(es.len() == pieces.len());
        assert(is_ranking(es, order));
        lemma_ranking_unique(es, order, ranking(es));
        assert forall|a: int, b: int| 0 <= a < b < sorted.len() implies !decimal_lt(
            (#[trigger] sorted[a]).quality@,
            (#[trigger] sorted[b]).quality@,
        ) by {
            lemma_precedes_descending(es, order[a], order[b]);
        }
        assert(sorted@.map_values(|l: Language| (l.name@, l.quality@)) =~= ranked_entries(
            raw_languages@,
        ));
    }
    sorted
}

} // verus!
