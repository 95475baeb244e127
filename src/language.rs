//! One entry of an Accept-Language header: a tag name and its weight.
use vstd::prelude::*;

use crate::quality::{
    decimal_eq, decimal_lt, decimal_one, decimal_same, decimal_zero, is_numeral, numeral_value, Decimal,
    Quality,
};
use crate::text::{chars_of, find_char, index_of, slice_chars, split_at_each, split_chars, string_of};

verus! {

/// What `str::to_lowercase` makes of a string.
pub uninterp spec fn lower_of(s: Seq<char>) -> Seq<char>;

/// Relies on `str::to_lowercase`: the result depends on the characters alone.
#[verifier::external_body]
fn lowercase(s: &str) -> (r: String)
    ensures
        r@ == lower_of(s@),
{
    s.to_lowercase()
}

/// The name of an entry: everything before its first `;`.
pub open spec fn tag_name(entry: Seq<char>) -> Seq<char> {
    entry.take(index_of(entry, ';'))
}

/// The weight stated after the `;` of an entry: the piece after `=` when the
/// text splits at `=` into exactly two pieces and that piece is a numeral,
/// else zero.
pub open spec fn weight_of(part: Seq<char>) -> Decimal {
    let pieces = split_at_each(part, '=');
    if pieces.len() == 2 && is_numeral(pieces[1]) {
        numeral_value(pieces[1])
    } else {
        decimal_zero()
    }
}

/// The weight of an entry: one when it has no `;`, else what follows the first `;` states.
pub open spec fn tag_quality(entry: Seq<char>) -> Decimal {
    let k = index_of(entry, ';');
    if k == entry.len() {
        decimal_one()
    } else {
        weight_of(entry.skip(k + 1))
    }
}

/// A language tag with its preference weight.  Two tags are equal when their
/// weights are the same (the same number, with the same sign, so `0` and `-0`
/// differ) and their names agree once lowercased.
#[derive(Debug)]
pub struct Language {
    pub name: String,
    pub quality: Quality,
}

impl Language {
    /// Reads one entry of a header (spaces already removed).
    pub fn new(tag: &str) -> (r: Language)
        ensures
            r.name@ == tag_name(tag@),
            r.quality@ == tag_quality(tag@),
    {
        let entry = chars_of(tag);
        Language::from_chars(&entry)
    }

    /// Reads one entry given as characters.
    pub fn from_chars(entry: &Vec<char>) -> (r: Language)
        ensures
            r.name@ == tag_name(entry@),
            r.quality@ == tag_quality(entry@),
    {
        let k = find_char(entry, ';');
        let name_chars = slice_chars(entry, 0, k);
        assert(name_chars@ =~= entry@.take(k as int));
        let name = string_of(name_chars.as_slice());
        let quality = if k == entry.len() {
            Quality::one()
        } else {
            let rest = slice_chars(entry, k + 1, entry.len());
            assert(rest@ =~= entry@.skip(k + 1));
            Language::weight_from_chars(&rest)
        };
        Language { name, quality }
    }

    /// The weight that the text after a `;` states (see `weight_of`).
    pub fn quality_with_default(raw_quality: &str) -> (r: Quality)
        ensures
            r@ == weight_of(raw_quality@),
    {
        let part = chars_of(raw_quality);
        Language::weight_from_chars(&part)
    }

    fn weight_from_chars(part: &Vec<char>) -> (r: Quality)
        ensures
            r@ == weight_of(part@),
    {
        let pieces = split_chars(part, '=');
        if pieces.len() == 2 {
            assert(pieces@.map_values(|p: Vec<char>| p@)[1] == pieces[1]@);
            match Quality::from_numeral(&pieces[1]) {
                Some(q) => q,
                None => Quality::zero(),
            }
        } else {
            Quality::zero()
        }
    }

    /// Preference order: the tag with the higher weight comes first (`Less`);
    /// tags of equal weight are `Equal`.
    pub fn cmp(&self, other: &Language) -> (r: core::cmp::Ordering)
        ensures
            (r == core::cmp::Ordering::Less) == decimal_lt(other.quality@, self.quality@),
            (r == core::cmp::Ordering::Greater) == decimal_lt(self.quality@, other.quality@),
            (r == core::cmp::Ordering::Equal) == decimal_eq(self.quality@, other.quality@),
    {
        other.quality.compare(&self.quality)
    }
}

impl PartialEq for Language {
    fn eq(&self, other: &Language) -> (r: bool) {
        if self.quality != other.quality {
            return false;
        }
        let a = lowercase(self.name.as_str());
        let b = lowercase(other.name.as_str());
        a == b
    }
}

impl vstd::std_specs::cmp::PartialEqSpecImpl for Language {
    open spec fn obeys_eq_spec() -> bool {
        true
    }

    open spec fn eq_spec(&self, other: &Language) -> bool {
        decimal_same(self.quality@, other.quality@) && lower_of(self.name@) == lower_of(other.name@)
    }
}

} // verus!
