//! Sets of words held in `rustc_hash::FxHashSet`.
use vstd::prelude::*;
use rustc_hash::FxHashSet;

verus! {

#[verifier::external_type_specification]
#[verifier::external_body]
pub struct ExFxHasher(rustc_hash::FxHasher);

#[verifier::external_type_specification]
#[verifier::external_body]
#[verifier::reject_recursive_types(H)]
pub struct ExBuildHasherDefault<H>(std::hash::BuildHasherDefault<H>);

/// The words that a set holds.
pub uninterp spec fn word_set(s: FxHashSet<String>) -> Set<Seq<char>>;

/// The words listed in `v`.
pub open spec fn listed(v: Seq<String>) -> Set<Seq<char>> {
    Set::new(|w: Seq<char>| exists|i: int| 0 <= i < v.len() && v[i]@ == w)
}

/// Relies on `FxHashSet::default`: a new set is empty.
#[verifier::external_body]
pub(crate) fn new_word_set() -> (r: FxHashSet<String>)
    ensures
        word_set(r) == Set::<Seq<char>>::empty(),
{
    FxHashSet::default()
}

/// Relies on `HashSet::insert`: afterwards the set also holds `w`; strings
/// are equal exactly when their characters are.
#[verifier::external_body]
pub(crate) fn insert_word(s: &mut FxHashSet<String>, w: String)
    ensures
        word_set(*final(s)) == word_set(*old(s)).insert(w@),
{
    s.insert(w);
}

/// Relies on `HashSet::iter`: each word of the set is visited once; the
/// order of the visit is left open.
#[verifier::external_body]
pub(crate) fn words_in(s: &FxHashSet<String>) -> (r: Vec<String>)
    ensures
        listed(r@) == word_set(*s),
{
    s.iter().cloned().collect()
}

} // verus!
