//! The paths that a walk has seen, so that none is visited twice.

use vstd::prelude::*;

verus! {

/// The set of the patricia_tree crate, `patricia_tree::GenericPatriciaSet`:
/// nothing of its inside is known here.
#[verifier::external_type_specification]
#[verifier::external_body]
#[verifier::reject_recursive_types(T)]
pub struct ExGenericPatriciaSet<T>(patricia_tree::GenericPatriciaSet<T>);

/// The byte strings that a patricia set holds.
pub uninterp spec fn held(set: patricia_tree::GenericPatriciaSet<Vec<u8>>) -> Set<Seq<u8>>;

/// Calls `patricia_tree::GenericPatriciaSet::new`: the new set holds
/// nothing.
#[verifier::external_body]
fn empty_set() -> (set: patricia_tree::GenericPatriciaSet<Vec<u8>>)
    ensures
        held(set) == Set::<Seq<u8>>::empty(),
{
    patricia_tree::GenericPatriciaSet::new()
}

/// Calls `patricia_tree::GenericPatriciaSet::insert`: the value is in the
/// set afterwards, nothing else changes, and the result says whether the
/// value was missing before.
#[verifier::external_body]
fn insert_bytes(set: &mut patricia_tree::GenericPatriciaSet<Vec<u8>>, value: &[u8]) -> (fresh: bool)
    ensures
        fresh == !held(*old(set)).contains(value@),
        held(*final(set)) == held(*old(set)).insert(value@),
{
    set.insert(value)
}

/// The set of the canonical paths that a walk has met.
pub struct PathDeduplicator {
    set: patricia_tree::GenericPatriciaSet<Vec<u8>>,
}

impl PathDeduplicator {
    /// The paths seen so far, each as its bytes.
    pub closed spec fn seen(&self) -> Set<Seq<u8>> {
        held(self.set)
    }

    /// A deduplicator that has seen nothing.
    pub fn new() -> (dedup: Self)
        ensures
            dedup.seen() == Set::<Seq<u8>>::empty(),
    {
        Self { set: empty_set() }
    }

    /// Takes in a path, given as the bytes of its canonical form. Returns
    /// `true` if the path was not seen before.
    pub fn insert_path(&mut self, path: &[u8]) -> (fresh: bool)
        ensures
            fresh == !old(self).seen().contains(path@),
            final(self).seen() == old(self).seen().insert(path@),
    {
        insert_bytes(&mut self.set, path)
    }
}

impl Default for PathDeduplicator {
    fn default() -> (dedup: Self)
        ensures
            dedup.seen() == Set::<Seq<u8>>::empty(),
    {
        Self::new()
    }
}

/// A path that was taken in is never fresh again, whatever was taken in
/// between: of the visits of one file only the first goes on.
pub proof fn lemma_seen_stays_seen(before: Set<Seq<u8>>, path: Seq<u8>, later: Seq<Seq<u8>>)
    ensures
        seen_after(before.insert(path), later).contains(path),
    decreases later.len(),
{
    if later.len() > 0 {
        lemma_seen_stays_seen(before, path, later.drop_last());
    }
}

/// What has been seen after the paths of `more` were taken in, one by one.
pub open spec fn seen_after(seen: Set<Seq<u8>>, more: Seq<Seq<u8>>) -> Set<Seq<u8>>
    decreases more.len(),
{
    if more.len() == 0 {
        seen
    } else {
        seen_after(seen, more.drop_last()).insert(more.last())
    }
}

} // verus!
