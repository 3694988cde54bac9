//! The listing order as a three-way comparison of two entries.

use std::cmp::Ordering;
use vstd::prelude::*;
use crate::explorer::{DirEntry, entry_before, entry_precedes, entry_ties, lemma_entry_order};

verus! {

impl DirEntry {
    /// Compares two entries: directories first, then case-insensitive
    /// alphabetical order of the names.
    pub fn cmp(&self, other: &DirEntry) -> (r: Ordering)
        ensures
            (r == Ordering::Less) == entry_before(*self, *other),
            (r == Ordering::Greater) == entry_before(*other, *self),
            (r == Ordering::Equal) == entry_ties(*self, *other),
    {
        proof {
            lemma_entry_order(*self, *other, *self);
            lemma_entry_order(*other, *self, *other);
        }
        if entry_precedes(self, other) {
            Ordering::Less
        } else if entry_precedes(other, self) {
            Ordering::Greater
        } else {
            Ordering::Equal
        }
    }

    /// The same comparison as [`DirEntry::cmp`]; two entries are always
    /// comparable.
    pub fn partial_cmp(&self, other: &DirEntry) -> (r: Option<Ordering>)
        ensures
            r is Some,
            (r == Some(Ordering::Less)) == entry_before(*self, *other),
            (r == Some(Ordering::Greater)) == entry_before(*other, *self),
            (r == Some(Ordering::Equal)) == entry_ties(*self, *other),
    {
        Some(self.cmp(other))
    }
}

} // verus!
