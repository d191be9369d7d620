//! Reading the answer of `qmd collection add` when the wiki is registered
//! as a QMD search collection.

use vstd::prelude::*;
use crate::text::{chars_of, contains_chars, occurs_in};

verus! {

/// What registering the wiki with QMD came to.
#[derive(Debug, Clone, Copy, PartialEq, Eq, Structural)]
pub enum CollectionAdd {
    /// The collection was added.
    Added,
    /// A collection of that name was there already.
    AlreadyExists,
    /// `qmd` failed for another reason; its output is shown.
    Failed,
}

/// The words by which `qmd` says that the collection exists already.
pub open spec fn already_exists_text() -> Seq<char> {
    seq!['a', 'l', 'r', 'e', 'a', 'd', 'y', ' ', 'e', 'x', 'i', 's', 't', 's']
}

/// What a run of `qmd collection add` came to, from whether it succeeded
/// and what it wrote to standard error.
pub fn collection_add_outcome(success: bool, stderr: &str) -> (r: CollectionAdd)
    ensures
        success ==> r == CollectionAdd::Added,
        !success && occurs_in(stderr@, already_exists_text()) ==> r == CollectionAdd::AlreadyExists,
        !success && !occurs_in(stderr@, already_exists_text()) ==> r == CollectionAdd::Failed,
{
    if success {
        return CollectionAdd::Added;
    }
    let e = chars_of(stderr);
    let words: Vec<char> = vec!['a', 'l', 'r', 'e', 'a', 'd', 'y', ' ', 'e', 'x', 'i', 's', 't', 's'];
    assert(words@ =~= already_exists_text());
    if contains_chars(e.as_slice(), words.as_slice()) {
        CollectionAdd::AlreadyExists
    } else {
        CollectionAdd::Failed
    }
}

} // verus!
