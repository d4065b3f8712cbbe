//! Splitting records into words.
use vstd::prelude::*;
use crate::text::split_words;

verus! {

/// The whitespace-separated words of `buffer`, in order.
pub fn get_word_vector(buffer: &str) -> (r: Vec<&str>)
    ensures
        r.len() == split_words(buffer@).len(),
        forall|i: int| 0 <= i < r.len() ==> (#[trigger] r[i])@ == split_words(buffer@)[i],
{
    crate::socketinfo::utils::split_text_by_words(buffer)
}

} // verus!
