//! Word-frequency accumulation: the rule the line loader applies to each
//! token it takes from the tokenizer.

use vstd::prelude::*;

verus! {

use crate::table::HashTable;
use crate::table::remove_key;

/// The count stored for `k` after one more sighting: one for a new word, one
/// more for a known word. A count already at the maximum stays there rather
/// than overflow.
pub open spec fn next_count(m: Map<Seq<char>, i64>, k: Seq<char>) -> i64 {
    if m.contains_key(k) {
        if m[k] == i64::MAX {
            m[k]
        } else {
            (m[k] + 1) as i64
        }
    } else {
        1
    }
}

/// Record one sighting of the word `w`: store count 1 for a new word, or the
/// incremented count for a known one. When the table is full for a new word
/// the sighting is dropped, as any insertion into a full table is.
pub fn count_word(h: &mut HashTable, w: String)
    requires
        old(h).wf(),
    ensures
        final(h).wf(),
        final(h).capacity() == old(h).capacity(),
        old(h).is_full_for(w@) ==> *final(h) == *old(h),
        !old(h).is_full_for(w@) ==> final(h)@ == old(h)@.insert(w@, next_count(old(h)@, w@)),
        !old(h).is_full_for(w@) ==> final(h).recency() == remove_key(old(h).recency(), w@).push(
            (w@, next_count(old(h)@, w@)),
        ),
{
    let count_opt = h.get(&w);
    match count_opt {
        Some(count) => {
            if count < i64::MAX {
                h.insert(w, count + 1);
            } else {
                h.insert(w, count);
            }
        },
        None => {
            h.insert(w, 1);
        },
    }
}

} // verus!
