//! Laws that relate several table operations, stated over the table's map
//! view and proved from the operations' contracts alone.

use vstd::prelude::*;

verus! {

use crate::table::HashTable;

/// Inserting a key into a table that is not full for it makes the key
/// retrievable with exactly the inserted value.
pub proof fn lemma_insert_then_get(pre: HashTable, post: HashTable, k: Seq<char>, v: i64)
    requires
        pre.wf(),
        !pre.is_full_for(k),
        post@ == pre@.insert(k, v),
    ensures
        post@.contains_key(k),
        post@[k] == v,
{
}

/// Inserting a key and then removing it leaves the key absent.
pub proof fn lemma_insert_remove_get(
    t0: HashTable,
    t1: HashTable,
    t2: HashTable,
    k: Seq<char>,
    v: i64,
)
    requires
        t0.wf(),
        !t0.is_full_for(k),
        t1@ == t0@.insert(k, v),
        t2@ == t1@.remove(k),
    ensures
        !t2@.contains_key(k),
{
}

/// Removing a key always leaves room to put it back: afterwards the table is
/// not full for any key, because the key's slot is reclaimable.
pub proof fn lemma_room_after_remove(t1: HashTable, t2: HashTable, k: Seq<char>)
    requires
        t1.wf(),
        t2.wf(),
        t1@.contains_key(k),
        t2@ == t1@.remove(k),
        t2.capacity() == t1.capacity(),
    ensures
        forall|k2: Seq<char>| !t2.is_full_for(k2),
{
    t1.lemma_len_within_capacity();
    t2.lemma_len_within_capacity();
    assert(t1@.dom().remove(k) =~= t2@.dom());
    vstd::set::axiom_set_remove_len(t1@.dom(), k);
    assert(t1@.dom().contains(k));
    assert(t2@.dom().len() < t1@.dom().len());
    assert forall|k2: Seq<char>| !t2.is_full_for(k2) by {
        t2.lemma_not_full_when_room(k2);
    }
}

/// Removing a key and inserting it again with a new value yields the new
/// value, and the number of live entries returns to what it was before the
/// removal.
pub proof fn lemma_reinsert_restores(
    t1: HashTable,
    t2: HashTable,
    t3: HashTable,
    k: Seq<char>,
    v2: i64,
)
    requires
        t1.wf(),
        t2.wf(),
        t1@.contains_key(k),
        t2@ == t1@.remove(k),
        t2.capacity() == t1.capacity(),
        t3@ == t2@.insert(k, v2),
    ensures
        !t2.is_full_for(k),
        t3@.contains_key(k),
        t3@[k] == v2,
        t3@.dom().len() == t1@.dom().len(),
{
    lemma_room_after_remove(t1, t2, k);
    assert(t3@.dom() =~= t1@.dom()) by {
        assert(t3@.dom() =~= t2@.dom().insert(k));
        assert(t2@.dom() =~= t1@.dom().remove(k));
    }
}

} // verus!
