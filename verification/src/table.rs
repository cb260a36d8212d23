//! The hash table engine: slot array, probing, soft deletion, and the
//! modification history behind the write-recency queries.

use std::collections::VecDeque;
use vstd::prelude::*;

verus! {

use vstd::arithmetic::div_mod::lemma_fundamental_div_mod;
use vstd::arithmetic::div_mod::lemma_fundamental_div_mod_converse;
use vstd::arithmetic::div_mod::lemma_mod_division_less_than_divisor;
use vstd::string::StrSliceExecFns;

/// One entry of the slot array. A node is created the first time its slot is
/// used and is afterwards only overwritten in place; `live` records whether
/// the entry is currently present or has been soft-deleted.
pub struct HashNode {
    pub key: String,
    pub value: i64,
    pub live: bool,
}

impl HashNode {
    pub fn new(key: String, value: i64) -> (n: HashNode)
        ensures
            n.key == key,
            n.value == value,
            n.live,
    {
        HashNode { key, value, live: true }
    }
}

impl Clone for HashNode {
    fn clone(&self) -> (r: Self)
        ensures
            r == *self,
    {
        HashNode { key: self.key.clone(), value: self.value, live: self.live }
    }
}

/// A fixed-capacity open-addressed table from string keys to `i64` values,
/// with linear probing, soft deletion, and write-recency tracking.
///
/// The abstract value of a table (its view) is the map from the keys of the
/// live nodes to their values. The order in which the live entries were last
/// written is abstracted by [`HashTable::recency`].
pub struct HashTable {
    table: Vec<Option<HashNode>>,
    mod_history: VecDeque<usize>,
    len: usize,
}

impl View for HashTable {
    type V = Map<Seq<char>, i64>;

    /// The map of live entries: each live key and the value stored with it.
    closed spec fn view(&self) -> Map<Seq<char>, i64> {
        Map::new(|k: Seq<char>| self.has_live_key(k), |k: Seq<char>| self.value_of(k))
    }
}

/// `s` with every pair whose key equals `k` removed; the order of the other
/// pairs is kept. Used to describe how an operation on one key changes the
/// recency sequence.
pub open spec fn remove_key(s: Seq<(Seq<char>, i64)>, k: Seq<char>) -> Seq<(Seq<char>, i64)>
    decreases s.len(),
{
    if s.len() == 0 {
        Seq::empty()
    } else if s[0].0 == k {
        remove_key(s.drop_first(), k)
    } else {
        seq![s[0]] + remove_key(s.drop_first(), k)
    }
}

/// `h` with every occurrence of `x` removed, order kept.
spec fn remove_index(h: Seq<usize>, x: usize) -> Seq<usize>
    decreases h.len(),
{
    if h.len() == 0 {
        Seq::empty()
    } else if h[0] == x {
        remove_index(h.drop_first(), x)
    } else {
        seq![h[0]] + remove_index(h.drop_first(), x)
    }
}

/// The hash of a key, reduced modulo 2^32 so that the exec computation stays
/// comfortably inside `u64`. Any deterministic function of the characters
/// works here; the table's correctness does not depend on its distribution.
spec fn hash_chars(s: Seq<char>) -> int
    decreases s.len(),
{
    if s.len() == 0 {
        0
    } else {
        (hash_chars(s.drop_last()) * 31 + s.last() as int) % 0x1_0000_0000
    }
}

impl HashTable {
    /// The number of slots, fixed at construction.
    pub closed spec fn capacity(self) -> int {
        self.table@.len() as int
    }

    spec fn slots(self) -> Seq<Option<HashNode>> {
        self.table@
    }

    spec fn hist(self) -> Seq<usize> {
        self.mod_history@
    }

    /// Slot `i` holds a node (live or dead).
    spec fn occupied(self, i: int) -> bool {
        self.slots()[i] is Some
    }

    /// Slot `i` holds a live node.
    spec fn live_at(self, i: int) -> bool {
        self.slots()[i] is Some && self.slots()[i]->Some_0.live
    }

    spec fn key_at(self, i: int) -> Seq<char> {
        self.slots()[i]->Some_0.key@
    }

    spec fn val_at(self, i: int) -> i64 {
        self.slots()[i]->Some_0.value
    }

    spec fn live_key_at(self, i: int, k: Seq<char>) -> bool {
        0 <= i < self.capacity() && self.live_at(i) && self.key_at(i) == k
    }

    spec fn has_live_key(self, k: Seq<char>) -> bool {
        exists|i: int| self.live_key_at(i, k)
    }

    spec fn value_of(self, k: Seq<char>) -> i64 {
        self.val_at(choose|i: int| self.live_key_at(i, k))
    }

    /// How many of the first `n` slots hold a live node.
    spec fn live_count_upto(self, n: int) -> nat
        decreases n,
    {
        if n <= 0 {
            0
        } else {
            self.live_count_upto(n - 1) + (if self.live_at(n - 1) {
                1nat
            } else {
                0nat
            })
        }
    }

    spec fn live_count(self) -> nat {
        self.live_count_upto(self.capacity())
    }

    /// Where probing for key `k` starts.
    spec fn probe_start(self, k: Seq<char>) -> int {
        hash_chars(k) % self.capacity()
    }

    /// The slot visited at offset `t` of the probe sequence for `k`.
    spec fn probe_slot(self, k: Seq<char>, t: int) -> int {
        (self.probe_start(k) + t) % self.capacity()
    }

    /// The offset at which the probe sequence for `k` visits slot `i`.
    spec fn probe_dist(self, k: Seq<char>, i: int) -> int {
        (i - self.probe_start(k)) % self.capacity()
    }

    /// The recorded live count matches the slot array.
    spec fn inv_len(self) -> bool {
        self.len == self.live_count()
    }

    /// A live key occupies at most one slot.
    spec fn inv_unique(self) -> bool {
        forall|i: int, j: int|
            #![trigger self.live_at(i), self.live_at(j)]
            0 <= i < self.capacity() && 0 <= j < self.capacity() && self.live_at(i)
                && self.live_at(j) && self.key_at(i) == self.key_at(j) ==> i == j
    }

    /// Every slot on the probe path of an occupied slot's key, up to that
    /// slot, is itself occupied: probing never meets an empty slot before
    /// reaching the key.
    spec fn inv_reach(self) -> bool {
        forall|i: int, t: int|
            0 <= i < self.capacity() && self.occupied(i) && 0 <= t < self.probe_dist(
                self.key_at(i),
                i,
            ) ==> self.occupied(#[trigger] self.probe_slot(self.key_at(i), t))
    }

    /// A live node comes strictly before every dead node with the same key in
    /// that key's probe order, so a lookup meets the live node first.
    spec fn inv_live_first(self) -> bool {
        forall|i: int, j: int|
            #![trigger self.live_at(i), self.occupied(j)]
            0 <= i < self.capacity() && 0 <= j < self.capacity() && self.live_at(i)
                && self.occupied(j) && i != j && self.key_at(j) == self.key_at(i)
                ==> self.probe_dist(self.key_at(i), i) < self.probe_dist(self.key_at(i), j)
    }

    /// History entries are in range, point at occupied slots, and no slot
    /// index appears twice.
    spec fn inv_hist(self) -> bool {
        &&& forall|p: int|
            0 <= p < self.hist().len() ==> (#[trigger] self.hist()[p]) < self.capacity()
                && self.occupied(self.hist()[p] as int)
        &&& forall|p: int, q: int|
            0 <= p < q < self.hist().len() ==> #[trigger] self.hist()[p] != #[trigger] self.hist()[q]
    }

    /// Every live slot is recorded in the history.
    spec fn inv_live_in_hist(self) -> bool {
        forall|i: int|
            0 <= i < self.capacity() && #[trigger] self.live_at(i) ==> exists|p: int|
                0 <= p < self.hist().len() && #[trigger] self.hist()[p] as int == i
    }

    /// Well-formedness: what construction establishes and every operation
    /// preserves.
    pub closed spec fn wf(self) -> bool {
        &&& self.capacity() > 0
        &&& self.inv_len()
        &&& self.inv_unique()
        &&& self.inv_reach()
        &&& self.inv_live_first()
        &&& self.inv_hist()
        &&& self.inv_live_in_hist()
    }

    /// A table with `table_size` empty slots, no live entries, and an empty
    /// history. The capacity is fixed for the table's whole life.
    pub fn new(table_size: usize) -> (t: HashTable)
        requires
            table_size > 0,
        ensures
            t.wf(),
            t.capacity() == table_size,
            t@ == Map::<Seq<char>, i64>::empty(),
            t.recency() == Seq::<(Seq<char>, i64)>::empty(),
    {
        let mut slots: Vec<Option<HashNode>> = Vec::new();
        let mut i: usize = 0;
        while i < table_size
            invariant
                i <= table_size,
                slots@.len() == i,
                forall|j: int| 0 <= j < i ==> slots@[j] is None,
            decreases table_size - i,
        {
            slots.push(None);
            i = i + 1;
        }
        let t = HashTable { table: slots, mod_history: VecDeque::new(), len: 0 };
        proof {
            t.lemma_live_count_empty(t.capacity());
            assert(t@ =~= Map::<Seq<char>, i64>::empty());
        }
        t
    }

    proof fn lemma_live_count_empty(self, n: int)
        requires
            forall|j: int| 0 <= j < n ==> !self.live_at(j),
        ensures
            self.live_count_upto(n) == 0,
        decreases n,
    {
        if n > 0 {
            self.lemma_live_count_empty(n - 1);
        }
    }

    /// The recency sequence: the key and value of each live entry, ordered
    /// from the least recently written to the most recently written.
    pub closed spec fn recency(self) -> Seq<(Seq<char>, i64)> {
        recency_of(self.slots(), self.hist())
    }

    /// The one failure condition: a full probe cycle for `k` meets neither an
    /// empty slot, nor a reclaimable dead node, nor `k` itself. Insertion of
    /// `k` is then a no-op and lookup and removal of `k` find nothing.
    pub closed spec fn is_full_for(self, k: Seq<char>) -> bool {
        forall|i: int|
            0 <= i < self.capacity() ==> #[trigger] self.live_at(i) && self.key_at(i) != k
    }

    /// Basic facts about the probe sequence for `k`: every offset in
    /// `[0, capacity)` lands on a slot in range, and offset and slot determine
    /// each other.
    proof fn lemma_probe_arith(self, k: Seq<char>)
        requires
            self.capacity() > 0,
        ensures
            0 <= self.probe_start(k) < self.capacity(),
            forall|t: int|
                0 <= t < self.capacity() ==> 0 <= #[trigger] self.probe_slot(k, t)
                    < self.capacity() && self.probe_dist(k, self.probe_slot(k, t)) == t,
            forall|i: int|
                0 <= i < self.capacity() ==> 0 <= #[trigger] self.probe_dist(k, i)
                    < self.capacity() && self.probe_slot(k, self.probe_dist(k, i)) == i,
    {
        let cap = self.capacity();
        lemma_mod_division_less_than_divisor(hash_chars(k), cap);
        let s = self.probe_start(k);
        assert forall|t: int| 0 <= t < cap implies 0 <= #[trigger] self.probe_slot(k, t) < cap
            && self.probe_dist(k, self.probe_slot(k, t)) == t by {
            if s + t < cap {
                lemma_fundamental_div_mod_converse(s + t, cap, 0, s + t);
                lemma_fundamental_div_mod_converse(t, cap, 0, t);
            } else {
                lemma_fundamental_div_mod_converse(s + t, cap, 1, s + t - cap);
                lemma_fundamental_div_mod_converse(t - cap, cap, -1, t);
            }
        }
        assert forall|i: int| 0 <= i < cap implies 0 <= #[trigger] self.probe_dist(k, i) < cap
            && self.probe_slot(k, self.probe_dist(k, i)) == i by {
            if i - s >= 0 {
                lemma_fundamental_div_mod_converse(i - s, cap, 0, i - s);
                lemma_fundamental_div_mod_converse(i, cap, 0, i);
            } else {
                lemma_fundamental_div_mod_converse(i - s, cap, -1, i - s + cap);
                lemma_fundamental_div_mod_converse(i + cap, cap, 1, i);
            }
        }
    }

    /// Advancing the probe by one wraps at the capacity.
    proof fn lemma_probe_step(self, k: Seq<char>, t: int)
        requires
            self.capacity() > 0,
            t >= 0,
        ensures
            0 <= self.probe_slot(k, t) < self.capacity(),
            self.probe_slot(k, t + 1) == if self.probe_slot(k, t) + 1 == self.capacity() {
                0int
            } else {
                self.probe_slot(k, t) + 1
            },
    {
        let cap = self.capacity();
        let s = self.probe_start(k);
        lemma_mod_division_less_than_divisor(hash_chars(k), cap);
        lemma_mod_division_less_than_divisor(s + t, cap);
        lemma_fundamental_div_mod(s + t, cap);
        let q = (s + t) / cap;
        let p = self.probe_slot(k, t);
        assert(s + t == cap * q + p);
        if p + 1 == cap {
            assert((q + 1) * cap == cap * q + cap) by (nonlinear_arith);
            lemma_fundamental_div_mod_converse(s + t + 1, cap, q + 1, 0);
        } else {
            assert(q * cap == cap * q) by (nonlinear_arith);
            lemma_fundamental_div_mod_converse(s + t + 1, cap, q, p + 1);
        }
    }

    /// Where probing for `key` starts: the key's hash reduced modulo the
    /// capacity.
    fn get_hash_index(&self, key: &String) -> (r: usize)
        requires
            self.capacity() > 0,
        ensures
            r as int == self.probe_start(key@),
    {
        let s: &str = key.as_str();
        let n: usize = s.unicode_len();
        let mut h: u64 = 0;
        let mut i: usize = 0;
        while i < n
            invariant
                i <= n,
                n == s@.len(),
                s@ == key@,
                h as int == hash_chars(s@.subrange(0, i as int)),
                h < 0x1_0000_0000,
            decreases n - i,
        {
            let c = s.get_char(i);
            h = (h * 31 + (c as u64)) % 0x1_0000_0000;
            proof {
                assert(s@.subrange(0, i + 1 as int).drop_last() =~= s@.subrange(0, i as int));
            }
            i = i + 1;
        }
        proof {
            assert(s@.subrange(0, n as int) =~= s@);
            lemma_mod_division_less_than_divisor(hash_chars(key@), self.capacity());
        }
        (h % (self.table.len() as u64)) as usize
    }

    /// The target slot for `key`, or `None` when the table is full for it.
    ///
    /// Probing starts at the key's hash and advances by one, wrapping, until
    /// it meets an empty slot, the key itself, or returns to the start. The
    /// first dead slot seen on the way is remembered as reclaimable and is
    /// preferred over an empty slot and over the key's own dead node, so dead
    /// slots are reused as early in probe order as possible.
    fn get_node_index(&self, key: &String) -> (r: Option<usize>)
        requires
            self.wf(),
        ensures
            self.is_full_for(key@) <==> r is None,
            (match r {
                None => true,
                Some(idx) => {
                    &&& (idx as int) < self.capacity()
                    &&& forall|t: int|
                        0 <= t < self.probe_dist(key@, idx as int) ==> self.occupied(
                            #[trigger] self.probe_slot(key@, t),
                        )
                    &&& forall|j: int| self.live_key_at(j, key@) ==> idx as int == j
                    &&& !self.has_live_key(key@) ==> !self.live_at(idx as int)
                    &&& !self.has_live_key(key@) ==> forall|j: int|
                        0 <= j < self.capacity() && self.occupied(j) && self.key_at(j) == key@
                            && j != idx as int ==> self.probe_dist(key@, idx as int)
                            < #[trigger] self.probe_dist(key@, j)
                },
            }),
    {
        let ghost k = key@;
        let cap = self.table.len();
        let start = self.get_hash_index(key);
        let mut probe = start;
        let mut t: usize = 0;
        let mut has_free = false;
        let mut first_free: usize = 0;
        let ghost mut ff_t: int = 0;
        proof {
            self.lemma_probe_arith(k);
            assert(self.probe_slot(k, 0) == start as int) by {
                lemma_mod_division_less_than_divisor(hash_chars(k), cap as int);
                lemma_fundamental_div_mod_converse(
                    self.probe_start(k) + 0,
                    cap as int,
                    0,
                    self.probe_start(k),
                );
            }
        }
        loop
            invariant
                self.wf(),
                k == key@,
                cap == self.capacity(),
                t < cap,
                probe as int == self.probe_slot(k, t as int),
                forall|u: int| 0 <= u < t ==> self.occupied(#[trigger] self.probe_slot(k, u)),
                forall|u: int| 0 <= u < t ==> self.key_at(#[trigger] self.probe_slot(k, u)) != k,
                has_free ==> 0 <= ff_t < t as int,
                has_free ==> first_free as int == self.probe_slot(k, ff_t),
                has_free ==> self.occupied(first_free as int) && !self.live_at(
                    first_free as int,
                ),
                forall|u: int|
                    0 <= u < (if has_free {
                        ff_t
                    } else {
                        t as int
                    }) ==> self.live_at(#[trigger] self.probe_slot(k, u)),
            decreases cap - t,
        {
            proof {
                self.lemma_probe_arith(k);
            }
            let slot_is_empty = self.table[probe].is_none();
            if slot_is_empty {
                proof {
                    self.lemma_no_key_when_open(k, t as int);
                    assert(!self.live_at(probe as int));
                    if has_free {
                        assert(!self.live_at(first_free as int));
                    }
                }
                if has_free {
                    return Some(first_free);
                } else {
                    return Some(probe);
                }
            }
            let key_matches: bool = match &self.table[probe] {
                Some(n) => n.key == *key,
                None => false,
            };
            let node_live: bool = match &self.table[probe] {
                Some(n) => n.live,
                None => false,
            };
            if key_matches {
                proof {
                    // No earlier probe offset matches, so any other slot with
                    // this key lies strictly later in probe order.
                    assert forall|j: int|
                        0 <= j < cap && self.occupied(j) && self.key_at(j) == k && j
                            != probe as int implies (t as int) < self.probe_dist(k, j) by {
                        let d = self.probe_dist(k, j);
                        assert(self.probe_slot(k, d) == j);
                        if d < t as int {
                            assert(self.key_at(self.probe_slot(k, d)) != k);
                        }
                    }
                }
                if node_live {
                    proof {
                        assert forall|j: int| self.live_key_at(j, k) implies probe as int == j by {
                            assert(self.live_at(probe as int));
                            assert(self.live_at(j));
                        }
                        assert(self.live_key_at(probe as int, k));
                    }
                    return Some(probe);
                }
                proof {
                    // The first match is dead, so no slot holds the key live:
                    // a live one would come strictly earlier in probe order,
                    // yet every earlier offset misses the key.
                    assert forall|j: int| !self.live_key_at(j, k) by {
                        if self.live_key_at(j, k) {
                            assert(self.occupied(probe as int));
                            let d = self.probe_dist(k, j);
                            assert(self.probe_slot(k, d) == j);
                            assert(d < self.probe_dist(k, probe as int));
                            assert(self.key_at(self.probe_slot(k, d)) != k);
                        }
                    }
                }
                proof {
                    assert(!self.live_at(probe as int));
                    if has_free {
                        assert(!self.live_at(first_free as int));
                    }
                }
                if !has_free {
                    return Some(probe);
                } else {
                    return Some(first_free);
                }
            }
            if !node_live && !has_free {
                has_free = true;
                first_free = probe;
                proof {
                    ff_t = t as int;
                }
            }
            let tn = t + 1;
            if tn == cap {
                // A full cycle matched nothing: reclaim the first dead slot if
                // one was seen, otherwise the table is full for this key.
                if has_free {
                    proof {
                        self.lemma_no_key_after_cycle(k);
                        assert(!self.live_at(first_free as int));
                    }
                    return Some(first_free);
                }
                proof {
                    self.lemma_no_key_after_cycle(k);
                    assert forall|i: int|
                        0 <= i < self.capacity() implies #[trigger] self.live_at(i)
                        && self.key_at(i) != k by {
                        let d = self.probe_dist(k, i);
                        assert(self.probe_slot(k, d) == i);
                        if d < t as int {
                            assert(self.live_at(self.probe_slot(k, d)));
                        }
                    }
                }
                return None;
            }
            proof {
                self.lemma_probe_step(k, t as int);
            }
            probe = if probe + 1 == cap {
                0
            } else {
                probe + 1
            };
            t = tn;
        }
    }

    /// When the probe for `k` meets an empty slot at offset `t` and no
    /// earlier offset matched `k`, no slot holds `k` at all — otherwise its
    /// probe path would be occupied up to itself.
    proof fn lemma_no_key_when_open(self, k: Seq<char>, t: int)
        requires
            self.wf(),
            0 <= t < self.capacity(),
            !self.occupied(self.probe_slot(k, t)),
            forall|u: int| 0 <= u < t ==> self.key_at(#[trigger] self.probe_slot(k, u)) != k,
            forall|u: int| 0 <= u < t ==> self.occupied(#[trigger] self.probe_slot(k, u)),
        ensures
            forall|j: int|
                0 <= j < self.capacity() && self.occupied(j) ==> self.key_at(j) != k,
            !self.has_live_key(k),
    {
        self.lemma_probe_arith(k);
        assert forall|j: int|
            0 <= j < self.capacity() && self.occupied(j) implies self.key_at(j) != k by {
            if self.key_at(j) == k {
                let d = self.probe_dist(k, j);
                assert(self.probe_slot(k, d) == j);
                if d < t {
                    assert(self.key_at(self.probe_slot(k, d)) != k);
                } else if d > t {
                    assert(self.occupied(self.probe_slot(self.key_at(j), t)));
                }
            }
        }
        assert forall|j: int| !self.live_key_at(j, k) by {
            if self.live_key_at(j, k) {
                assert(self.occupied(j));
            }
        }
    }

    /// After a whole probe cycle for `k` without a match, no slot holds `k`.
    proof fn lemma_no_key_after_cycle(self, k: Seq<char>)
        requires
            self.wf(),
            forall|u: int|
                0 <= u < self.capacity() ==> self.key_at(#[trigger] self.probe_slot(k, u)) != k,
        ensures
            forall|j: int|
                0 <= j < self.capacity() && self.occupied(j) ==> self.key_at(j) != k,
            !self.has_live_key(k),
    {
        self.lemma_probe_arith(k);
        assert forall|j: int|
            0 <= j < self.capacity() && self.occupied(j) implies self.key_at(j) != k by {
            let d = self.probe_dist(k, j);
            assert(self.probe_slot(k, d) == j);
            assert(self.key_at(self.probe_slot(k, d)) != k);
        }
        assert forall|j: int| !self.live_key_at(j, k) by {
            if self.live_key_at(j, k) {
                assert(self.occupied(j));
            }
        }
    }

    /// A live slot with key `k` is the one the view reads `k` from.
    proof fn lemma_view_at(self, i: int, k: Seq<char>)
        requires
            self.wf(),
            self.live_key_at(i, k),
        ensures
            self@.contains_key(k),
            self@[k] == self.val_at(i),
    {
        assert(self.has_live_key(k));
        let j = choose|j: int| self.live_key_at(j, k);
        assert(self.live_at(i) && self.live_at(j));
    }

    /// The node holding `key`, while it is live; the engine behind `get`.
    fn get_node(&self, key: &String) -> (r: Option<&HashNode>)
        requires
            self.wf(),
        ensures
            (match r {
                Some(n) => self@.contains_key(key@) && n.key@ == key@ && n.value == self@[key@]
                    && n.live,
                None => !self@.contains_key(key@),
            }),
    {
        let ghost k = key@;
        let idx_opt = self.get_node_index(key);
        match idx_opt {
            None => {
                proof {
                    if self.has_live_key(k) {
                        let j = choose|j: int| self.live_key_at(j, k);
                        assert(self.live_at(j));
                    }
                }
                None
            },
            Some(idx) => {
                match &self.table[idx] {
                    None => {
                        proof {
                            if self.has_live_key(k) {
                                let j = choose|j: int| self.live_key_at(j, k);
                                assert(self.live_key_at(j, k));
                                assert(self.live_at(idx as int));
                            }
                        }
                        None
                    },
                    Some(n) => {
                        if n.live {
                            proof {
                                assert(self.live_at(idx as int));
                                if !self.has_live_key(k) {
                                    assert(!self.live_at(idx as int));
                                }
                                let j = choose|j: int| self.live_key_at(j, k);
                                assert(self.live_key_at(j, k));
                                assert(idx as int == j);
                                self.lemma_view_at(idx as int, k);
                            }
                            Some(n)
                        } else {
                            proof {
                                if self.has_live_key(k) {
                                    let j = choose|j: int| self.live_key_at(j, k);
                                    assert(self.live_key_at(j, k));
                                    assert(self.live_at(idx as int));
                                }
                            }
                            None
                        }
                    },
                }
            },
        }
    }

    /// The value stored for `key`, when `key` is a live entry. A key the
    /// table never saw, a removed key, and a key lost to a full table all
    /// report absence the same way.
    pub fn get(&self, key: &String) -> (r: Option<i64>)
        requires
            self.wf(),
        ensures
            r == (if self@.contains_key(key@) {
                Some(self@[key@])
            } else {
                None::<i64>
            }),
    {
        match self.get_node(key) {
            Some(n) => Some(n.value),
            None => None,
        }
    }

    /// Keys with a live slot strictly below `n`.
    spec fn dom_upto(self, n: int) -> Set<Seq<char>> {
        Set::new(|k: Seq<char>| exists|i: int| 0 <= i < n && self.live_key_at(i, k))
    }

    /// Counting live slots from the left counts distinct live keys: each live
    /// key sits in exactly one slot.
    proof fn lemma_card_upto(self, n: int)
        requires
            self.wf(),
            0 <= n <= self.capacity(),
        ensures
            self.dom_upto(n).finite(),
            self.dom_upto(n).len() == self.live_count_upto(n),
        decreases n,
    {
        if n == 0 {
            assert(self.dom_upto(0) =~= Set::<Seq<char>>::empty());
        } else {
            self.lemma_card_upto(n - 1);
            if self.live_at(n - 1) {
                let k = self.key_at(n - 1);
                assert(self.live_key_at(n - 1, k));
                assert(!self.dom_upto(n - 1).contains(k)) by {
                    if self.dom_upto(n - 1).contains(k) {
                        let i = choose|i: int| 0 <= i < n - 1 && self.live_key_at(i, k);
                        assert(self.live_at(i) && self.live_at(n - 1));
                    }
                }
                assert(self.dom_upto(n) =~= self.dom_upto(n - 1).insert(k)) by {
                    assert forall|k2: Seq<char>| #[trigger] self.dom_upto(n).contains(k2)
                        implies self.dom_upto(n - 1).insert(k).contains(k2) by {
                        let i = choose|i: int| 0 <= i < n && self.live_key_at(i, k2);
                        if i < n - 1 {
                            assert(self.dom_upto(n - 1).contains(k2));
                        }
                    }
                    assert forall|k2: Seq<char>| self.dom_upto(n - 1).insert(k).contains(k2)
                        implies #[trigger] self.dom_upto(n).contains(k2) by {
                        if k2 == k {
                            assert(self.live_key_at(n - 1, k2));
                        } else {
                            let i = choose|i: int| 0 <= i < n - 1 && self.live_key_at(i, k2);
                            assert(0 <= i < n && self.live_key_at(i, k2));
                        }
                    }
                }
            } else {
                assert(self.dom_upto(n) =~= self.dom_upto(n - 1)) by {
                    assert forall|k2: Seq<char>| #[trigger] self.dom_upto(n).contains(k2)
                        implies self.dom_upto(n - 1).contains(k2) by {
                        let i = choose|i: int| 0 <= i < n && self.live_key_at(i, k2);
                        assert(0 <= i < n - 1 && self.live_key_at(i, k2));
                    }
                    assert forall|k2: Seq<char>| self.dom_upto(n - 1).contains(k2)
                        implies #[trigger] self.dom_upto(n).contains(k2) by {
                        let i = choose|i: int| 0 <= i < n - 1 && self.live_key_at(i, k2);
                        assert(0 <= i < n && self.live_key_at(i, k2));
                    }
                }
            }
        }
    }

    /// The live count equals the number of keys the view holds.
    proof fn lemma_card(self)
        requires
            self.wf(),
        ensures
            self@.dom().finite(),
            self@.dom().len() == self.live_count(),
    {
        self.lemma_card_upto(self.capacity());
        assert(self@.dom() =~= self.dom_upto(self.capacity())) by {
            assert forall|k2: Seq<char>| #[trigger] self@.dom().contains(k2)
                implies self.dom_upto(self.capacity()).contains(k2) by {
                let i = choose|i: int| self.live_key_at(i, k2);
                assert(0 <= i < self.capacity() && self.live_key_at(i, k2));
            }
            assert forall|k2: Seq<char>| self.dom_upto(self.capacity()).contains(k2)
                implies #[trigger] self@.dom().contains(k2) by {
                let i = choose|i: int| 0 <= i < self.capacity() && self.live_key_at(i, k2);
                assert(self.live_key_at(i, k2));
            }
        }
    }

    /// At most `n` of the first `n` slots are live; a slot that is not live
    /// keeps the count strictly below `n`.
    proof fn lemma_live_count_bound(self, n: int)
        requires
            0 <= n,
        ensures
            self.live_count_upto(n) <= n,
            forall|i: int|
                0 <= i < n && !(#[trigger] self.live_at(i)) ==> self.live_count_upto(n) < n,
            forall|i: int|
                0 <= i < n && #[trigger] self.live_at(i) ==> self.live_count_upto(n) >= 1,
            (forall|i: int| 0 <= i < n ==> #[trigger] self.live_at(i)) ==> self.live_count_upto(
                n,
            ) == n,
        decreases n,
    {
        if n > 0 {
            self.lemma_live_count_bound(n - 1);
        }
    }

    /// Changing one slot changes the live count by at most that slot's
    /// contribution.
    proof fn lemma_live_count_update(self, other: Self, idx: int, n: int)
        requires
            other.slots().len() == self.slots().len(),
            0 <= idx < self.slots().len(),
            forall|j: int|
                0 <= j < self.slots().len() && j != idx ==> self.slots()[j]
                    == other.slots()[j],
            0 <= n <= self.slots().len(),
        ensures
            n <= idx ==> other.live_count_upto(n) == self.live_count_upto(n),
            n > idx ==> other.live_count_upto(n) + (if self.live_at(idx) {
                1nat
            } else {
                0nat
            }) == self.live_count_upto(n) + (if other.live_at(idx) {
                1nat
            } else {
                0nat
            }),
        decreases n,
    {
        if n > 0 {
            self.lemma_live_count_update(other, idx, n - 1);
        }
    }

    /// Drop every occurrence of `idx` from the modification history, keeping
    /// the order of the rest. The slot array and the live count are
    /// untouched.
    fn remove_from_history(&mut self, idx: usize)
        ensures
            final(self).table == old(self).table,
            final(self).len == old(self).len,
            final(self).mod_history@ == remove_index(old(self).mod_history@, idx),
    {
        let ghost h0 = self.mod_history@;
        let n = self.mod_history.len();
        let mut nh: VecDeque<usize> = VecDeque::new();
        let mut i: usize = 0;
        while i < n
            invariant
                i <= n,
                n == h0.len(),
                self.mod_history@ == h0,
                self.table == old(self).table,
                self.len == old(self).len,
                nh@ == remove_index(h0.subrange(0, i as int), idx),
            decreases n - i,
        {
            let x = self.mod_history[i];
            proof {
                assert(h0.subrange(0, i as int).push(h0[i as int]) =~= h0.subrange(
                    0,
                    i + 1 as int,
                ));
                lemma_remove_index_push(h0.subrange(0, i as int), x, idx);
            }
            if x != idx {
                nh.push_back(x);
            }
            i = i + 1;
        }
        proof {
            assert(h0.subrange(0, n as int) =~= h0);
        }
        self.mod_history = nh;
    }

    /// Insert `key` with `value`, or update it in place when it is already
    /// live. A dead slot met early in the probe is reclaimed for the key.
    /// When the table is full for the key the call changes nothing. The
    /// written entry becomes the most recent in the recency order.
    pub fn insert(&mut self, key: String, value: i64)
        requires
            old(self).wf(),
        ensures
            final(self).wf(),
            final(self).capacity() == old(self).capacity(),
            old(self).is_full_for(key@) ==> *final(self) == *old(self),
            !old(self).is_full_for(key@) ==> final(self)@ == old(self)@.insert(key@, value),
            !old(self).is_full_for(key@) ==> final(self).recency() == remove_key(
                old(self).recency(),
                key@,
            ).push((key@, value)),
    {
        let ghost k = key@;
        let ghost o = *old(self);
        let idx_opt = self.get_node_index(&key);
        if idx_opt.is_none() {
            return ;
        }
        let idx = idx_opt.unwrap();
        let ghost i0 = idx as int;
        let was_live = match &self.table[idx] {
            Some(n) => n.live,
            None => false,
        };
        proof {
            o.lemma_probe_arith(k);
            if !was_live {
                assert(!o.live_at(i0));
                o.lemma_live_count_bound(o.capacity());
                assert(o.live_count_upto(o.capacity()) < o.capacity());
                assert(self.len < o.capacity());
            }
        }
        let cap_exec = self.table.len();
        self.table[idx] = Some(HashNode { key, value, live: true });
        if !was_live {
            proof {
                assert(cap_exec as int == o.capacity());
                assert(self.len < o.capacity());
            }
            self.len = self.len + 1;
        }
        self.remove_from_history(idx);
        self.mod_history.push_back(idx);
        proof {
            let sA = o.slots();
            let hA = o.hist();
            let cap = o.capacity();
            assert(self.capacity() == cap);
            assert(self.slots()[i0] is Some);
            assert(self.slots()[i0]->Some_0.live);
            assert(self.slots()[i0]->Some_0.key@ == k);
            assert(self.slots()[i0]->Some_0.value == value);
            assert(forall|j: int| 0 <= j < cap && j != i0 ==> self.slots()[j] == sA[j]);
            assert(self.hist() == remove_index(hA, idx).push(idx));
            lemma_remove_index(hA, idx);
            // the resolved slot is the key's own live slot when one exists,
            // and otherwise no live slot holds the key
            assert(o.live_at(i0) ==> o.key_at(i0) == k) by {
                if o.live_at(i0) && !o.has_live_key(k) {
                    assert(!o.live_at(i0));
                }
                if o.live_at(i0) && o.has_live_key(k) {
                    let j = choose|j: int| o.live_key_at(j, k);
                    assert(o.live_key_at(j, k));
                }
            }
            // live count stays consistent
            o.lemma_live_count_update(*self, i0, cap);
            assert(self.inv_len());
            // a live key still occupies at most one slot
            assert forall|i: int, j: int|
                0 <= i < cap && 0 <= j < cap && self.live_at(i) && self.live_at(j)
                    && self.key_at(i) == self.key_at(j) implies i == j by {
                if i != j {
                    if i == i0 || j == i0 {
                        let other = if i == i0 {
                            j
                        } else {
                            i
                        };
                        assert(o.live_at(other));
                        assert(o.live_key_at(other, k));
                    } else {
                        assert(o.live_at(i) && o.live_at(j));
                    }
                }
            }
            // probe paths stay occupied: occupancy only grew, and the new
            // node's own path was occupied when the slot was resolved
            assert forall|i: int, t: int|
                0 <= i < cap && self.occupied(i) && 0 <= t < self.probe_dist(
                    self.key_at(i),
                    i,
                ) implies self.occupied(self.probe_slot(self.key_at(i), t)) by {
                if i == i0 {
                    assert(o.occupied(o.probe_slot(k, t)));
                    assert(self.occupied(self.probe_slot(k, t)));
                } else {
                    assert(o.occupied(i));
                    assert(o.occupied(o.probe_slot(o.key_at(i), t)));
                    assert(self.occupied(self.probe_slot(self.key_at(i), t)));
                }
            }
            // the live node of a key still comes first in its probe order
            assert forall|i: int, j: int|
                0 <= i < cap && 0 <= j < cap && self.live_at(i) && self.occupied(j) && i != j
                    && self.key_at(j) == self.key_at(i) implies self.probe_dist(
                self.key_at(i),
                i,
            ) < self.probe_dist(self.key_at(i), j) by {
                if i == i0 {
                    assert(o.occupied(j) && o.key_at(j) == k);
                    if o.has_live_key(k) {
                        let j2 = choose|j2: int| o.live_key_at(j2, k);
                        assert(o.live_key_at(j2, k));
                        assert(i0 == j2);
                        assert(o.live_at(i0) && o.occupied(j));
                        assert(o.probe_dist(k, i0) < o.probe_dist(k, j));
                    } else {
                        assert(o.probe_dist(k, i0) < o.probe_dist(k, j));
                    }
                } else {
                    assert(o.live_at(i));
                    if j == i0 {
                        assert(o.live_key_at(i, k));
                    } else {
                        assert(o.live_at(i) && o.occupied(j));
                    }
                }
            }
            // history entries: in range, occupied, distinct
            assert forall|p: int| 0 <= p < self.hist().len() implies (#[trigger] self.hist()[p])
                < cap && self.occupied(self.hist()[p] as int) by {
                if p < self.hist().len() - 1 {
                    assert(self.hist()[p] == remove_index(hA, idx)[p]);
                    assert(hA.contains(remove_index(hA, idx)[p]));
                    let q = choose|q: int|
                        0 <= q < hA.len() && hA[q] == remove_index(hA, idx)[p];
                    assert(hA[q] < cap && o.occupied(hA[q] as int));
                    assert(o.occupied(self.hist()[p] as int));
                } else {
                    assert(self.hist()[p] == idx);
                }
            }
            assert forall|p: int, q: int| 0 <= p < q < self.hist().len() implies self.hist()[p]
                != self.hist()[q] by {
                if q < self.hist().len() - 1 {
                    assert(self.hist()[p] == remove_index(hA, idx)[p]);
                    assert(self.hist()[q] == remove_index(hA, idx)[q]);
                } else {
                    assert(self.hist()[q] == idx);
                    assert(self.hist()[p] == remove_index(hA, idx)[p]);
                    assert(remove_index(hA, idx)[p] != idx);
                }
            }
            // every live slot is still recorded in the history
            assert forall|i: int| 0 <= i < cap && #[trigger] self.live_at(i) implies exists|p: int|
                0 <= p < self.hist().len() && #[trigger] self.hist()[p] as int == i by {
                if i == i0 {
                    assert(self.hist()[self.hist().len() - 1] as int == i);
                } else {
                    assert(o.live_at(i));
                    let p = choose|p: int| 0 <= p < hA.len() && #[trigger] hA[p] as int == i;
                    assert(hA.contains(hA[p]));
                    assert(hA[p] != idx);
                    assert(remove_index(hA, idx).contains(hA[p]));
                    let q = choose|q: int|
                        0 <= q < remove_index(hA, idx).len() && remove_index(hA, idx)[q]
                            == hA[p];
                    assert(self.hist()[q] as int == i);
                }
            }
            assert(self.wf());
            // the view gained exactly this key
            assert(self.live_key_at(i0, k));
            self.lemma_view_at(i0, k);
            assert forall|k2: Seq<char>| #[trigger] self@.contains_key(k2) implies o@.insert(
                k,
                value,
            ).contains_key(k2) && self@[k2] == o@.insert(k, value)[k2] by {
                if k2 == k {
                } else {
                    let i = choose|i: int| self.live_key_at(i, k2);
                    assert(self.live_key_at(i, k2));
                    assert(i != i0);
                    assert(o.live_key_at(i, k2));
                    o.lemma_view_at(i, k2);
                    self.lemma_view_at(i, k2);
                }
            }
            assert forall|k2: Seq<char>| #[trigger] o@.insert(k, value).contains_key(k2)
                implies self@.contains_key(k2) by {
                if k2 == k {
                } else {
                    assert(o@.contains_key(k2));
                    let i = choose|i: int| o.live_key_at(i, k2);
                    assert(o.live_key_at(i, k2));
                    assert(i != i0);
                    assert(self.live_key_at(i, k2));
                }
            }
            assert(self@ =~= o@.insert(k, value));
            // the recency order lost the key's old entry and gained the new
            // one at the back
            lemma_recency_push(self.slots(), remove_index(hA, idx), idx);
            lemma_recency_agree(self.slots(), sA, remove_index(hA, idx));
            assert forall|p: int|
                0 <= p < hA.len() && (#[trigger] hA[p]) < sA.len() && sA[hA[p] as int] is Some
                    && sA[hA[p] as int]->Some_0.live implies (if hA[p] == idx {
                sA[hA[p] as int]->Some_0.key@ == k
            } else {
                sA[hA[p] as int]->Some_0.key@ != k
            }) by {
                let e = hA[p] as int;
                assert(o.live_at(e));
                if hA[p] != idx && sA[e]->Some_0.key@ == k {
                    assert(o.live_key_at(e, k));
                }
            }
            lemma_recency_remove(sA, hA, idx, k);
            assert(entry_of(self.slots(), idx) =~= seq![(k, value)]);
            assert(self.recency() =~= remove_key(o.recency(), k).push((k, value)));
        }
    }

    /// Soft-delete `key`: its node is marked dead but keeps its storage, so
    /// later probes still walk past it and a later insertion can reclaim the
    /// slot. An absent key, and a key lost to a full table, change nothing.
    /// The history keeps the stale entry; the recency queries skip it lazily.
    pub fn remove(&mut self, key: String)
        requires
            old(self).wf(),
        ensures
            final(self).wf(),
            final(self).capacity() == old(self).capacity(),
            final(self)@ == old(self)@.remove(key@),
            final(self).recency() == remove_key(old(self).recency(), key@),
    {
        let ghost k = key@;
        let ghost o = *old(self);
        let idx_opt = self.get_node_index(&key);
        let mut absent = idx_opt.is_none();
        if !absent {
            let idx_probe = *idx_opt.as_ref().unwrap();
            absent = match &self.table[idx_probe] {
                Some(n) => !n.live,
                None => true,
            };
        }
        if absent {
            proof {
                if o@.contains_key(k) {
                    let i = choose|i: int| o.live_key_at(i, k);
                    assert(o.live_key_at(i, k));
                    if idx_opt is Some {
                        assert(o.live_at(idx_opt->Some_0 as int));
                    } else {
                        assert(o.live_at(i));
                    }
                }
                assert(o@ =~= o@.remove(k));
                o.lemma_no_live_key_recency(k);
            }
            return ;
        }
        let idx = idx_opt.unwrap();
        let ghost i0 = idx as int;
        let node_key;
        let node_val;
        match &self.table[idx] {
            Some(n) => {
                node_key = n.key.clone();
                node_val = n.value;
            },
            None => {
                node_key = String::new();
                node_val = 0;
            },
        }
        proof {
            assert(o.live_at(i0));
            assert(o.live_key_at(i0, k) || !o.has_live_key(k));
            if !o.has_live_key(k) {
                assert(!o.live_at(i0));
            }
            assert(o.key_at(i0) == k);
            o.lemma_live_count_bound(o.capacity());
            assert(o.live_count_upto(o.capacity()) >= 1);
        }
        self.table[idx] = Some(HashNode { key: node_key, value: node_val, live: false });
        self.len = self.len - 1;
        proof {
            let sA = o.slots();
            let hA = o.hist();
            let cap = o.capacity();
            assert(forall|j: int| 0 <= j < cap && j != i0 ==> self.slots()[j] == sA[j]);
            assert(self.occupied(i0) && !self.live_at(i0) && self.key_at(i0) == k);
            assert(forall|j: int|
                0 <= j < cap ==> self.occupied(j) == o.occupied(j) && self.key_at(j) == o.key_at(
                    j,
                ));
            o.lemma_live_count_update(*self, i0, cap);
            assert(self.inv_len());
            assert forall|i: int, j: int|
                0 <= i < cap && 0 <= j < cap && self.live_at(i) && self.live_at(j)
                    && self.key_at(i) == self.key_at(j) implies i == j by {
                assert(o.live_at(i) && o.live_at(j));
            }
            assert forall|i: int, t: int|
                0 <= i < cap && self.occupied(i) && 0 <= t < self.probe_dist(
                    self.key_at(i),
                    i,
                ) implies self.occupied(self.probe_slot(self.key_at(i), t)) by {
                assert(o.occupied(i));
                assert(o.occupied(o.probe_slot(o.key_at(i), t)));
                assert(self.occupied(self.probe_slot(self.key_at(i), t)));
            }
            assert forall|i: int, j: int|
                0 <= i < cap && 0 <= j < cap && self.live_at(i) && self.occupied(j) && i != j
                    && self.key_at(j) == self.key_at(i) implies self.probe_dist(
                self.key_at(i),
                i,
            ) < self.probe_dist(self.key_at(i), j) by {
                assert(o.live_at(i) && o.occupied(j));
            }
            assert(self.hist() == hA);
            assert forall|p: int| 0 <= p < self.hist().len() implies (#[trigger] self.hist()[p])
                < cap && self.occupied(self.hist()[p] as int) by {
                assert(hA[p] < cap && o.occupied(hA[p] as int));
            }
            assert forall|i: int| 0 <= i < cap && #[trigger] self.live_at(i) implies exists|p: int|
                0 <= p < self.hist().len() && #[trigger] self.hist()[p] as int == i by {
                assert(o.live_at(i));
                let p = choose|p: int| 0 <= p < hA.len() && #[trigger] hA[p] as int == i;
                assert(0 <= p < self.hist().len() && self.hist()[p] as int == i);
            }
            assert(self.wf());
            assert forall|k2: Seq<char>| #[trigger] self@.contains_key(k2) implies o@.remove(
                k,
            ).contains_key(k2) && self@[k2] == o@.remove(k)[k2] by {
                let i = choose|i: int| self.live_key_at(i, k2);
                assert(self.live_key_at(i, k2));
                assert(i != i0);
                assert(o.live_key_at(i, k2));
                if k2 == k {
                    assert(o.live_at(i) && o.live_at(i0));
                }
                o.lemma_view_at(i, k2);
                self.lemma_view_at(i, k2);
            }
            assert forall|k2: Seq<char>| #[trigger] o@.remove(k).contains_key(k2)
                implies self@.contains_key(k2) by {
                let i = choose|i: int| o.live_key_at(i, k2);
                assert(o.live_key_at(i, k2));
                if i == i0 {
                    assert(o.live_at(i) && o.live_at(i0));
                }
                assert(self.live_key_at(i, k2));
            }
            assert(self@ =~= o@.remove(k));
            assert forall|p: int|
                0 <= p < hA.len() && (#[trigger] hA[p]) < sA.len() && hA[p] != idx
                    && sA[hA[p] as int] is Some && sA[hA[p] as int]->Some_0.live
                implies sA[hA[p] as int]->Some_0.key@ != k by {
                let e = hA[p] as int;
                if sA[e]->Some_0.key@ == k {
                    assert(o.live_at(e) && o.live_at(i0));
                }
            }
            lemma_recency_kill(sA, self.slots(), hA, idx, k);
        }
    }

    /// When no live slot holds `k`, the recency sequence has no entry for
    /// `k`, so removing `k` from it changes nothing.
    proof fn lemma_no_live_key_recency(self, k: Seq<char>)
        requires
            self.wf(),
            !self.has_live_key(k),
        ensures
            remove_key(self.recency(), k) == self.recency(),
    {
        let slots = self.slots();
        let h = self.hist();
        assert forall|p: int|
            0 <= p < h.len() && (#[trigger] h[p]) < slots.len() && slots[h[p] as int] is Some
                && slots[h[p] as int]->Some_0.live implies slots[h[p] as int]->Some_0.key@
            != k by {
            let e = h[p] as int;
            if slots[e]->Some_0.key@ == k {
                assert(self.live_key_at(e, k));
            }
        }
        lemma_remove_key_no_key(slots, h, k);
    }

    /// Tables with the same slot array have the same view.
    proof fn lemma_view_eq_same_slots(self, other: Self)
        requires
            self.wf(),
            other.wf(),
            self.slots() == other.slots(),
        ensures
            self@ == other@,
    {
        assert forall|k2: Seq<char>| #[trigger] self@.contains_key(k2)
            implies other@.contains_key(k2) && self@[k2] == other@[k2] by {
            let i = choose|i: int| self.live_key_at(i, k2);
            assert(self.live_key_at(i, k2));
            assert(other.live_key_at(i, k2));
            self.lemma_view_at(i, k2);
            other.lemma_view_at(i, k2);
        }
        assert forall|k2: Seq<char>| #[trigger] other@.contains_key(k2)
            implies self@.contains_key(k2) by {
            let i = choose|i: int| other.live_key_at(i, k2);
            assert(other.live_key_at(i, k2));
            assert(self.live_key_at(i, k2));
        }
        assert(self@ =~= other@);
    }

    /// The live count reads only the slot array.
    proof fn lemma_live_count_same(self, other: Self, n: int)
        requires
            self.slots() == other.slots(),
        ensures
            self.live_count_upto(n) == other.live_count_upto(n),
        decreases n,
    {
        if n > 0 {
            self.lemma_live_count_same(other, n - 1);
        }
    }

    /// The invariants that speak only of the slot array carry over to any
    /// table with the same one.
    proof fn lemma_slot_invariants_carry(self, other: Self)
        requires
            self.wf(),
            other.slots() == self.slots(),
        ensures
            other.inv_unique(),
            other.inv_reach(),
            other.inv_live_first(),
    {
        let cap = other.capacity();
        assert forall|i: int, j: int|
            0 <= i < cap && 0 <= j < cap && other.live_at(i) && other.live_at(j)
                && other.key_at(i) == other.key_at(j) implies i == j by {
            assert(self.live_at(i) && self.live_at(j));
        }
        assert forall|i: int, t: int|
            0 <= i < cap && other.occupied(i) && 0 <= t < other.probe_dist(
                other.key_at(i),
                i,
            ) implies other.occupied(other.probe_slot(other.key_at(i), t)) by {
            assert(self.occupied(i));
            assert(self.occupied(self.probe_slot(self.key_at(i), t)));
        }
        assert forall|i: int, j: int|
            0 <= i < cap && 0 <= j < cap && other.live_at(i) && other.occupied(j) && i != j
                && other.key_at(j) == other.key_at(i) implies other.probe_dist(
            other.key_at(i),
            i,
        ) < other.probe_dist(other.key_at(i), j) by {
            assert(self.live_at(i) && self.occupied(j));
        }
    }

    /// Popping a front history entry that points at a dead slot preserves
    /// well-formedness and the recency sequence.
    proof fn lemma_pop_front_dead(self, other: Self)
        requires
            self.wf(),
            self.hist().len() > 0,
            !self.live_at(self.hist()[0] as int),
            other.table == self.table,
            other.len == self.len,
            other.hist() == self.hist().drop_first(),
        ensures
            other.wf(),
            recency_of(other.slots(), other.hist()) == recency_of(self.slots(), self.hist()),
    {
        let h = self.hist();
        self.lemma_live_count_same(other, self.capacity());
        self.lemma_slot_invariants_carry(other);
        assert forall|p: int| 0 <= p < other.hist().len() implies (#[trigger] other.hist()[p])
            < other.capacity() && other.occupied(other.hist()[p] as int) by {
            assert(other.hist()[p] == h[p + 1]);
            assert(h[p + 1] < self.capacity() && self.occupied(h[p + 1] as int));
        }
        assert forall|p: int, q: int| 0 <= p < q < other.hist().len() implies other.hist()[p]
            != other.hist()[q] by {
            assert(other.hist()[p] == h[p + 1] && other.hist()[q] == h[q + 1]);
        }
        assert forall|i: int|
            0 <= i < other.capacity() && #[trigger] other.live_at(i) implies exists|p: int|
            0 <= p < other.hist().len() && #[trigger] other.hist()[p] as int == i by {
            assert(self.live_at(i));
            let p = choose|p: int| 0 <= p < h.len() && #[trigger] h[p] as int == i;
            assert(p != 0);
            assert(other.hist()[p - 1] as int == i);
        }
        assert(other.wf());
        assert(entry_of(self.slots(), h[0]) =~= Seq::<(Seq<char>, i64)>::empty());
        assert(recency_of(other.slots(), other.hist()) =~= recency_of(
            self.slots(),
            self.hist(),
        ));
    }

    /// Popping a back history entry that points at a dead slot preserves
    /// well-formedness and the recency sequence.
    proof fn lemma_pop_back_dead(self, other: Self)
        requires
            self.wf(),
            self.hist().len() > 0,
            !self.live_at(self.hist()[self.hist().len() - 1] as int),
            other.table == self.table,
            other.len == self.len,
            other.hist() == self.hist().drop_last(),
        ensures
            other.wf(),
            recency_of(other.slots(), other.hist()) == recency_of(self.slots(), self.hist()),
    {
        let h = self.hist();
        let last = h[h.len() - 1];
        self.lemma_live_count_same(other, self.capacity());
        self.lemma_slot_invariants_carry(other);
        assert forall|i: int|
            0 <= i < other.capacity() && #[trigger] other.live_at(i) implies exists|p: int|
            0 <= p < other.hist().len() && #[trigger] other.hist()[p] as int == i by {
            assert(self.live_at(i));
            let p = choose|p: int| 0 <= p < h.len() && #[trigger] h[p] as int == i;
            assert(p != h.len() - 1);
            assert(other.hist()[p] as int == i);
        }
        assert(other.wf());
        assert(h.drop_last().push(last) =~= h);
        lemma_recency_push(self.slots(), h.drop_last(), last);
        assert(entry_of(self.slots(), last) =~= Seq::<(Seq<char>, i64)>::empty());
        assert(recency_of(other.slots(), other.hist()) =~= recency_of(
            self.slots(),
            self.hist(),
        ));
    }

    /// The oldest live entry by write recency, as a copy of its node. Stale
    /// front history entries, left behind by removals and reinsertions, are
    /// discarded on the way.
    pub fn get_first(&mut self) -> (r: Option<HashNode>)
        requires
            old(self).wf(),
        ensures
            final(self).wf(),
            final(self).capacity() == old(self).capacity(),
            final(self)@ == old(self)@,
            final(self).recency() == old(self).recency(),
            (match r {
                None => old(self).recency().len() == 0,
                Some(n) => old(self).recency().len() > 0 && n.key@ == old(self).recency()[0].0
                    && n.value == old(self).recency()[0].1 && n.live && old(self)@.contains_key(
                    n.key@,
                ) && old(self)@[n.key@] == n.value,
            }),
    {
        loop
            invariant
                self.wf(),
                old(self).wf(),
                self.table == old(self).table,
                self.len == old(self).len,
                recency_of(self.slots(), self.hist()) == old(self).recency(),
            decreases self.mod_history.len(),
        {
            if self.mod_history.len() == 0 {
                proof {
                    self.lemma_view_eq_same_slots(*old(self));
                }
                return None;
            }
            let fi = self.mod_history[0];
            let ghost pre = *self;
            match &self.table[fi] {
                Some(n) => {
                    if n.live {
                        let out = HashNode { key: n.key.clone(), value: n.value, live: true };
                        proof {
                            self.lemma_view_eq_same_slots(*old(self));
                            assert(self.live_key_at(fi as int, self.key_at(fi as int)));
                            self.lemma_view_at(fi as int, self.key_at(fi as int));
                            assert(entry_of(self.slots(), fi) =~= seq![
                                (self.key_at(fi as int), self.val_at(fi as int)),
                            ]);
                            assert(self.recency()[0] == (self.key_at(fi as int), self.val_at(
                                fi as int,
                            )));
                        }
                        return Some(out);
                    }
                },
                None => {
                    proof {
                        assert(self.occupied(self.hist()[0] as int));
                    }
                },
            }
            self.mod_history.pop_front();
            proof {
                assert(pre.hist().drop_first() =~= pre.hist().subrange(
                    1,
                    pre.hist().len() as int,
                ));
                pre.lemma_pop_front_dead(*self);
            }
        }
    }

    /// The most recent live entry by write recency, as a copy of its node.
    /// Stale back history entries are discarded on the way.
    pub fn get_last(&mut self) -> (r: Option<HashNode>)
        requires
            old(self).wf(),
        ensures
            final(self).wf(),
            final(self).capacity() == old(self).capacity(),
            final(self)@ == old(self)@,
            final(self).recency() == old(self).recency(),
            (match r {
                None => old(self).recency().len() == 0,
                Some(n) => old(self).recency().len() > 0 && n.key@ == old(self).recency().last().0
                    && n.value == old(self).recency().last().1 && n.live
                    && old(self)@.contains_key(n.key@) && old(self)@[n.key@] == n.value,
            }),
    {
        loop
            invariant
                self.wf(),
                old(self).wf(),
                self.table == old(self).table,
                self.len == old(self).len,
                recency_of(self.slots(), self.hist()) == old(self).recency(),
            decreases self.mod_history.len(),
        {
            let hist_len = self.mod_history.len();
            if hist_len == 0 {
                proof {
                    self.lemma_view_eq_same_slots(*old(self));
                }
                return None;
            }
            let li = self.mod_history[hist_len - 1];
            let ghost pre = *self;
            match &self.table[li] {
                Some(n) => {
                    if n.live {
                        let out = HashNode { key: n.key.clone(), value: n.value, live: true };
                        proof {
                            self.lemma_view_eq_same_slots(*old(self));
                            assert(self.live_key_at(li as int, self.key_at(li as int)));
                            self.lemma_view_at(li as int, self.key_at(li as int));
                            let h = self.hist();
                            assert(h.drop_last().push(li) =~= h);
                            lemma_recency_push(self.slots(), h.drop_last(), li);
                            assert(entry_of(self.slots(), li) =~= seq![
                                (self.key_at(li as int), self.val_at(li as int)),
                            ]);
                            assert(self.recency().last() == (self.key_at(li as int), self.val_at(
                                li as int,
                            )));
                        }
                        return Some(out);
                    }
                },
                None => {
                    proof {
                        assert(self.occupied(self.hist()[self.hist().len() - 1] as int));
                    }
                },
            }
            self.mod_history.pop_back();
            proof {
                assert(pre.hist().drop_last() =~= pre.hist().subrange(
                    0,
                    pre.hist().len() - 1,
                ));
                pre.lemma_pop_back_dead(*self);
            }
        }
    }

    /// The table never holds more live entries than its capacity.
    pub proof fn lemma_len_within_capacity(self)
        requires
            self.wf(),
        ensures
            self@.dom().finite(),
            self@.dom().len() <= self.capacity(),
    {
        self.lemma_card();
        self.lemma_live_count_bound(self.capacity());
    }

    /// While fewer entries are live than the capacity, the table is not full
    /// for any key: every insertion finds a slot.
    pub proof fn lemma_not_full_when_room(self, k: Seq<char>)
        requires
            self.wf(),
            self@.dom().len() < self.capacity(),
        ensures
            !self.is_full_for(k),
    {
        self.lemma_card();
        self.lemma_live_count_bound(self.capacity());
        if self.is_full_for(k) {
            assert forall|i: int| 0 <= i < self.capacity() implies #[trigger] self.live_at(i) by {}
            assert(self.live_count_upto(self.capacity()) == self.capacity());
        }
    }

    /// A table that is full for `k` holds as many live entries as it has
    /// slots, and `k` is not one of them.
    pub proof fn lemma_full_table(self, k: Seq<char>)
        requires
            self.wf(),
            self.is_full_for(k),
        ensures
            self@.dom().len() == self.capacity(),
            !self@.contains_key(k),
    {
        self.lemma_card();
        self.lemma_live_count_bound(self.capacity());
        assert forall|i: int| 0 <= i < self.capacity() implies #[trigger] self.live_at(i) by {}
        assert(self.live_count_upto(self.capacity()) == self.capacity());
        if self@.contains_key(k) {
            let i = choose|i: int| self.live_key_at(i, k);
            assert(self.live_key_at(i, k));
            assert(self.live_at(i));
        }
    }

    /// Recency entry `p` of `h` names the key and value of a live slot that
    /// `h` records.
    spec fn rec_entry_live(self, h: Seq<usize>, p: int) -> bool {
        exists|i: int|
            self.live_key_at(i, recency_of(self.slots(), h)[p].0) && self.val_at(i)
                == recency_of(self.slots(), h)[p].1 && h.contains(i as usize)
    }

    /// Each recency entry, with its key and value, is a live slot recorded in
    /// `h`.
    proof fn lemma_rec_entries(self, h: Seq<usize>)
        requires
            self.wf(),
            forall|p: int|
                0 <= p < h.len() ==> (#[trigger] h[p]) < self.capacity() && self.occupied(
                    h[p] as int,
                ),
            forall|p: int, q: int| 0 <= p < q < h.len() ==> h[p] != h[q],
        ensures
            forall|p: int|
                0 <= p < recency_of(self.slots(), h).len() ==> #[trigger] self.rec_entry_live(
                    h,
                    p,
                ),
            forall|p: int, q: int|
                #![trigger recency_of(self.slots(), h)[p], recency_of(self.slots(), h)[q]]
                0 <= p < q < recency_of(self.slots(), h).len() ==> recency_of(self.slots(), h)[p].0
                    != recency_of(self.slots(), h)[q].0,
            forall|i: int|
                0 <= i < self.capacity() && #[trigger] self.live_at(i) && h.contains(i as usize)
                    ==> exists|p: int|
                    0 <= p < recency_of(self.slots(), h).len() && (#[trigger] recency_of(
                        self.slots(),
                        h,
                    )[p]).0 == self.key_at(i),
        decreases h.len(),
    {
        if h.len() == 0 {
            assert(recency_of(self.slots(), h).len() == 0);
        } else {
            let e = h[0];
            let hr = h.drop_first();
            let r = recency_of(self.slots(), h);
            let rr = recency_of(self.slots(), hr);
            let el = entry_of(self.slots(), e);
            assert(r == el + rr);
            assert forall|p: int| 0 <= p < hr.len() implies (#[trigger] hr[p]) < self.capacity()
                && self.occupied(hr[p] as int) by {
                assert(hr[p] == h[p + 1]);
            }
            assert forall|p: int, q: int| 0 <= p < q < hr.len() implies hr[p] != hr[q] by {
                assert(hr[p] == h[p + 1] && hr[q] == h[q + 1]);
            }
            self.lemma_rec_entries(hr);
            assert(!hr.contains(e)) by {
                if hr.contains(e) {
                    let p = choose|p: int| 0 <= p < hr.len() && hr[p] == e;
                    assert(h[p + 1] == e && h[0] == e);
                }
            }
            assert forall|y: usize| hr.contains(y) implies h.contains(y) by {
                let p = choose|p: int| 0 <= p < hr.len() && hr[p] == y;
                assert(h[p + 1] == y);
            }
            assert forall|p: int|
                0 <= p < recency_of(self.slots(), h).len() implies #[trigger] self.rec_entry_live(
                h,
                p,
            ) by {
                if el.len() == 1 && p == 0 {
                    assert(h[0] == e);
                    assert(h.contains(e));
                    assert(self.live_key_at(e as int, recency_of(self.slots(), h)[p].0)
                        && self.val_at(e as int) == recency_of(self.slots(), h)[p].1
                        && h.contains((e as int) as usize));
                } else {
                    assert(r[p] == rr[p - el.len()]);
                    assert(self.rec_entry_live(hr, p - el.len()));
                    let i = choose|i: int|
                        self.live_key_at(i, recency_of(self.slots(), hr)[p - el.len()].0)
                            && self.val_at(i) == recency_of(self.slots(), hr)[p - el.len()].1
                            && hr.contains(i as usize);
                    assert(h.contains(i as usize));
                    assert(self.live_key_at(i, recency_of(self.slots(), h)[p].0) && self.val_at(
                        i,
                    ) == recency_of(self.slots(), h)[p].1 && h.contains(i as usize));
                }
            }
            assert forall|p: int, q: int| #![trigger r[p], r[q]] 0 <= p < q < r.len() implies r[p].0
                != r[q].0 by {
                if el.len() == 1 && p == 0 {
                    assert(r[q] == rr[q - 1]);
                    assert(self.rec_entry_live(hr, q - 1));
                    let i = choose|i: int|
                        self.live_key_at(i, recency_of(self.slots(), hr)[q - 1].0) && self.val_at(
                            i,
                        ) == recency_of(self.slots(), hr)[q - 1].1 && hr.contains(i as usize);
                    if r[p].0 == r[q].0 {
                        assert(self.live_at(i) && self.live_at(e as int));
                        assert(i == e as int);
                    }
                } else {
                    assert(r[p] == rr[p - el.len()] && r[q] == rr[q - el.len()]);
                }
            }
            assert forall|i: int|
                0 <= i < self.capacity() && #[trigger] self.live_at(i) && h.contains(i as usize)
                implies exists|p: int|
                0 <= p < r.len() && (#[trigger] r[p]).0 == self.key_at(i) by {
                let p0 = choose|p0: int| 0 <= p0 < h.len() && h[p0] == i as usize;
                if p0 == 0 {
                    assert(el.len() == 1);
                    assert(r[0].0 == self.key_at(i));
                } else {
                    assert(hr[p0 - 1] == i as usize);
                    assert(hr.contains(i as usize));
                    let p = choose|p: int| 0 <= p < rr.len() && rr[p].0 == self.key_at(i);
                    assert(r[p + el.len()].0 == self.key_at(i));
                }
            }
        }
    }

    /// The recency sequence and the view agree: every recency entry is a live
    /// entry of the map, no key appears twice, and every key of the map
    /// appears. The order of the entries is the order of the last writes.
    pub proof fn lemma_recency_matches_view(self)
        requires
            self.wf(),
        ensures
            forall|p: int|
                0 <= p < self.recency().len() ==> self@.contains_key(
                    (#[trigger] self.recency()[p]).0,
                ) && self@[self.recency()[p].0] == self.recency()[p].1,
            forall|p: int, q: int|
                #![trigger self.recency()[p], self.recency()[q]]
                0 <= p < q < self.recency().len() ==> self.recency()[p].0 != self.recency()[q].0,
            forall|k: Seq<char>|
                #[trigger] self@.contains_key(k) ==> exists|p: int|
                    0 <= p < self.recency().len() && (#[trigger] self.recency()[p]).0 == k,
            self.recency().len() == self@.dom().len(),
    {
        self.lemma_rec_entries(self.hist());
        let r = self.recency();
        assert forall|p: int| 0 <= p < r.len() implies self@.contains_key((#[trigger] r[p]).0)
            && self@[r[p].0] == r[p].1 by {
            assert(self.rec_entry_live(self.hist(), p));
            let i = choose|i: int|
                self.live_key_at(i, recency_of(self.slots(), self.hist())[p].0) && self.val_at(
                    i,
                ) == recency_of(self.slots(), self.hist())[p].1 && self.hist().contains(
                    i as usize,
                );
            self.lemma_view_at(i, r[p].0);
        }
        assert forall|k: Seq<char>| #[trigger] self@.contains_key(k) implies exists|p: int|
            0 <= p < r.len() && (#[trigger] r[p]).0 == k by {
            let i = choose|i: int| self.live_key_at(i, k);
            assert(self.live_key_at(i, k));
            assert(self.live_at(i));
            let q = choose|q: int|
                0 <= q < self.hist().len() && #[trigger] self.hist()[q] as int == i;
            assert(self.hist()[q] == i as usize);
            assert(self.hist().contains(i as usize));
        }
        let ks = Seq::new(r.len() as nat, |p: int| r[p].0);
        assert forall|p: int, q: int| 0 <= p < ks.len() && 0 <= q < ks.len() && p != q
            implies ks[p] != ks[q] by {
            if p < q {
                assert(r[p].0 != r[q].0);
            } else {
                assert(r[q].0 != r[p].0);
            }
        }
        ks.unique_seq_to_set();
        assert(ks.to_set() =~= self@.dom()) by {
            assert forall|k2: Seq<char>| ks.to_set().contains(k2)
                implies self@.dom().contains(k2) by {
                let p = choose|p: int| 0 <= p < ks.len() && ks[p] == k2;
                assert(r[p].0 == k2);
                assert(self@.contains_key(r[p].0));
            }
            assert forall|k2: Seq<char>| self@.dom().contains(k2) implies ks.to_set().contains(
                k2,
            ) by {
                assert(self@.contains_key(k2));
                let p = choose|p: int| 0 <= p < r.len() && (#[trigger] r[p]).0 == k2;
                assert(ks[p] == k2);
                assert(ks.contains(k2));
            }
        }
    }

    /// The number of live entries. Constant time: the table keeps the count.
    pub fn len(&self) -> (n: usize)
        requires
            self.wf(),
        ensures
            n as nat == self@.dom().len(),
    {
        proof {
            self.lemma_card();
        }
        self.len
    }
}

/// The recency entry slot `x` contributes: its key and value if it holds a
/// live node, nothing otherwise.
spec fn entry_of(slots: Seq<Option<HashNode>>, x: usize) -> Seq<(Seq<char>, i64)> {
    if x < slots.len() && slots[x as int] is Some && slots[x as int]->Some_0.live {
        seq![(slots[x as int]->Some_0.key@, slots[x as int]->Some_0.value)]
    } else {
        Seq::<(Seq<char>, i64)>::empty()
    }
}

/// The live entries that `h` points at, in the order of `h`.
spec fn recency_of(slots: Seq<Option<HashNode>>, h: Seq<usize>) -> Seq<(Seq<char>, i64)>
    decreases h.len(),
{
    if h.len() == 0 {
        Seq::empty()
    } else {
        entry_of(slots, h[0]) + recency_of(slots, h.drop_first())
    }
}

/// Appending a history entry appends its recency entry.
proof fn lemma_recency_push(slots: Seq<Option<HashNode>>, h: Seq<usize>, x: usize)
    ensures
        recency_of(slots, h.push(x)) == recency_of(slots, h) + entry_of(slots, x),
    decreases h.len(),
{
    if h.len() == 0 {
        reveal_with_fuel(recency_of, 3);
        assert(h.push(x)[0] == x);
        assert(h.push(x).drop_first() =~= Seq::<usize>::empty());
        assert(recency_of(slots, h.push(x)) =~= recency_of(slots, h) + entry_of(slots, x));
    } else {
        assert(h.push(x)[0] == h[0]);
        assert(h.push(x).drop_first() =~= h.drop_first().push(x));
        lemma_recency_push(slots, h.drop_first(), x);
        assert(recency_of(slots, h.push(x)) =~= recency_of(slots, h) + entry_of(slots, x));
    }
}

/// The recency sequence reads only the slots the history points at: slot
/// arrays that agree there give the same sequence.
proof fn lemma_recency_agree(
    s1: Seq<Option<HashNode>>,
    s2: Seq<Option<HashNode>>,
    h: Seq<usize>,
)
    requires
        s1.len() == s2.len(),
        forall|p: int|
            0 <= p < h.len() && (#[trigger] h[p]) < s1.len() ==> s1[h[p] as int] == s2[h[p] as int],
    ensures
        recency_of(s1, h) == recency_of(s2, h),
    decreases h.len(),
{
    if h.len() > 0 {
        assert forall|p: int|
            0 <= p < h.drop_first().len() && (#[trigger] h.drop_first()[p]) < s1.len()
            implies s1[h.drop_first()[p] as int] == s2[h.drop_first()[p] as int] by {
            assert(h.drop_first()[p] == h[p + 1]);
        }
        lemma_recency_agree(s1, s2, h.drop_first());
        assert(entry_of(s1, h[0]) == entry_of(s2, h[0]));
    }
}

/// Removing slot `x` from the history removes exactly the recency entries
/// with key `k`, provided `x` is the only slot that can contribute `k`.
proof fn lemma_recency_remove(
    slots: Seq<Option<HashNode>>,
    h: Seq<usize>,
    x: usize,
    k: Seq<char>,
)
    requires
        forall|p: int|
            0 <= p < h.len() && (#[trigger] h[p]) < slots.len() && slots[h[p] as int] is Some
                && slots[h[p] as int]->Some_0.live ==> (if h[p] == x {
                slots[h[p] as int]->Some_0.key@ == k
            } else {
                slots[h[p] as int]->Some_0.key@ != k
            }),
    ensures
        recency_of(slots, remove_index(h, x)) == remove_key(recency_of(slots, h), k),
    decreases h.len(),
{
    if h.len() == 0 {
        assert(recency_of(slots, remove_index(h, x)) =~= remove_key(recency_of(slots, h), k));
    } else {
        assert forall|p: int|
            0 <= p < h.drop_first().len() && (#[trigger] h.drop_first()[p]) < slots.len()
                && slots[h.drop_first()[p] as int] is Some
                && slots[h.drop_first()[p] as int]->Some_0.live implies (if h.drop_first()[p]
                == x {
                slots[h.drop_first()[p] as int]->Some_0.key@ == k
            } else {
                slots[h.drop_first()[p] as int]->Some_0.key@ != k
            }) by {
            assert(h.drop_first()[p] == h[p + 1]);
        }
        lemma_recency_remove(slots, h.drop_first(), x, k);
        let e = entry_of(slots, h[0]);
        let rest = recency_of(slots, h.drop_first());
        assert(recency_of(slots, h) == e + rest);
        if h[0] == x {
            assert(remove_index(h, x) == remove_index(h.drop_first(), x));
            if e.len() == 1 {
                assert((e + rest)[0].0 == k);
                assert((e + rest).drop_first() =~= rest);
            } else {
                assert(e + rest =~= rest);
            }
        } else {
            assert(remove_index(h, x) == seq![h[0]] + remove_index(h.drop_first(), x));
            assert((seq![h[0]] + remove_index(h.drop_first(), x)).drop_first() =~= remove_index(
                h.drop_first(),
                x,
            ));
            assert(recency_of(slots, remove_index(h, x)) == entry_of(slots, h[0]) + recency_of(
                slots,
                remove_index(h.drop_first(), x),
            ));
            if e.len() == 1 {
                assert((e + rest)[0].0 != k);
                assert((e + rest).drop_first() =~= rest);
                assert(remove_key(e + rest, k) == seq![(e + rest)[0]] + remove_key(rest, k));
                assert(seq![(e + rest)[0]] =~= e);
                assert(recency_of(slots, remove_index(h, x)) =~= remove_key(
                    recency_of(slots, h),
                    k,
                ));
            } else {
                assert(e + rest =~= rest);
                assert(recency_of(slots, remove_index(h, x)) =~= remove_key(
                    recency_of(slots, h),
                    k,
                ));
            }
        }
    }
}

/// Marking the live node of key `k` at slot `x` dead removes exactly the
/// recency entries with key `k`, provided no other slot contributes `k`.
proof fn lemma_recency_kill(
    s1: Seq<Option<HashNode>>,
    s2: Seq<Option<HashNode>>,
    h: Seq<usize>,
    x: usize,
    k: Seq<char>,
)
    requires
        s1.len() == s2.len(),
        x < s1.len(),
        s1[x as int] is Some && s1[x as int]->Some_0.live && s1[x as int]->Some_0.key@ == k,
        s2[x as int] is Some && !s2[x as int]->Some_0.live,
        forall|j: int| 0 <= j < s1.len() && j != x ==> s1[j] == s2[j],
        forall|p: int|
            0 <= p < h.len() && (#[trigger] h[p]) < s1.len() && h[p] != x
                && s1[h[p] as int] is Some && s1[h[p] as int]->Some_0.live ==> s1[h[p] as int]
                ->Some_0.key@ != k,
    ensures
        recency_of(s2, h) == remove_key(recency_of(s1, h), k),
    decreases h.len(),
{
    if h.len() == 0 {
        assert(recency_of(s2, h) =~= remove_key(recency_of(s1, h), k));
    } else {
        assert forall|p: int|
            0 <= p < h.drop_first().len() && (#[trigger] h.drop_first()[p]) < s1.len()
                && h.drop_first()[p] != x && s1[h.drop_first()[p] as int] is Some
                && s1[h.drop_first()[p] as int]->Some_0.live
            implies s1[h.drop_first()[p] as int]->Some_0.key@ != k by {
            assert(h.drop_first()[p] == h[p + 1]);
        }
        lemma_recency_kill(s1, s2, h.drop_first(), x, k);
        let e1 = entry_of(s1, h[0]);
        let rest1 = recency_of(s1, h.drop_first());
        if h[0] == x {
            assert(entry_of(s2, h[0]) =~= Seq::<(Seq<char>, i64)>::empty());
            assert((e1 + rest1)[0].0 == k);
            assert((e1 + rest1).drop_first() =~= rest1);
            assert(recency_of(s2, h) =~= remove_key(recency_of(s1, h), k));
        } else {
            assert(entry_of(s2, h[0]) == e1);
            if e1.len() == 1 {
                assert((e1 + rest1)[0].0 != k);
                assert((e1 + rest1).drop_first() =~= rest1);
                assert(remove_key(e1 + rest1, k) == seq![(e1 + rest1)[0]] + remove_key(rest1, k));
                assert(seq![(e1 + rest1)[0]] =~= e1);
                assert(recency_of(s2, h) =~= remove_key(recency_of(s1, h), k));
            } else {
                assert(e1 + rest1 =~= rest1);
                assert(recency_of(s2, h) =~= remove_key(recency_of(s1, h), k));
            }
        }
    }
}

/// When no live slot the history points at holds `k`, the recency sequence
/// has no entry with key `k`.
proof fn lemma_remove_key_no_key(slots: Seq<Option<HashNode>>, h: Seq<usize>, k: Seq<char>)
    requires
        forall|p: int|
            0 <= p < h.len() && (#[trigger] h[p]) < slots.len() && slots[h[p] as int] is Some
                && slots[h[p] as int]->Some_0.live ==> slots[h[p] as int]->Some_0.key@ != k,
    ensures
        remove_key(recency_of(slots, h), k) == recency_of(slots, h),
    decreases h.len(),
{
    if h.len() == 0 {
        assert(remove_key(recency_of(slots, h), k) =~= recency_of(slots, h));
    } else {
        assert forall|p: int|
            0 <= p < h.drop_first().len() && (#[trigger] h.drop_first()[p]) < slots.len()
                && slots[h.drop_first()[p] as int] is Some
                && slots[h.drop_first()[p] as int]->Some_0.live
            implies slots[h.drop_first()[p] as int]->Some_0.key@ != k by {
            assert(h.drop_first()[p] == h[p + 1]);
        }
        lemma_remove_key_no_key(slots, h.drop_first(), k);
        let e = entry_of(slots, h[0]);
        let rest = recency_of(slots, h.drop_first());
        if e.len() == 1 {
            assert((e + rest)[0].0 != k);
            assert((e + rest).drop_first() =~= rest);
            assert(remove_key(e + rest, k) == seq![(e + rest)[0]] + remove_key(rest, k));
            assert(seq![(e + rest)[0]] =~= e);
            assert(remove_key(recency_of(slots, h), k) =~= recency_of(slots, h));
        } else {
            assert(e + rest =~= rest);
            assert(remove_key(recency_of(slots, h), k) =~= recency_of(slots, h));
        }
    }
}

/// What removing one index from a history leaves: no occurrence of it, every
/// other entry kept, and distinctness preserved.
proof fn lemma_remove_index(h: Seq<usize>, x: usize)
    ensures
        forall|p: int|
            0 <= p < remove_index(h, x).len() ==> #[trigger] remove_index(h, x)[p] != x
                && h.contains(remove_index(h, x)[p]),
        forall|y: usize| y != x && h.contains(y) ==> remove_index(h, x).contains(y),
        (forall|p: int, q: int| 0 <= p < q < h.len() ==> h[p] != h[q]) ==> (forall|p: int, q: int|
            0 <= p < q < remove_index(h, x).len() ==> remove_index(h, x)[p] != remove_index(
                h,
                x,
            )[q]),
    decreases h.len(),
{
    if h.len() > 0 {
        lemma_remove_index(h.drop_first(), x);
        assert forall|y: usize| h.drop_first().contains(y) implies h.contains(y) by {
            let p = choose|p: int| 0 <= p < h.drop_first().len() && h.drop_first()[p] == y;
            assert(h[p + 1] == y);
        }
        assert forall|y: usize| y != x && h.contains(y) implies remove_index(h, x).contains(
            y,
        ) by {
            let p = choose|p: int| 0 <= p < h.len() && h[p] == y;
            if p == 0 && h[0] != x {
                assert(remove_index(h, x)[0] == y);
            } else {
                assert(h.drop_first()[p - 1] == y);
                assert(h.drop_first().contains(y));
                assert(remove_index(h.drop_first(), x).contains(y));
                let q = choose|q: int|
                    0 <= q < remove_index(h.drop_first(), x).len() && remove_index(
                        h.drop_first(),
                        x,
                    )[q] == y;
                if h[0] == x {
                    assert(remove_index(h, x)[q] == y);
                } else {
                    assert(remove_index(h, x)[q + 1] == y);
                }
            }
        }
        if forall|p: int, q: int| 0 <= p < q < h.len() ==> h[p] != h[q] {
            assert forall|p: int, q: int| 0 <= p < q < h.drop_first().len()
                implies h.drop_first()[p] != h.drop_first()[q] by {
                assert(h.drop_first()[p] == h[p + 1]);
                assert(h.drop_first()[q] == h[q + 1]);
            }
            if h[0] != x {
                assert forall|p: int, q: int| 0 <= p < q < remove_index(h, x).len()
                    implies remove_index(h, x)[p] != remove_index(h, x)[q] by {
                    if p == 0 {
                        // the head is h[0]; the tail entries all occur in
                        // h.drop_first(), where h[0] does not repeat
                        let y = remove_index(h, x)[q];
                        assert(y == remove_index(h.drop_first(), x)[q - 1]);
                        assert(h.drop_first().contains(y));
                        let r = choose|r: int|
                            0 <= r < h.drop_first().len() && h.drop_first()[r] == y;
                        assert(h[r + 1] == y);
                    } else {
                        assert(remove_index(h, x)[p] == remove_index(h.drop_first(), x)[p - 1]);
                        assert(remove_index(h, x)[q] == remove_index(h.drop_first(), x)[q - 1]);
                    }
                }
            }
        }
    }
}

/// Rebuilding a history one entry at a time: filtering the next entry.
proof fn lemma_remove_index_push(h: Seq<usize>, y: usize, x: usize)
    ensures
        remove_index(h.push(y), x) == if y == x {
            remove_index(h, x)
        } else {
            remove_index(h, x).push(y)
        },
    decreases h.len(),
{
    if h.len() == 0 {
        reveal_with_fuel(remove_index, 3);
        assert(h.push(y)[0] == y);
        assert(h.push(y).drop_first() =~= Seq::<usize>::empty());
        if y != x {
            assert(remove_index(h.push(y), x) =~= remove_index(h, x).push(y));
        }
    } else {
        assert(h.push(y)[0] == h[0]);
        assert(h.push(y).drop_first() =~= h.drop_first().push(y));
        lemma_remove_index_push(h.drop_first(), y, x);
        if y != x {
            assert(remove_index(h.push(y), x) =~= remove_index(h, x).push(y));
        }
    }
}

} // verus!
