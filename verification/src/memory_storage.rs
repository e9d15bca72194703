use vstd::prelude::*;
use vstd::slice::slice_to_vec;

verus! {

/// Strict lexicographic order on byte strings: the order in which storage
/// keys are kept and enumerated.
pub open spec fn key_lt(a: Seq<u8>, b: Seq<u8>) -> bool
    decreases a.len(),
{
    if a.len() == 0 {
        b.len() > 0
    } else if b.len() == 0 {
        false
    } else if a[0] != b[0] {
        a[0] < b[0]
    } else {
        key_lt(a.drop_first(), b.drop_first())
    }
}

/// No key is below itself.
pub proof fn lemma_key_lt_irreflexive(a: Seq<u8>)
    ensures
        !key_lt(a, a),
    decreases a.len(),
{
    if a.len() > 0 {
        lemma_key_lt_irreflexive(a.drop_first());
    }
}

/// The key order is transitive.
pub proof fn lemma_key_lt_transitive(a: Seq<u8>, b: Seq<u8>, c: Seq<u8>)
    requires
        key_lt(a, b),
        key_lt(b, c),
    ensures
        key_lt(a, c),
    decreases a.len(),
{
    if a.len() > 0 && b.len() > 0 && c.len() > 0 && a[0] == b[0] && b[0] == c[0] {
        lemma_key_lt_transitive(a.drop_first(), b.drop_first(), c.drop_first());
    }
}

/// Two distinct keys are ordered one way or the other, and never both ways.
pub proof fn lemma_key_lt_total(a: Seq<u8>, b: Seq<u8>)
    ensures
        a != b ==> (key_lt(a, b) || key_lt(b, a)),
        !(key_lt(a, b) && key_lt(b, a)),
    decreases a.len(),
{
    if a.len() > 0 && b.len() > 0 && a[0] == b[0] {
        lemma_key_lt_total(a.drop_first(), b.drop_first());
        if a.drop_first() == b.drop_first() {
            assert(a =~= seq![a[0]] + a.drop_first());
            assert(b =~= seq![b[0]] + b.drop_first());
        }
    } else if a.len() == 0 && b.len() == 0 {
        assert(a =~= b);
    }
}

/// Result of comparing two keys.
pub enum KeyOrder {
    Less,
    Equal,
    Greater,
}

/// Compares two keys in lexicographic byte order.
pub fn key_order(a: &[u8], b: &[u8]) -> (r: KeyOrder)
    ensures
        r is Less <==> key_lt(a@, b@),
        r is Equal <==> a@ == b@,
        r is Greater <==> key_lt(b@, a@),
{
    proof {
        lemma_key_lt_total(a@, b@);
        lemma_key_lt_irreflexive(a@);
    }
    let mut i: usize = 0;
    assert(a@.skip(0) =~= a@);
    assert(b@.skip(0) =~= b@);
    while i < a.len() && i < b.len()
        invariant
            i <= a@.len(),
            i <= b@.len(),
            a@.take(i as int) == b@.take(i as int),
            key_lt(a@, b@) == key_lt(a@.skip(i as int), b@.skip(i as int)),
            key_lt(b@, a@) == key_lt(b@.skip(i as int), a@.skip(i as int)),
        decreases a@.len() - i,
    {
        if a[i] != b[i] {
            if a[i] < b[i] {
                return KeyOrder::Less;
            } else {
                return KeyOrder::Greater;
            }
        }
        assert(a@.skip(i as int).drop_first() =~= a@.skip(i + 1));
        assert(b@.skip(i as int).drop_first() =~= b@.skip(i + 1));
        assert(a@.take(i + 1) =~= a@.take(i as int).push(a@[i as int]));
        assert(b@.take(i + 1) =~= b@.take(i as int).push(b@[i as int]));
        i = i + 1;
    }
    if a.len() == b.len() {
        assert(a@ =~= a@.take(i as int));
        assert(b@ =~= b@.take(i as int));
        KeyOrder::Equal
    } else if a.len() < b.len() {
        KeyOrder::Less
    } else {
        KeyOrder::Greater
    }
}

/// A key/value pair as the specifications see it.
pub type KeyValue = (Seq<u8>, Seq<u8>);

/// The pairs of a vector of byte-string pairs, as plain sequences.
pub open spec fn pair_views(v: Seq<(Vec<u8>, Vec<u8>)>) -> Seq<KeyValue> {
    v.map_values(|e: (Vec<u8>, Vec<u8>)| (e.0@, e.1@))
}

/// The map obtained by writing `pairs` into `m` one after the other, so that a
/// later pair wins over an earlier one with the same key.
pub open spec fn insert_all(m: Map<Seq<u8>, Seq<u8>>, pairs: Seq<KeyValue>) -> Map<Seq<u8>, Seq<u8>>
    decreases pairs.len(),
{
    if pairs.len() == 0 {
        m
    } else {
        insert_all(m, pairs.drop_last()).insert(pairs.last().0, pairs.last().1)
    }
}

/// The map that a sequence of pairs describes (later pairs win).
pub open spec fn pairs_to_map(pairs: Seq<KeyValue>) -> Map<Seq<u8>, Seq<u8>> {
    insert_all(Map::empty(), pairs)
}

/// Keys strictly increase along the sequence.
pub open spec fn keys_increasing(pairs: Seq<KeyValue>) -> bool {
    forall|i: int, j: int| 0 <= i < j < pairs.len() ==> key_lt(#[trigger] pairs[i].0, #[trigger] pairs[j].0)
}

/// Some pair of the sequence has key `k`.
pub open spec fn has_key(pairs: Seq<KeyValue>, k: Seq<u8>) -> bool {
    exists|i: int| 0 <= i < pairs.len() && #[trigger] pairs[i].0 == k
}

/// Every value of the sequence is non-empty.
pub open spec fn values_nonempty(pairs: Seq<KeyValue>) -> bool {
    forall|i: int| 0 <= i < pairs.len() ==> (#[trigger] pairs[i]).1.len() > 0
}

/// A key belongs to `insert_all(m, pairs)` exactly when it is in `m` or in `pairs`.
pub proof fn lemma_insert_all_contains(m: Map<Seq<u8>, Seq<u8>>, pairs: Seq<KeyValue>, k: Seq<u8>)
    ensures
        insert_all(m, pairs).contains_key(k) == (m.contains_key(k) || has_key(pairs, k)),
    decreases pairs.len(),
{
    if pairs.len() > 0 {
        let init = pairs.drop_last();
        lemma_insert_all_contains(m, init, k);
        if has_key(init, k) {
            let i = choose|i: int| 0 <= i < init.len() && #[trigger] init[i].0 == k;
            assert(pairs[i].0 == k);
        }
        if has_key(pairs, k) && pairs.last().0 != k {
            let i = choose|i: int| 0 <= i < pairs.len() && #[trigger] pairs[i].0 == k;
            assert(init[i].0 == k);
        }
        if pairs.last().0 == k {
            assert(pairs[pairs.len() - 1].0 == k);
        }
    }
}

/// The value of a key in `insert_all(m, pairs)` is the one of its last pair.
pub proof fn lemma_insert_all_last(m: Map<Seq<u8>, Seq<u8>>, pairs: Seq<KeyValue>, i: int)
    requires
        0 <= i < pairs.len(),
        forall|j: int| i < j < pairs.len() ==> (#[trigger] pairs[j]).0 != pairs[i].0,
    ensures
        insert_all(m, pairs).contains_key(pairs[i].0),
        insert_all(m, pairs)[pairs[i].0] == pairs[i].1,
    decreases pairs.len(),
{
    if i < pairs.len() - 1 {
        let init = pairs.drop_last();
        assert(pairs[pairs.len() - 1].0 != pairs[i].0);
        assert forall|j: int| i < j < init.len() implies (#[trigger] init[j]).0 != init[i].0 by {
            assert(pairs[j].0 != pairs[i].0);
        }
        lemma_insert_all_last(m, init, i);
    }
}

/// For pairs sorted by strictly increasing keys, the described map holds
/// exactly the pairs of the sequence.
pub proof fn lemma_sorted_pairs_map(pairs: Seq<KeyValue>)
    requires
        keys_increasing(pairs),
    ensures
        forall|i: int| 0 <= i < pairs.len() ==> #[trigger] pairs_to_map(pairs).contains_key(pairs[i].0),
        forall|i: int| 0 <= i < pairs.len() ==> #[trigger] pairs_to_map(pairs)[pairs[i].0] == pairs[i].1,
        forall|k: Seq<u8>| #[trigger] pairs_to_map(pairs).contains_key(k) <==> has_key(pairs, k),
{
    assert forall|i: int| 0 <= i < pairs.len() implies pairs_to_map(pairs).contains_key(#[trigger] pairs[i].0)
        && pairs_to_map(pairs)[pairs[i].0] == pairs[i].1 by {
        assert forall|j: int| i < j < pairs.len() implies (#[trigger] pairs[j]).0 != pairs[i].0 by {
            lemma_key_lt_irreflexive(pairs[i].0);
        }
        lemma_insert_all_last(Map::empty(), pairs, i);
    }
    assert forall|k: Seq<u8>| #[trigger] pairs_to_map(pairs).contains_key(k) <==> has_key(pairs, k) by {
        lemma_insert_all_contains(Map::empty(), pairs, k);
    }
}

/// Inserting a pair at its sorted position keeps the keys increasing and adds
/// the pair to the described map.
pub proof fn lemma_insert_pair(s: Seq<KeyValue>, i: int, k: Seq<u8>, v: Seq<u8>)
    requires
        keys_increasing(s),
        0 <= i <= s.len(),
        forall|j: int| 0 <= j < i ==> key_lt(#[trigger] s[j].0, k),
        i < s.len() ==> key_lt(k, s[i].0),
    ensures
        keys_increasing(s.insert(i, (k, v))),
        pairs_to_map(s.insert(i, (k, v))) == pairs_to_map(s).insert(k, v),
{
    let t = s.insert(i, (k, v));
    assert forall|a: int, b: int| 0 <= a < b < t.len() implies key_lt(#[trigger] t[a].0, #[trigger] t[b].0) by {
        if b < i {
        } else if a < i && b == i {
        } else if a < i && b > i {
            assert(t[b] == s[b - 1]);
        } else if a == i {
            assert(t[b] == s[b - 1]);
            if b - 1 > i {
                lemma_key_lt_transitive(k, s[i].0, s[b - 1].0);
            }
        } else {
            assert(t[a] == s[a - 1]);
            assert(t[b] == s[b - 1]);
        }
    }
    lemma_sorted_pairs_map(s);
    lemma_sorted_pairs_map(t);
    lemma_key_lt_irreflexive(k);
    let m = pairs_to_map(s).insert(k, v);
    assert forall|x: Seq<u8>| #[trigger] pairs_to_map(t).contains_key(x) <==> m.contains_key(x) by {
        if has_key(t, x) {
            let j = choose|j: int| 0 <= j < t.len() && #[trigger] t[j].0 == x;
            if j < i {
                assert(s[j].0 == x);
            } else if j > i {
                assert(s[j - 1].0 == x);
            }
        }
        if has_key(s, x) {
            let j = choose|j: int| 0 <= j < s.len() && #[trigger] s[j].0 == x;
            if j < i {
                assert(t[j].0 == x);
            } else {
                assert(t[j + 1].0 == x);
            }
        }
        if x == k {
            assert(t[i].0 == x);
        }
    }
    assert forall|x: Seq<u8>| #[trigger] pairs_to_map(t).contains_key(x) implies pairs_to_map(t)[x] == m[x] by {
        let j = choose|j: int| 0 <= j < t.len() && #[trigger] t[j].0 == x;
        if j == i {
        } else if j < i {
            assert(t[j] == s[j]);
            assert(pairs_to_map(s)[s[j].0] == s[j].1);
        } else {
            assert(t[j] == s[j - 1]);
            assert(pairs_to_map(s)[s[j - 1].0] == s[j - 1].1);
            if j - 1 > i {
                lemma_key_lt_transitive(k, s[i].0, s[j - 1].0);
            }
        }
    }
    assert(pairs_to_map(t) =~= m);
}

/// Replacing the value of one pair keeps the keys and updates the map there.
pub proof fn lemma_update_pair(s: Seq<KeyValue>, i: int, v: Seq<u8>)
    requires
        keys_increasing(s),
        0 <= i < s.len(),
    ensures
        keys_increasing(s.update(i, (s[i].0, v))),
        pairs_to_map(s.update(i, (s[i].0, v))) == pairs_to_map(s).insert(s[i].0, v),
{
    let k = s[i].0;
    let t = s.update(i, (k, v));
    assert forall|a: int, b: int| 0 <= a < b < t.len() implies key_lt(#[trigger] t[a].0, #[trigger] t[b].0) by {
        assert(t[a].0 == s[a].0);
        assert(t[b].0 == s[b].0);
    }
    lemma_sorted_pairs_map(s);
    lemma_sorted_pairs_map(t);
    lemma_key_lt_irreflexive(k);
    let m = pairs_to_map(s).insert(k, v);
    assert forall|x: Seq<u8>| #[trigger] pairs_to_map(t).contains_key(x) <==> m.contains_key(x) by {
        if has_key(t, x) {
            let j = choose|j: int| 0 <= j < t.len() && #[trigger] t[j].0 == x;
            assert(s[j].0 == x);
        }
        if has_key(s, x) {
            let j = choose|j: int| 0 <= j < s.len() && #[trigger] s[j].0 == x;
            assert(t[j].0 == x);
        }
        if x == k {
            assert(t[i].0 == x);
        }
    }
    assert forall|x: Seq<u8>| #[trigger] pairs_to_map(t).contains_key(x) implies pairs_to_map(t)[x] == m[x] by {
        let j = choose|j: int| 0 <= j < t.len() && #[trigger] t[j].0 == x;
        if j != i {
            assert(t[j] == s[j]);
            assert(pairs_to_map(s)[s[j].0] == s[j].1);
            if j < i {
                assert(key_lt(s[j].0, s[i].0));
            } else {
                assert(key_lt(s[i].0, s[j].0));
            }
        }
    }
    assert(pairs_to_map(t) =~= m);
}

/// Removing a pair keeps the keys increasing and removes its key from the map.
pub proof fn lemma_remove_pair(s: Seq<KeyValue>, i: int)
    requires
        keys_increasing(s),
        0 <= i < s.len(),
    ensures
        keys_increasing(s.remove(i)),
        pairs_to_map(s.remove(i)) == pairs_to_map(s).remove(s[i].0),
{
    let k = s[i].0;
    let t = s.remove(i);
    assert forall|a: int, b: int| 0 <= a < b < t.len() implies key_lt(#[trigger] t[a].0, #[trigger] t[b].0) by {
        if b < i {
        } else if a < i {
            assert(t[b] == s[b + 1]);
        } else {
            assert(t[a] == s[a + 1]);
            assert(t[b] == s[b + 1]);
        }
    }
    lemma_sorted_pairs_map(s);
    lemma_sorted_pairs_map(t);
    lemma_key_lt_irreflexive(k);
    let m = pairs_to_map(s).remove(k);
    assert forall|x: Seq<u8>| #[trigger] pairs_to_map(t).contains_key(x) <==> m.contains_key(x) by {
        if has_key(t, x) {
            let j = choose|j: int| 0 <= j < t.len() && #[trigger] t[j].0 == x;
            if j < i {
                assert(s[j].0 == x);
                assert(key_lt(s[j].0, k));
            } else {
                assert(s[j + 1].0 == x);
                assert(key_lt(k, s[j + 1].0));
            }
        }
        if has_key(s, x) && x != k {
            let j = choose|j: int| 0 <= j < s.len() && #[trigger] s[j].0 == x;
            if j < i {
                assert(t[j].0 == x);
            } else {
                assert(t[j - 1].0 == x);
            }
        }
    }
    assert forall|x: Seq<u8>| #[trigger] pairs_to_map(t).contains_key(x) implies pairs_to_map(t)[x] == m[x] by {
        let j = choose|j: int| 0 <= j < t.len() && #[trigger] t[j].0 == x;
        if j < i {
            assert(t[j] == s[j]);
            assert(pairs_to_map(s)[s[j].0] == s[j].1);
            assert(key_lt(s[j].0, k));
        } else {
            assert(t[j] == s[j + 1]);
            assert(pairs_to_map(s)[s[j + 1].0] == s[j + 1].1);
            assert(key_lt(k, s[j + 1].0));
        }
    }
    assert(pairs_to_map(t) =~= m);
}

/// Whether `key` lies in the half-open range `[start, end)`; a missing bound
/// does not restrict.
pub open spec fn in_range(key: Seq<u8>, start: Option<Seq<u8>>, end: Option<Seq<u8>>) -> bool {
    &&& (match start {
        Some(s) => !key_lt(key, s),
        None => true,
    })
    &&& (match end {
        Some(e) => key_lt(key, e),
        None => true,
    })
}

/// The pairs of `pairs` whose key lies in `[start, end)`, in their order.
pub open spec fn filter_range(pairs: Seq<KeyValue>, start: Option<Seq<u8>>, end: Option<Seq<u8>>) -> Seq<KeyValue>
    decreases pairs.len(),
{
    if pairs.len() == 0 {
        Seq::empty()
    } else {
        let rest = filter_range(pairs.drop_last(), start, end);
        if in_range(pairs.last().0, start, end) {
            rest.push(pairs.last())
        } else {
            rest
        }
    }
}

/// Some element of `pairs` equals `p`.
pub open spec fn has_pair(pairs: Seq<KeyValue>, p: KeyValue) -> bool {
    exists|j: int| 0 <= j < pairs.len() && #[trigger] pairs[j] == p
}

/// Every pair that `filter_range` keeps is in range and comes from the input.
pub proof fn lemma_filter_range_sound(pairs: Seq<KeyValue>, start: Option<Seq<u8>>, end: Option<Seq<u8>>)
    ensures
        forall|i: int| 0 <= i < filter_range(pairs, start, end).len() ==>
            in_range((#[trigger] filter_range(pairs, start, end)[i]).0, start, end)
            && has_pair(pairs, filter_range(pairs, start, end)[i]),
    decreases pairs.len(),
{
    if pairs.len() > 0 {
        let init = pairs.drop_last();
        let rest = filter_range(init, start, end);
        let f = filter_range(pairs, start, end);
        lemma_filter_range_sound(init, start, end);
        assert forall|i: int| 0 <= i < f.len() implies in_range((#[trigger] f[i]).0, start, end)
            && has_pair(pairs, f[i]) by {
            if i < rest.len() {
                assert(f[i] == rest[i]);
                assert(has_pair(init, rest[i]));
                let j = choose|j: int| 0 <= j < init.len() && #[trigger] init[j] == rest[i];
                assert(pairs[j] == f[i]);
            } else {
                assert(pairs[pairs.len() - 1] == f[i]);
            }
        }
    }
}

/// Every input pair in range is kept by `filter_range`.
pub proof fn lemma_filter_range_complete(pairs: Seq<KeyValue>, start: Option<Seq<u8>>, end: Option<Seq<u8>>)
    ensures
        forall|j: int| 0 <= j < pairs.len() && in_range((#[trigger] pairs[j]).0, start, end)
            ==> has_pair(filter_range(pairs, start, end), pairs[j]),
    decreases pairs.len(),
{
    if pairs.len() > 0 {
        let init = pairs.drop_last();
        let rest = filter_range(init, start, end);
        let f = filter_range(pairs, start, end);
        lemma_filter_range_complete(init, start, end);
        assert forall|j: int| 0 <= j < pairs.len() && in_range((#[trigger] pairs[j]).0, start, end)
            implies has_pair(f, pairs[j]) by {
            if j < init.len() {
                assert(init[j] == pairs[j]);
                assert(has_pair(rest, init[j]));
                let i = choose|i: int| 0 <= i < rest.len() && #[trigger] rest[i] == init[j];
                assert(f[i] == rest[i]);
            } else {
                assert(f[f.len() - 1] == pairs[j]);
            }
        }
    }
}

/// Filtering keeps keys increasing.
pub proof fn lemma_filter_range_sorted(pairs: Seq<KeyValue>, start: Option<Seq<u8>>, end: Option<Seq<u8>>)
    requires
        keys_increasing(pairs),
    ensures
        keys_increasing(filter_range(pairs, start, end)),
    decreases pairs.len(),
{
    if pairs.len() > 0 {
        let init = pairs.drop_last();
        let rest = filter_range(init, start, end);
        let f = filter_range(pairs, start, end);
        assert(keys_increasing(init));
        lemma_filter_range_sorted(init, start, end);
        lemma_filter_range_sound(init, start, end);
        if in_range(pairs.last().0, start, end) {
            assert forall|a: int, b: int| 0 <= a < b < f.len() implies key_lt(#[trigger] f[a].0, #[trigger] f[b].0) by {
                assert(f[a] == rest[a]);
                if b < rest.len() {
                    assert(f[b] == rest[b]);
                } else {
                    assert(has_pair(init, rest[a]));
                    let j = choose|j: int| 0 <= j < init.len() && #[trigger] init[j] == rest[a];
                    assert(pairs[j] == init[j]);
                    assert(key_lt(pairs[j].0, pairs[pairs.len() - 1].0));
                }
            }
        }
    }
}

/// Without bounds, `filter_range` keeps every pair.
pub proof fn lemma_filter_range_unbounded(pairs: Seq<KeyValue>)
    ensures
        filter_range(pairs, None, None) == pairs,
    decreases pairs.len(),
{
    if pairs.len() > 0 {
        lemma_filter_range_unbounded(pairs.drop_last());
        assert(pairs.drop_last().push(pairs.last()) =~= pairs);
    }
}

/// A range bound as the specifications see it.
pub open spec fn bound_view(b: Option<&[u8]>) -> Option<Seq<u8>> {
    match b {
        Some(x) => Some(x@),
        None => None,
    }
}

/// Iteration order of a range query.
#[derive(Clone, Copy, Debug, PartialEq, Eq)]
pub enum Order {
    Ascending,
    Descending,
}

/// In-memory contract storage: byte-string keys mapped to non-empty
/// byte-string values, kept in ascending key order.
pub struct MemoryStorage {
    entries: Vec<(Vec<u8>, Vec<u8>)>,
}

impl View for MemoryStorage {
    type V = Map<Seq<u8>, Seq<u8>>;

    open spec fn view(&self) -> Map<Seq<u8>, Seq<u8>> {
        pairs_to_map(self.entries())
    }
}

/// Makes an owned copy of a byte string.
fn copy_bytes(bytes: &[u8]) -> (r: Vec<u8>)
    ensures
        r@ == bytes@,
{
    slice_to_vec(bytes)
}

/// Copies a stored pair.
fn clone_item(item: &(Vec<u8>, Vec<u8>)) -> (r: (Vec<u8>, Vec<u8>))
    ensures
        r.0@ == item.0@,
        r.1@ == item.1@,
{
    (copy_bytes(item.0.as_slice()), copy_bytes(item.1.as_slice()))
}

/// Whether `key` lies in `[start, end)`.
fn key_in_range(key: &[u8], start: Option<&[u8]>, end: Option<&[u8]>) -> (r: bool)
    ensures
        r == in_range(key@, bound_view(start), bound_view(end)),
{
    let after_start = match start {
        Some(s) => !matches!(key_order(key, s), KeyOrder::Less),
        None => true,
    };
    let before_end = match end {
        Some(e) => matches!(key_order(key, e), KeyOrder::Less),
        None => true,
    };
    after_start && before_end
}

impl MemoryStorage {
    /// The stored pairs in ascending key order.
    pub closed spec fn entries(&self) -> Seq<KeyValue> {
        pair_views(self.entries@)
    }

    /// Keys strictly increase and no value is empty.
    pub open spec fn wf(&self) -> bool {
        &&& keys_increasing(self.entries())
        &&& values_nonempty(self.entries())
    }

    /// The stored pairs enumerate the map exactly, each key once.
    pub proof fn lemma_entries_enumerate(&self)
        requires
            self.wf(),
        ensures
            forall|i: int| 0 <= i < self.entries().len() ==> #[trigger] self@.contains_key(self.entries()[i].0),
            forall|i: int| 0 <= i < self.entries().len() ==> #[trigger] self@[self.entries()[i].0] == self.entries()[i].1,
            forall|k: Seq<u8>| #[trigger] self@.contains_key(k) <==> has_key(self.entries(), k),
    {
        lemma_sorted_pairs_map(self.entries());
    }

    /// A range query lists, in ascending key order, exactly the stored pairs
    /// whose key lies in `[start, end)`.
    pub proof fn lemma_range_enumerates(&self, start: Option<Seq<u8>>, end: Option<Seq<u8>>)
        requires
            self.wf(),
        ensures
            keys_increasing(filter_range(self.entries(), start, end)),
            forall|i: int| 0 <= i < filter_range(self.entries(), start, end).len() ==> {
                let p = #[trigger] filter_range(self.entries(), start, end)[i];
                &&& in_range(p.0, start, end)
                &&& self@.contains_key(p.0)
                &&& self@[p.0] == p.1
            },
            forall|k: Seq<u8>| #[trigger] self@.contains_key(k) && in_range(k, start, end)
                ==> has_key(filter_range(self.entries(), start, end), k),
    {
        let s = self.entries();
        let f = filter_range(s, start, end);
        lemma_sorted_pairs_map(s);
        lemma_filter_range_sound(s, start, end);
        lemma_filter_range_complete(s, start, end);
        lemma_filter_range_sorted(s, start, end);
        assert forall|i: int| 0 <= i < f.len() implies {
            let p = #[trigger] f[i];
            &&& in_range(p.0, start, end)
            &&& self@.contains_key(p.0)
            &&& self@[p.0] == p.1
        } by {
            assert(has_pair(s, f[i]));
            let j = choose|j: int| 0 <= j < s.len() && #[trigger] s[j] == f[i];
            assert(self@.contains_key(s[j].0));
        }
        assert forall|k: Seq<u8>| #[trigger] self@.contains_key(k) && in_range(k, start, end)
            implies has_key(f, k) by {
            let j = choose|j: int| 0 <= j < s.len() && #[trigger] s[j].0 == k;
            assert(has_pair(f, s[j]));
            let i = choose|i: int| 0 <= i < f.len() && #[trigger] f[i] == s[j];
            assert(f[i].0 == k);
        }
    }

    /// Creates an empty in-memory storage backend.
    pub fn new() -> (s: Self)
        ensures
            s.wf(),
            s@ == Map::<Seq<u8>, Seq<u8>>::empty(),
            s.entries() == Seq::<KeyValue>::empty(),
    {
        let s = MemoryStorage { entries: Vec::new() };
        assert(s.entries() =~= Seq::<KeyValue>::empty());
        s
    }

    /// Index of the first stored key that is not below `key`.
    fn lower_bound(&self, key: &[u8]) -> (i: usize)
        requires
            self.wf(),
        ensures
            i <= self.entries().len(),
            forall|j: int| 0 <= j < i ==> key_lt(#[trigger] self.entries()[j].0, key@),
            i < self.entries().len() ==> !key_lt(self.entries()[i as int].0, key@),
    {
        let mut i: usize = 0;
        while i < self.entries.len()
            invariant
                i <= self.entries@.len(),
                forall|j: int| 0 <= j < i ==> key_lt(#[trigger] self.entries()[j].0, key@),
            decreases self.entries@.len() - i,
        {
            match key_order(self.entries[i].0.as_slice(), key) {
                KeyOrder::Less => {},
                _ => {
                    return i;
                },
            }
            i = i + 1;
        }
        i
    }

    /// Returns the value stored under `key`, if any.
    pub fn get(&self, key: &[u8]) -> (r: Option<Vec<u8>>)
        requires
            self.wf(),
        ensures
            match r {
                Some(v) => self@.contains_key(key@) && v@ == self@[key@],
                None => !self@.contains_key(key@),
            },
    {
        proof {
            self.lemma_entries_enumerate();
        }
        let i = self.lower_bound(key);
        if i < self.entries.len() {
            if let KeyOrder::Equal = key_order(self.entries[i].0.as_slice(), key) {
                return Some(copy_bytes(self.entries[i].1.as_slice()));
            }
        }
        proof {
            if has_key(self.entries(), key@) {
                let j = choose|j: int| 0 <= j < self.entries().len() && #[trigger] self.entries()[j].0 == key@;
                lemma_key_lt_irreflexive(key@);
                if j > i {
                    lemma_key_lt_total(self.entries()[i as int].0, key@);
                    assert(key_lt(self.entries()[i as int].0, self.entries()[j].0));
                }
            }
        }
        None
    }

    /// Stores `value` under `key`, replacing any previous value.
    ///
    /// An empty value is refused by the storage contract: callers remove the
    /// key instead.
    pub fn set(&mut self, key: &[u8], value: &[u8])
        requires
            old(self).wf(),
            value@.len() > 0,
        ensures
            final(self).wf(),
            final(self)@ == old(self)@.insert(key@, value@),
    {
        let ghost s = self.entries();
        let i = self.lower_bound(key);
        let mut replace = false;
        if i < self.entries.len() {
            if let KeyOrder::Equal = key_order(self.entries[i].0.as_slice(), key) {
                replace = true;
            }
        }
        let k = copy_bytes(key);
        let v = copy_bytes(value);
        if replace {
            self.entries.set(i, (k, v));
            proof {
                assert(self.entries() =~= s.update(i as int, (s[i as int].0, value@)));
                lemma_update_pair(s, i as int, value@);
            }
        } else {
            proof {
                if i < s.len() {
                    lemma_key_lt_total(s[i as int].0, key@);
                }
            }
            self.entries.insert(i, (k, v));
            proof {
                assert(self.entries() =~= s.insert(i as int, (key@, value@)));
                lemma_insert_pair(s, i as int, key@, value@);
            }
        }
    }

    /// Removes the value stored under `key`, if any.
    pub fn remove(&mut self, key: &[u8])
        requires
            old(self).wf(),
        ensures
            final(self).wf(),
            final(self)@ == old(self)@.remove(key@),
    {
        let ghost s = self.entries();
        proof {
            self.lemma_entries_enumerate();
        }
        let i = self.lower_bound(key);
        if i < self.entries.len() {
            if let KeyOrder::Equal = key_order(self.entries[i].0.as_slice(), key) {
                self.entries.remove(i);
                proof {
                    assert(self.entries() =~= s.remove(i as int));
                    lemma_remove_pair(s, i as int);
                }
                return;
            }
        }
        proof {
            if has_key(s, key@) {
                let j = choose|j: int| 0 <= j < s.len() && #[trigger] s[j].0 == key@;
                lemma_key_lt_irreflexive(key@);
                if j > i {
                    lemma_key_lt_total(s[i as int].0, key@);
                    assert(key_lt(s[i as int].0, s[j].0));
                }
            }
            assert(old(self)@.remove(key@) =~= old(self)@);
        }
    }

    /// Returns the stored pairs whose key lies in `[start, end)`, in ascending
    /// or descending key order.
    pub fn range(&self, start: Option<&[u8]>, end: Option<&[u8]>, order: Order) -> (r: Vec<(Vec<u8>, Vec<u8>)>)
        requires
            self.wf(),
        ensures
            pair_views(r@) == match order {
                Order::Ascending => filter_range(self.entries(), bound_view(start), bound_view(end)),
                Order::Descending => filter_range(self.entries(), bound_view(start), bound_view(end)).reverse(),
            },
    {
        let ghost s = self.entries();
        let mut selected: Vec<(Vec<u8>, Vec<u8>)> = Vec::new();
        let mut i: usize = 0;
        while i < self.entries.len()
            invariant
                i <= self.entries@.len(),
                s == self.entries(),
                pair_views(selected@) == filter_range(s.take(i as int), bound_view(start), bound_view(end)),
            decreases self.entries@.len() - i,
        {
            assert(s.take(i + 1).drop_last() =~= s.take(i as int));
            let item = &self.entries[i];
            if key_in_range(item.0.as_slice(), start, end) {
                selected.push(clone_item(item));
                assert(pair_views(selected@) =~= filter_range(s.take(i as int), bound_view(start), bound_view(end)).push(s[i as int]));
            }
            i = i + 1;
        }
        assert(s.take(i as int) =~= s);
        match order {
            Order::Ascending => selected,
            Order::Descending => {
                let ghost asc = pair_views(selected@);
                let mut reversed: Vec<(Vec<u8>, Vec<u8>)> = Vec::new();
                let n = selected.len();
                let mut j: usize = 0;
                while j < n
                    invariant
                        n == selected@.len(),
                        asc == pair_views(selected@),
                        j <= n,
                        pair_views(reversed@) =~= asc.reverse().take(j as int),
                    decreases n - j,
                {
                    let item = clone_item(&selected[n - 1 - j]);
                    proof {
                        assert(asc.len() == n);
                        assert(asc.reverse()[j as int] == asc[n - 1 - j]);
                        assert(asc[n - 1 - j] == (item.0@, item.1@));
                    }
                    let ghost prev = reversed@;
                    let ghost item_view = (item.0@, item.1@);
                    reversed.push(item);
                    assert(reversed@ =~= prev.push(item));
                    assert(pair_views(reversed@) =~= pair_views(prev).push(item_view));
                    assert(asc.reverse().take(j + 1) =~= asc.reverse().take(j as int).push(asc.reverse()[j as int]));
                    j = j + 1;
                }
                assert(asc.reverse().take(n as int) =~= asc.reverse());
                reversed
            },
        }
    }
}

impl Default for MemoryStorage {
    fn default() -> (s: Self)
        ensures
            s.wf(),
            s@ == Map::<Seq<u8>, Seq<u8>>::empty(),
    {
        MemoryStorage::new()
    }
}

} // verus!
