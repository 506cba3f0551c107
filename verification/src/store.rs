use vstd::prelude::*;

use crate::data::DocumentId;
use crate::data::FieldId;
use crate::data::Key;
use crate::data::Entry;
use crate::data::Number;

verus! {

#[verifier::external_type_specification]
#[verifier::external_body]
#[verifier::reject_recursive_types(K)]
#[verifier::reject_recursive_types(V)]
pub struct ExCHashMap<K, V>(chashmap::CHashMap<K, V>);

/// The concurrent table that backs the store.
pub type Table = chashmap::CHashMap<Key, Number>;

/// The logical content of the concurrent table: the mapping of stored pairs.
pub uninterp spec fn table_contents(m: Table) -> Map<Key, Number>;

/// The content of a store that holds nothing.
pub open spec fn empty_content() -> Map<Key, Number> {
    Map::empty()
}

/// Relies on chashmap::CHashMap::new: a freshly created table holds no entries.
#[verifier::external_body]
fn table_new() -> (m: Table)
    ensures
        table_contents(m) == empty_content(),
        table_contents(m).dom().finite(),
{
    chashmap::CHashMap::new()
}

/// Relies on chashmap::CHashMap::len: the number of entries stored at this instant.
#[verifier::external_body]
fn table_len(m: &Table) -> (n: usize)
    ensures
        n == table_contents(*m).len(),
{
    m.len()
}

/// Relies on chashmap::CHashMap::is_empty: whether the table holds no entry.
#[verifier::external_body]
fn table_is_empty(m: &Table) -> (b: bool)
    ensures
        b == (table_contents(*m).len() == 0),
{
    m.is_empty()
}

/// Relies on chashmap::CHashMap::insert: replaces or inserts the value for the key.
#[verifier::external_body]
fn table_insert(m: &mut Table, key: Key, value: Number)
    ensures
        table_contents(*final(m)) == table_contents(*old(m)).insert(key, value),
        table_contents(*final(m)).dom().finite(),
{
    m.insert(key, value);
}

/// Relies on chashmap::CHashMap::remove to delete the entry for the key if
/// present, and on CHashMap::shrink_to_fit to rebuild the table from its live
/// entries afterwards. The rebuild discards the removed-entry markers that
/// CHashMap's probing leaves behind; without it, enough removals would turn
/// every bucket into a marker, and a later probe for an absent key would panic,
/// since the probe stops only at a matching key or a never-used bucket.
/// Every table this module creates is thus free of such markers between calls.
#[verifier::external_body]
fn table_remove(m: &mut Table, key: Key)
    ensures
        table_contents(*final(m)) == table_contents(*old(m)).remove(key),
        table_contents(*final(m)).dom().finite(),
{
    m.remove(&key);
    m.shrink_to_fit();
}

/// Relies on chashmap::CHashMap::get: returns the value stored for the key, if
/// any. Its probe stops at a matching key or a never-used bucket and cannot run
/// off the table: the tables this module creates keep free buckets (the load
/// factor stays under the crate's bound), and `table_remove` rebuilds away the
/// removed-entry markers that would otherwise exhaust them.
#[verifier::external_body]
fn table_get(m: &Table, key: Key) -> (r: Option<Number>)
    ensures
        r == (if table_contents(*m).dom().contains(key) {
            Some(table_contents(*m)[key])
        } else {
            None::<Number>
        }),
{
    match m.get(&key) {
        Some(guard) => Some(*guard),
        None => None,
    }
}

/// Relies on chashmap::CHashMap's iterator (reached through a clone of the table):
/// it yields each stored pair exactly once, in an unspecified order.
#[verifier::external_body]
fn table_entries(m: &Table) -> (v: Vec<Entry>)
    ensures
        v@.len() == table_contents(*m).len(),
        forall|i: int|
            0 <= i < v@.len() ==> table_contents(*m).contains_pair(#[trigger] v@[i].0, v@[i].1),
        forall|i: int, j: int| 0 <= i < j < v@.len() ==> v@[i].0 != v@[j].0,
        forall|k: Key|
            table_contents(*m).dom().contains(k) ==> exists|i: int|
                0 <= i < v@.len() && (#[trigger] v@[i]).0 == k,
{
    let mut v = Vec::new();
    for (key, value) in m.clone() {
        v.push((key, value));
    }
    v
}

/// Relies on chashmap::CHashMap::clone: the copy holds the same entries.
#[verifier::external_body]
fn table_clone(m: &Table) -> (r: Table)
    ensures
        table_contents(r) == table_contents(*m),
        table_contents(r).dom().finite(),
{
    m.clone()
}

/// The map obtained by inserting the listed pairs in order: a later entry for the
/// same key wins over an earlier one.
pub open spec fn map_of_entries(s: Seq<Entry>) -> Map<Key, Number>
    decreases s.len(),
{
    if s.len() == 0 {
        Map::empty()
    } else {
        map_of_entries(s.drop_last()).insert(s.last().0, s.last().1)
    }
}

/// The listed entries carry pairwise distinct keys.
pub open spec fn distinct_keys(s: Seq<Entry>) -> bool {
    forall|i: int, j: int| 0 <= i < j < s.len() ==> s[i].0 != s[j].0
}

/// Law: a listing of a map's pairs, each key once, rebuilds exactly that map,
/// whatever order the pairs come in. This is what makes both serialized
/// representations independent of the table's iteration order.
pub proof fn lemma_rebuild_from_listing(s: Seq<Entry>, m: Map<Key, Number>)
    requires
        distinct_keys(s),
        forall|i: int| 0 <= i < s.len() ==> m.contains_pair(#[trigger] s[i].0, s[i].1),
        forall|k: Key|
            m.dom().contains(k) ==> exists|i: int| 0 <= i < s.len() && (#[trigger] s[i]).0 == k,
    ensures
        map_of_entries(s) == m,
    decreases s.len(),
{
    if s.len() == 0 {
        assert forall|k: Key| !m.dom().contains(k) by {
            if m.dom().contains(k) {
                let i = choose|i: int| 0 <= i < s.len() && (#[trigger] s[i]).0 == k;
            }
        }
        assert(map_of_entries(s) =~= m);
    } else {
        let e = s.last();
        let rest = s.drop_last();
        let m2 = m.remove(e.0);
        assert forall|i: int| 0 <= i < rest.len() implies m2.contains_pair(
            #[trigger] rest[i].0,
            rest[i].1,
        ) by {
            assert(s[i] == rest[i]);
            assert(rest[i].0 != e.0);
        }
        assert forall|k: Key| m2.dom().contains(k) implies exists|i: int|
            0 <= i < rest.len() && (#[trigger] rest[i]).0 == k by {
            let i = choose|i: int| 0 <= i < s.len() && (#[trigger] s[i]).0 == k;
            assert(i < s.len() - 1 || s[i].0 == e.0);
            assert(rest[i] == s[i]);
        }
        lemma_rebuild_from_listing(rest, m2);
        assert(m.contains_pair(e.0, e.1));
        assert(map_of_entries(s) =~= m);
    }
}

/// Law: inserting the same key twice keeps only the later value, and the second
/// insert does not change the set of stored keys, so the length stays as it was.
pub proof fn lemma_insert_overwrite(m: Map<Key, Number>, k: Key, v1: Number, v2: Number)
    ensures
        m.insert(k, v1).insert(k, v2) == m.insert(k, v2),
        m.insert(k, v1).insert(k, v2).len() == m.insert(k, v1).len(),
{
    assert(m.insert(k, v1).insert(k, v2) =~= m.insert(k, v2));
    assert(m.insert(k, v1).insert(k, v2).dom() =~= m.insert(k, v1).dom());
}

/// Law: removing an absent key leaves the map exactly as it was.
pub proof fn lemma_remove_absent(m: Map<Key, Number>, k: Key)
    requires
        !m.dom().contains(k),
    ensures
        m.remove(k) == m,
{
    assert(m.remove(k) =~= m);
}

/// Law: removing a present key makes it absent and shrinks the length by one.
pub proof fn lemma_remove_present(m: Map<Key, Number>, k: Key)
    requires
        m.dom().contains(k),
        m.dom().finite(),
    ensures
        !m.remove(k).dom().contains(k),
        m.remove(k).len() == m.len() - 1,
{
    vstd::set::axiom_set_remove_len(m.dom(), k);
}

/// Law: inserts under distinct keys land in the map independently of their order.
/// This is the order-freedom behind concurrent population with disjoint keys.
pub proof fn lemma_disjoint_inserts_commute(
    m: Map<Key, Number>,
    k1: Key,
    v1: Number,
    k2: Key,
    v2: Number,
)
    requires
        k1 != k2,
    ensures
        m.insert(k1, v1).insert(k2, v2) == m.insert(k2, v2).insert(k1, v1),
{
    assert(m.insert(k1, v1).insert(k2, v2) =~= m.insert(k2, v2).insert(k1, v1));
}

/// A concurrent store mapping a (document, field) key to one numeric ranking value.
/// Its logical content is the map of stored pairs; iteration order is never part
/// of the contract.
#[derive(Debug)]
pub struct RankedMap(Table);

impl View for RankedMap {
    type V = Map<Key, Number>;

    closed spec fn view(&self) -> Map<Key, Number> {
        table_contents(self.0)
    }
}

impl Default for RankedMap {
    /// A default store is an empty store.
    fn default() -> (r: RankedMap)
        ensures
            r@ == empty_content(),
            r@.dom().finite(),
    {
        RankedMap::new()
    }
}

impl Clone for RankedMap {
    /// The clone holds the same entries; the copies are afterwards independent.
    fn clone(&self) -> (r: Self)
        ensures
            r@ == self@,
            r@.dom().finite(),
    {
        RankedMap(table_clone(&self.0))
    }
}

impl RankedMap {
    /// Creates an empty store.
    pub fn new() -> (r: RankedMap)
        ensures
            r@ == empty_content(),
            r@.dom().finite(),
    {
        RankedMap(table_new())
    }

    /// The number of entries stored at some instant during the call.
    pub fn len(&self) -> (n: usize)
        ensures
            n == self@.len(),
    {
        table_len(&self.0)
    }

    /// Whether the store holds no entry; equivalent to `len() == 0`.
    pub fn is_empty(&self) -> (b: bool)
        ensures
            b == (self@.len() == 0),
    {
        table_is_empty(&self.0)
    }

    /// Inserts or overwrites the value stored for the given key.
    pub fn insert(&mut self, document: DocumentId, field: FieldId, number: Number)
        ensures
            final(self)@ == old(self)@.insert((document, field), number),
            final(self)@.dom().finite(),
    {
        table_insert(&mut self.0, (document, field), number);
    }

    /// Deletes the entry for the given key; a no-op if the key is absent.
    pub fn remove(&mut self, document: DocumentId, field: FieldId)
        ensures
            final(self)@ == old(self)@.remove((document, field)),
            final(self)@.dom().finite(),
    {
        table_remove(&mut self.0, (document, field));
    }

    /// Returns the value stored for the given key, or `None` if there is none.
    pub fn get(&self, document: DocumentId, field: FieldId) -> (r: Option<Number>)
        ensures
            r == (if self@.dom().contains((document, field)) {
                Some(self@[(document, field)])
            } else {
                None::<Number>
            }),
    {
        table_get(&self.0, (document, field))
    }

    /// Lists the stored pairs, each key exactly once, in an unspecified order.
    /// This is the store's self-describing representation for embedding in a
    /// larger structured payload.
    pub fn to_entries(&self) -> (v: Vec<Entry>)
        ensures
            distinct_keys(v@),
            map_of_entries(v@) == self@,
            v@.len() == self@.len(),
    {
        let v = table_entries(&self.0);
        proof {
            lemma_rebuild_from_listing(v@, self@);
        }
        v
    }

    /// Rebuilds a store from a listed sequence of pairs; a later entry for the
    /// same key wins over an earlier one.
    pub fn from_entries(entries: &Vec<Entry>) -> (m: RankedMap)
        ensures
            m@ == map_of_entries(entries@),
            m@.dom().finite(),
    {
        let mut m = RankedMap::new();
        let n = entries.len();
        let mut i: usize = 0;
        while i < n
            invariant
                n == entries@.len(),
                0 <= i <= n,
                m@ == map_of_entries(entries@.take(i as int)),
                m@.dom().finite(),
            decreases n - i,
        {
            let (key, value) = entries[i];
            m.insert(key.0, key.1, value);
            proof {
                let t = entries@.take(i + 1 as int);
                assert(t.drop_last() =~= entries@.take(i as int));
                assert(t.last() == entries@[i as int]);
            }
            i = i + 1;
        }
        proof {
            assert(entries@.take(n as int) =~= entries@);
        }
        m
    }
}

} // verus!
