//! The store adapter: a mutable mapping from text keys to byte-sequence
//! values, offering the four primitive operations (set, get, delete,
//! list-keys) and the bulk dump that the snapshot manager uses.
use vstd::prelude::*;

verus! {

/// The views of a sequence of owned entries.
pub open spec fn entry_views(s: Seq<(String, Vec<u8>)>) -> Seq<(Seq<char>, Seq<u8>)> {
    s.map_values(|e: (String, Vec<u8>)| (e.0@, e.1@))
}

/// No key occurs twice in the entry sequence.
pub open spec fn distinct_keys(s: Seq<(Seq<char>, Seq<u8>)>) -> bool {
    forall|i: int, j: int| 0 <= i < j < s.len() ==> s[i].0 != s[j].0
}

/// The mapping that an entry sequence denotes; a later entry for the same
/// key supersedes an earlier one.
pub open spec fn map_of(s: Seq<(Seq<char>, Seq<u8>)>) -> Map<Seq<char>, Seq<u8>>
    decreases s.len(),
{
    if s.len() == 0 {
        Map::empty()
    } else {
        map_of(s.drop_last()).insert(s.last().0, s.last().1)
    }
}

/// A key is in the denoted map exactly when some entry holds it.
pub proof fn lemma_map_of_contains(s: Seq<(Seq<char>, Seq<u8>)>, k: Seq<char>)
    ensures
        map_of(s).contains_key(k) <==> exists|i: int| 0 <= i < s.len() && s[i].0 == k,
    decreases s.len(),
{
    if s.len() > 0 {
        lemma_map_of_contains(s.drop_last(), k);
        if s.last().0 == k {
            assert(s[s.len() - 1].0 == k);
        } else {
            if map_of(s).contains_key(k) {
                let i = choose|i: int| 0 <= i < s.drop_last().len() && s.drop_last()[i].0 == k;
                assert(s[i].0 == k);
            }
            if exists|i: int| 0 <= i < s.len() && s[i].0 == k {
                let i = choose|i: int| 0 <= i < s.len() && s[i].0 == k;
                assert(s.drop_last()[i].0 == k);
            }
        }
    }
}

/// With distinct keys, the entry holding a key gives its mapped value.
pub proof fn lemma_map_of_index(s: Seq<(Seq<char>, Seq<u8>)>, i: int)
    requires
        distinct_keys(s),
        0 <= i < s.len(),
    ensures
        map_of(s).contains_key(s[i].0),
        map_of(s)[s[i].0] == s[i].1,
    decreases s.len(),
{
    if i == s.len() - 1 {
    } else {
        assert(s.drop_last()[i] == s[i]);
        lemma_map_of_index(s.drop_last(), i);
        assert(s[i].0 != s.last().0);
    }
}

/// Replacing the value of the entry that holds a key updates the map at
/// that key.
pub proof fn lemma_map_of_update(s: Seq<(Seq<char>, Seq<u8>)>, i: int, v: Seq<u8>)
    requires
        distinct_keys(s),
        0 <= i < s.len(),
    ensures
        map_of(s.update(i, (s[i].0, v))) == map_of(s).insert(s[i].0, v),
    decreases s.len(),
{
    let k = s[i].0;
    let t = s.update(i, (k, v));
    if i == s.len() - 1 {
        assert(t.drop_last() =~= s.drop_last());
        assert(t.last() == (k, v));
        assert(map_of(t) =~= map_of(s).insert(k, v));
    } else {
        assert(t.drop_last() =~= s.drop_last().update(i, (k, v)));
        assert(s.drop_last()[i] == s[i]);
        lemma_map_of_update(s.drop_last(), i, v);
        assert(t.last() == s.last());
        assert(k != s.last().0);
        assert(map_of(t) =~= map_of(s).insert(k, v));
    }
}

/// Removing the entry that holds a key removes that key from the map.
pub proof fn lemma_map_of_remove(s: Seq<(Seq<char>, Seq<u8>)>, i: int)
    requires
        distinct_keys(s),
        0 <= i < s.len(),
    ensures
        map_of(s.remove(i)) == map_of(s).remove(s[i].0),
    decreases s.len(),
{
    let k = s[i].0;
    let t = s.remove(i);
    if i == s.len() - 1 {
        assert(t =~= s.drop_last());
        lemma_map_of_contains(s.drop_last(), k);
        assert(forall|j: int| 0 <= j < s.drop_last().len() ==> s.drop_last()[j] == s[j]);
        assert(!map_of(s.drop_last()).contains_key(k));
        assert(map_of(t) =~= map_of(s).remove(k));
    } else {
        assert(t.drop_last() =~= s.drop_last().remove(i));
        assert(s.drop_last()[i] == s[i]);
        lemma_map_of_remove(s.drop_last(), i);
        assert(t.last() == s.last());
        assert(k != s.last().0);
        assert(map_of(t) =~= map_of(s).remove(k));
    }
}

/// Appending an entry inserts its pair into the map.
pub proof fn lemma_map_of_push(s: Seq<(Seq<char>, Seq<u8>)>, k: Seq<char>, v: Seq<u8>)
    ensures
        map_of(s.push((k, v))) == map_of(s).insert(k, v),
{
    assert(s.push((k, v)).drop_last() =~= s);
    assert(s.push((k, v)).last() == (k, v));
}

/// Distinctness survives removing an entry.
pub proof fn lemma_distinct_remove(s: Seq<(Seq<char>, Seq<u8>)>, i: int)
    requires
        distinct_keys(s),
        0 <= i < s.len(),
    ensures
        distinct_keys(s.remove(i)),
{
    let t = s.remove(i);
    assert forall|a: int, b: int| 0 <= a < b < t.len() implies t[a].0 != t[b].0 by {
        let oa = if a < i { a } else { a + 1 };
        let ob = if b < i { b } else { b + 1 };
        assert(t[a] == s[oa]);
        assert(t[b] == s[ob]);
    }
}

/// One of the first `n` entries of `s` holds the key `k`.
pub open spec fn key_among(s: Seq<(Seq<char>, Seq<u8>)>, k: Seq<char>, n: int) -> bool {
    exists|j: int| 0 <= j < n && s[j].0 == k
}

/// Some element of `keys` has the text `k`.
pub open spec fn views_contain(keys: Seq<String>, k: Seq<char>) -> bool {
    exists|l: int| 0 <= l < keys.len() && keys[l]@ == k
}

/// Character-by-character equality of two text slices.
pub(crate) fn str_equal(a: &str, b: &str) -> (r: bool)
    ensures
        r == (a@ == b@),
{
    let alen = a.unicode_len();
    let blen = b.unicode_len();
    if alen != blen {
        return false;
    }
    let mut i: usize = 0;
    while i < alen
        invariant
            alen == a@.len(),
            blen == b@.len(),
            alen == blen,
            i <= alen,
            forall|j: int| 0 <= j < i ==> a@[j] == b@[j],
        decreases alen - i,
    {
        if a.get_char(i) != b.get_char(i) {
            return false;
        }
        i += 1;
    }
    proof {
        assert(a@ =~= b@);
    }
    true
}

/// Whether the text of `s` begins with the text of `prefix`.
fn str_starts_with(s: &str, prefix: &str) -> (r: bool)
    ensures
        r == prefix@.is_prefix_of(s@),
{
    let slen = s.unicode_len();
    let plen = prefix.unicode_len();
    if plen > slen {
        return false;
    }
    let mut i: usize = 0;
    while i < plen
        invariant
            slen == s@.len(),
            plen == prefix@.len(),
            plen <= slen,
            i <= plen,
            forall|j: int| 0 <= j < i ==> s@[j] == prefix@[j],
        decreases plen - i,
    {
        if s.get_char(i) != prefix.get_char(i) {
            return false;
        }
        i += 1;
    }
    proof {
        assert(prefix@ =~= s@.subrange(0, prefix@.len() as int));
    }
    true
}

/// The live mapping from keys to values, the sole source of truth between
/// snapshots. One instance serves every front end and the checkpoint loop.
pub struct NanoEngine {
    entries: Vec<(String, Vec<u8>)>,
}

impl View for NanoEngine {
    type V = Map<Seq<char>, Seq<u8>>;

    closed spec fn view(&self) -> Map<Seq<char>, Seq<u8>> {
        map_of(entry_views(self.entries@))
    }
}

impl NanoEngine {
    /// The engine never holds two entries for one key.
    pub closed spec fn well_formed(&self) -> bool {
        distinct_keys(entry_views(self.entries@))
    }

    /// An empty engine.
    pub fn new() -> (engine: Self)
        ensures
            engine.well_formed(),
            engine@ == Map::<Seq<char>, Seq<u8>>::empty(),
    {
        NanoEngine { entries: Vec::new() }
    }

    /// The position of the entry holding `key`, if one does.
    fn find_index(&self, key: &str) -> (r: Option<usize>)
        ensures
            match r {
                Some(i) => i < self.entries@.len() && self.entries@[i as int].0@ == key@,
                None => forall|j: int|
                    0 <= j < self.entries@.len() ==> self.entries@[j].0@ != key@,
            },
    {
        let n = self.entries.len();
        let mut i: usize = 0;
        while i < n
            invariant
                n == self.entries@.len(),
                i <= n,
                forall|j: int| 0 <= j < i ==> self.entries@[j].0@ != key@,
            decreases n - i,
        {
            if str_equal(self.entries[i].0.as_str(), key) {
                return Some(i);
            }
            i += 1;
        }
        None
    }

    /// Store `value` under `key`, replacing any prior value: last write wins,
    /// and the call always succeeds.
    pub fn set(&mut self, key: &str, value: Vec<u8>)
        requires
            old(self).well_formed(),
        ensures
            final(self).well_formed(),
            final(self)@ == old(self)@.insert(key@, value@),
    {
        let ghost s = entry_views(old(self).entries@);
        match self.find_index(key) {
            Some(i) => {
                let entry = self.entries.remove(i);
                self.entries.insert(i, (entry.0, value));
                proof {
                    assert(entry_views(self.entries@) =~= s.update(i as int, (key@, value@)));
                    lemma_map_of_update(s, i as int, value@);
                    assert(distinct_keys(entry_views(self.entries@)));
                }
            },
            None => {
                let owned = key.to_owned();
                self.entries.push((owned, value));
                proof {
                    assert(entry_views(self.entries@) =~= s.push((key@, value@)));
                    lemma_map_of_push(s, key@, value@);
                    assert(distinct_keys(entry_views(self.entries@)));
                }
            },
        }
    }

    /// The value currently stored under `key`, or an explicit not-found
    /// signal; a missing key is never an error.
    pub fn get(&self, key: &str) -> (r: Option<Vec<u8>>)
        requires
            self.well_formed(),
        ensures
            match r {
                Some(v) => self@.contains_key(key@) && v@ == self@[key@],
                None => !self@.contains_key(key@),
            },
    {
        let ghost s = entry_views(self.entries@);
        match self.find_index(key) {
            Some(i) => {
                let v = self.entries[i].1.clone();
                proof {
                    lemma_map_of_index(s, i as int);
                }
                Some(v)
            },
            None => {
                proof {
                    lemma_map_of_contains(s, key@);
                }
                None
            },
        }
    }

    /// Remove `key` if present; report whether it existed just before the
    /// call. Deleting an absent key is a non-error outcome.
    pub fn delete(&mut self, key: &str) -> (existed: bool)
        requires
            old(self).well_formed(),
        ensures
            final(self).well_formed(),
            existed == old(self)@.contains_key(key@),
            final(self)@ == old(self)@.remove(key@),
    {
        let ghost s = entry_views(old(self).entries@);
        match self.find_index(key) {
            Some(i) => {
                self.entries.remove(i);
                proof {
                    assert(entry_views(self.entries@) =~= s.remove(i as int));
                    lemma_map_of_remove(s, i as int);
                    lemma_distinct_remove(s, i as int);
                    lemma_map_of_index(s, i as int);
                }
                true
            },
            None => {
                proof {
                    lemma_map_of_contains(s, key@);
                    assert(map_of(s).remove(key@) =~= map_of(s));
                }
                false
            },
        }
    }

    /// All keys whose text begins with `prefix`; the empty prefix lists
    /// every key. Each key appears once; the order is unspecified.
    pub fn list_keys(&self, prefix: &str) -> (keys: Vec<String>)
        requires
            self.well_formed(),
        ensures
            keys@.map_values(|k: String| k@).to_set() == self@.dom().filter(
                |k: Seq<char>| prefix@.is_prefix_of(k),
            ),
            keys@.map_values(|k: String| k@).no_duplicates(),
    {
        let ghost s = entry_views(self.entries@);
        let n = self.entries.len();
        let mut keys: Vec<String> = Vec::new();
        let mut i: usize = 0;
        while i < n
            invariant
                self.well_formed(),
                s == entry_views(self.entries@),
                n == self.entries@.len(),
                i <= n,
                forall|l: int|
                    0 <= l < keys@.len() ==> prefix@.is_prefix_of(#[trigger] keys@[l]@)
                        && key_among(s, keys@[l]@, i as int),
                forall|j: int|
                    0 <= j < i && prefix@.is_prefix_of(#[trigger] s[j].0) ==> views_contain(
                        keys@,
                        s[j].0,
                    ),
                forall|l1: int, l2: int|
                    0 <= l1 < l2 < keys@.len() ==> keys@[l1]@ != keys@[l2]@,
            decreases n - i,
        {
            let ghost prior = keys@;
            let matched = str_starts_with(self.entries[i].0.as_str(), prefix);
            if matched {
                let k = self.entries[i].0.clone();
                keys.push(k);
            }
            proof {
                assert forall|l: int|
                    0 <= l < keys@.len() implies prefix@.is_prefix_of(#[trigger] keys@[l]@)
                    && key_among(s, keys@[l]@, i as int + 1) by {
                    if l < prior.len() {
                        assert(keys@[l] == prior[l]);
                        let j = choose|j: int| 0 <= j < i && s[j].0 == prior[l]@;
                        assert(0 <= j < i + 1 && s[j].0 == keys@[l]@);
                    } else {
                        assert(keys@[l]@ == s[i as int].0);
                        assert(0 <= i < i + 1 && s[i as int].0 == keys@[l]@);
                    }
                }
                assert forall|j: int|
                    0 <= j < i + 1 && prefix@.is_prefix_of(#[trigger] s[j].0) implies views_contain(
                    keys@,
                    s[j].0,
                ) by {
                    if j < i {
                        let l = choose|l: int| 0 <= l < prior.len() && prior[l]@ == s[j].0;
                        assert(keys@[l]@ == s[j].0);
                    } else {
                        assert(matched);
                        assert(keys@[keys@.len() - 1]@ == s[j].0);
                    }
                }
                assert forall|l1: int, l2: int|
                    0 <= l1 < l2 < keys@.len() implies keys@[l1]@ != keys@[l2]@ by {
                    if l2 == keys@.len() - 1 && keys@.len() > prior.len() {
                        let j = choose|j: int| 0 <= j < i && s[j].0 == prior[l1]@;
                        assert(s[j].0 != s[i as int].0);
                        assert(keys@[l2]@ == s[i as int].0);
                    } else {
                        assert(keys@[l1] == prior[l1] && keys@[l2] == prior[l2]);
                    }
                }
            }
            i += 1;
        }
        proof {
            let views = keys@.map_values(|k: String| k@);
            let wanted = self@.dom().filter(|k: Seq<char>| prefix@.is_prefix_of(k));
            assert forall|k: Seq<char>| #[trigger] views.to_set().contains(k) implies wanted.contains(
                k,
            ) by {
                let l = choose|l: int| 0 <= l < views.len() && views[l] == k;
                assert(keys@[l]@ == k);
                let j = choose|j: int| 0 <= j < n && s[j].0 == keys@[l]@;
                lemma_map_of_index(s, j);
            }
            assert forall|k: Seq<char>| wanted.contains(k) implies #[trigger] views.to_set().contains(
                k,
            ) by {
                lemma_map_of_contains(s, k);
                let j = choose|j: int| 0 <= j < s.len() && s[j].0 == k;
                assert(views_contain(keys@, s[j].0));
                let l = choose|l: int| 0 <= l < keys@.len() && keys@[l]@ == s[j].0;
                assert(views[l] == k);
            }
            assert(views.to_set() =~= wanted);
            assert forall|l1: int, l2: int|
                0 <= l1 < l2 < views.len() implies views[l1] != views[l2] by {
                assert(keys@[l1]@ != keys@[l2]@);
            }
        }
        keys
    }

    /// A full copy of the current entries, for the snapshot manager. The
    /// copy is exact: it reflects the store at the moment of the call.
    pub fn get_all_data(&self) -> (data: Vec<(String, Vec<u8>)>)
        requires
            self.well_formed(),
        ensures
            distinct_keys(entry_views(data@)),
            map_of(entry_views(data@)) == self@,
    {
        let n = self.entries.len();
        let mut data: Vec<(String, Vec<u8>)> = Vec::new();
        let mut i: usize = 0;
        while i < n
            invariant
                n == self.entries@.len(),
                i <= n,
                entry_views(data@) =~= entry_views(self.entries@).take(i as int),
            decreases n - i,
        {
            let ghost prior = data@;
            let k = self.entries[i].0.clone();
            let v = self.entries[i].1.clone();
            data.push((k, v));
            proof {
                assert(v@ =~= self.entries@[i as int].1@);
                assert(entry_views(prior).len() == prior.len());
                assert(entry_views(prior).len() == i as int);
                assert(data@ == prior.push((k, v)));
                let dv = entry_views(data@);
                let tv = entry_views(self.entries@).take(i as int + 1);
                assert(dv.len() == tv.len());
                assert forall|j: int| 0 <= j < dv.len() implies dv[j] == tv[j] by {
                    if j < i as int {
                        assert(data@[j] == prior[j]);
                        assert(entry_views(prior)[j] == entry_views(self.entries@).take(
                            i as int,
                        )[j]);
                    } else {
                        assert(data@[j] == (k, v));
                        assert(dv[j] == (k@, v@));
                    }
                }
                assert(dv =~= tv);
            }
            i += 1;
        }
        proof {
            assert(entry_views(data@) =~= entry_views(self.entries@));
        }
        data
    }

    /// A store's key space is always finite.
    pub proof fn lemma_view_finite(&self)
        ensures
            self@.dom().finite(),
    {
        lemma_map_of_finite(entry_views(self.entries@));
    }
}

/// The map denoted by a finite entry sequence has a finite key space.
pub proof fn lemma_map_of_finite(s: Seq<(Seq<char>, Seq<u8>)>)
    ensures
        map_of(s).dom().finite(),
    decreases s.len(),
{
    if s.len() > 0 {
        lemma_map_of_finite(s.drop_last());
    }
}

/// Law: after a set of key `k` with value `v`, a get of `k` sees `v`, and
/// it keeps seeing `v` across sets and deletes of any other key; only a
/// later set or delete of `k` itself can change that.
pub proof fn lemma_set_then_get(
    m: Map<Seq<char>, Seq<u8>>,
    k: Seq<char>,
    v: Seq<u8>,
    other: Seq<char>,
    w: Seq<u8>,
)
    requires
        other != k,
    ensures
        m.insert(k, v).contains_key(k),
        m.insert(k, v)[k] == v,
        m.insert(k, v).insert(other, w).contains_key(k),
        m.insert(k, v).insert(other, w)[k] == v,
        m.insert(k, v).remove(other).contains_key(k),
        m.insert(k, v).remove(other)[k] == v,
{
}

/// Law: deleting an absent key reports no prior entry and leaves the store
/// unchanged, size included; deleting a present key shrinks the store by
/// one entry, and a get of that key then reports not-found.
pub proof fn lemma_delete_semantics(m: Map<Seq<char>, Seq<u8>>, k: Seq<char>)
    requires
        m.dom().finite(),
    ensures
        !m.contains_key(k) ==> m.remove(k) == m && m.remove(k).len() == m.len(),
        m.contains_key(k) ==> m.remove(k).len() + 1 == m.len(),
        !m.remove(k).contains_key(k),
{
    if !m.contains_key(k) {
        assert(m.remove(k) =~= m);
    } else {
        assert(m.remove(k).dom() =~= m.dom().remove(k));
        vstd::set::axiom_set_remove_len(m.dom(), k);
    }
}

/// Law: issuing the same set twice yields the same store state as issuing
/// it once.
pub proof fn lemma_set_idempotent(m: Map<Seq<char>, Seq<u8>>, k: Seq<char>, v: Seq<u8>)
    ensures
        m.insert(k, v).insert(k, v) == m.insert(k, v),
{
    assert(m.insert(k, v).insert(k, v) =~= m.insert(k, v));
}

/// Law: a key listing with the empty prefix covers the whole key space.
pub proof fn lemma_list_all(m: Map<Seq<char>, Seq<u8>>)
    ensures
        m.dom().filter(|k: Seq<char>| Seq::<char>::empty().is_prefix_of(k)) == m.dom(),
{
    assert forall|k: Seq<char>| m.dom().contains(k) implies Seq::<char>::empty().is_prefix_of(
        k,
    ) by {
        assert(Seq::<char>::empty() =~= k.subrange(0, 0));
    }
    assert(m.dom().filter(|k: Seq<char>| Seq::<char>::empty().is_prefix_of(k)) =~= m.dom());
}

} // verus!
