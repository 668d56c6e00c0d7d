use vstd::prelude::*;

verus! {

/// The model of a list of key/display-name pairs.
pub open spec fn entry_views(es: Seq<(String, String)>) -> Seq<(Seq<char>, Seq<char>)> {
    es.map_values(|p: (String, String)| (p.0@, p.1@))
}

/// What one insertion does to the table model: nothing if the key is already
/// present, otherwise the pair is appended.
pub open spec fn spec_insert(
    t: Seq<(Seq<char>, Seq<char>)>,
    key: Seq<char>,
    val: Seq<char>,
) -> Seq<(Seq<char>, Seq<char>)> {
    if spec_contains_key(t, key) {
        t
    } else {
        t.push((key, val))
    }
}

/// Whether some entry of the table model carries the given key.
pub open spec fn spec_contains_key(t: Seq<(Seq<char>, Seq<char>)>, key: Seq<char>) -> bool {
    exists|i: int| 0 <= i < t.len() && t[i].0 == key
}

/// The display name the table model holds for a key, taken from its
/// first entry with that key.
pub open spec fn spec_lookup(t: Seq<(Seq<char>, Seq<char>)>, key: Seq<char>) -> Seq<char>
    decreases t.len(),
{
    if t.len() == 0 {
        Seq::empty()
    } else if t[0].0 == key {
        t[0].1
    } else {
        spec_lookup(t.drop_first(), key)
    }
}

/// The global key → display-name table. Entries keep insertion order, so the
/// emitted localization document is stable from run to run; a key inserted
/// twice keeps the display name it was first inserted with.
pub struct KeyTable {
    entries: Vec<(String, String)>,
}

impl KeyTable {
    pub closed spec fn view(&self) -> Seq<(Seq<char>, Seq<char>)> {
        self.entries@.map_values(|p: (String, String)| (p.0@, p.1@))
    }

    pub fn new() -> (r: KeyTable)
        ensures
            r@ == Seq::<(Seq<char>, Seq<char>)>::empty(),
    {
        let r = KeyTable { entries: Vec::new() };
        proof {
            assert(r@ =~= Seq::<(Seq<char>, Seq<char>)>::empty());
        }
        r
    }

    pub fn contains_key(&self, key: &String) -> (r: bool)
        ensures
            r == spec_contains_key(self@, key@),
    {
        let n = self.entries.len();
        let mut i: usize = 0;
        while i < n
            invariant
                n == self.entries.len(),
                i <= n,
                forall|j: int| 0 <= j < i ==> self@[j].0 != key@,
            decreases n - i,
        {
            if (&self.entries[i].0).eq(key) {
                assert(self@[i as int].0 == key@);
                return true;
            }
            i += 1;
        }
        false
    }

    /// Inserts a pair unless the key is already present: first write wins.
    pub fn insert(&mut self, key: String, val: String)
        ensures
            final(self)@ == spec_insert(old(self)@, key@, val@),
    {
        if !self.contains_key(&key) {
            let ghost t0 = self@;
            self.entries.push((key, val));
            proof {
                assert(self@ =~= t0.push((key@, val@)));
            }
        }
    }

    /// The entries in insertion order.
    pub fn entries(&self) -> (r: &Vec<(String, String)>)
        ensures
            r@.map_values(|p: (String, String)| (p.0@, p.1@)) == self@,
    {
        &self.entries
    }
}

/// An inserted pair can be looked up again, and lookup of any other key is
/// unchanged by the insertion.
pub proof fn lemma_insert_lookup(t: Seq<(Seq<char>, Seq<char>)>, key: Seq<char>, val: Seq<char>)
    ensures
        spec_contains_key(spec_insert(t, key, val), key),
        !spec_contains_key(t, key) ==> spec_lookup(spec_insert(t, key, val), key) == val,
        forall|k: Seq<char>|
            k != key ==> spec_lookup(spec_insert(t, key, val), k) == spec_lookup(t, k),
        forall|k: Seq<char>|
            k != key ==> spec_contains_key(spec_insert(t, key, val), k) == spec_contains_key(t, k),
    decreases t.len(),
{
    if !spec_contains_key(t, key) {
        let t2 = t.push((key, val));
        assert(t2[t.len() as int].0 == key);
        lemma_lookup_push(t, key, val, key);
        assert forall|k: Seq<char>| k != key implies spec_lookup(t2, k) == spec_lookup(t, k) by {
            lemma_lookup_push(t, key, val, k);
            if !spec_contains_key(t, k) {
                lemma_lookup_absent(t, k);
            }
        }
        assert forall|k: Seq<char>| k != key implies spec_contains_key(t2, k) == spec_contains_key(
            t,
            k,
        ) by {
            if spec_contains_key(t2, k) {
                let i = choose|i: int| 0 <= i < t2.len() && t2[i].0 == k;
                assert(i < t.len() && t[i].0 == k);
            }
            if spec_contains_key(t, k) {
                let i = choose|i: int| 0 <= i < t.len() && t[i].0 == k;
                assert(t2[i].0 == k);
            }
        }
    }
}

/// Lookup of an absent key yields the empty name.
proof fn lemma_lookup_absent(t: Seq<(Seq<char>, Seq<char>)>, k: Seq<char>)
    requires
        !spec_contains_key(t, k),
    ensures
        spec_lookup(t, k) == Seq::<char>::empty(),
    decreases t.len(),
{
    if t.len() > 0 {
        assert(t[0].0 != k);
        assert forall|i: int| 0 <= i < t.drop_first().len() implies t.drop_first()[i].0 != k by {
            assert(t[i + 1].0 != k);
        }
        lemma_lookup_absent(t.drop_first(), k);
    }
}

/// How lookup behaves on a table extended by one entry at the end.
proof fn lemma_lookup_push(
    t: Seq<(Seq<char>, Seq<char>)>,
    key: Seq<char>,
    val: Seq<char>,
    k: Seq<char>,
)
    ensures
        spec_lookup(t.push((key, val)), k) == if spec_contains_key(t, k) {
            spec_lookup(t, k)
        } else if k == key {
            val
        } else {
            spec_lookup(Seq::<(Seq<char>, Seq<char>)>::empty(), k)
        },
    decreases t.len(),
{
    let t2 = t.push((key, val));
    if t.len() == 0 {
        assert(t2.len() == 1);
        assert(t2[0] == (key, val));
        if t2[0].0 == k {
            assert(k == key);
        } else {
            assert(t2.drop_first() =~= Seq::<(Seq<char>, Seq<char>)>::empty());
        }
    } else {
        assert(t2[0] == t[0]);
        if t2[0].0 != k {
            assert(t2.drop_first() =~= t.drop_first().push((key, val)));
            lemma_lookup_push(t.drop_first(), key, val, k);
            if spec_contains_key(t.drop_first(), k) {
                let i = choose|i: int|
                    0 <= i < t.drop_first().len() && t.drop_first()[i].0 == k;
                assert(t[i + 1].0 == k);
            }
            if spec_contains_key(t, k) {
                let i = choose|i: int| 0 <= i < t.len() && t[i].0 == k;
                assert(i != 0);
                assert(t.drop_first()[i - 1].0 == k);
            }
        } else {
            assert(spec_contains_key(t, k)) by {
                assert(t[0].0 == k);
            }
        }
    }
}

/// First write wins: after inserting a key and then inserting the same key
/// again with another display name, the table still holds the first name.
pub proof fn lemma_first_write_wins(
    t: Seq<(Seq<char>, Seq<char>)>,
    key: Seq<char>,
    first: Seq<char>,
    second: Seq<char>,
)
    requires
        !spec_contains_key(t, key),
    ensures
        spec_lookup(spec_insert(spec_insert(t, key, first), key, second), key) == first,
{
    lemma_insert_lookup(t, key, first);
    assert(spec_insert(spec_insert(t, key, first), key, second) == spec_insert(t, key, first));
}

} // verus!
