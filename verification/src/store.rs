//! The store: a map from keys to values that keeps its entries in the order
//! of their keys.

use crate::types::{RedisType, Value};
use vstd::prelude::*;
use vstd::utf8::encode_utf8;

verus! {

/// Whether `a` comes before `b` where byte strings are ordered by their first
/// difference, and a proper prefix comes before what it is a prefix of.
pub open spec fn bytes_before(a: Seq<u8>, b: Seq<u8>) -> bool
    decreases a.len(),
{
    if b.len() == 0 {
        false
    } else if a.len() == 0 {
        true
    } else if a[0] != b[0] {
        a[0] < b[0]
    } else {
        bytes_before(a.skip(1), b.skip(1))
    }
}

/// The order of keys: that of their UTF-8 bytes.
pub open spec fn key_before(a: Seq<char>, b: Seq<char>) -> bool {
    bytes_before(encode_utf8(a), encode_utf8(b))
}

proof fn lemma_bytes_before_irreflexive(a: Seq<u8>)
    ensures
        !bytes_before(a, a),
    decreases a.len(),
{
    if a.len() > 0 {
        lemma_bytes_before_irreflexive(a.skip(1));
    }
}

proof fn lemma_bytes_before_transitive(a: Seq<u8>, b: Seq<u8>, c: Seq<u8>)
    requires
        bytes_before(a, b),
        bytes_before(b, c),
    ensures
        bytes_before(a, c),
    decreases a.len(),
{
    if a.len() > 0 && a[0] == b[0] && b[0] == c[0] {
        lemma_bytes_before_transitive(a.skip(1), b.skip(1), c.skip(1));
    }
}

proof fn lemma_bytes_before_total(a: Seq<u8>, b: Seq<u8>)
    ensures
        bytes_before(a, b) || bytes_before(b, a) || a == b,
    decreases a.len(),
{
    if a.len() > 0 && b.len() > 0 && a[0] == b[0] {
        lemma_bytes_before_total(a.skip(1), b.skip(1));
        if a.skip(1) == b.skip(1) {
            assert forall|i: int| 0 <= i < a.len() implies a[i] == b[i] by {
                if i > 0 {
                    assert(a[i] == a.skip(1)[i - 1]);
                    assert(b[i] == b.skip(1)[i - 1]);
                }
            }
            assert(a.len() == a.skip(1).len() + 1);
            assert(b.len() == b.skip(1).len() + 1);
            assert(a =~= b);
        }
    } else if a.len() == 0 && b.len() == 0 {
        assert(a =~= b);
    }
}

/// No key comes before itself.
pub proof fn lemma_key_before_irreflexive(a: Seq<char>)
    ensures
        !key_before(a, a),
{
    lemma_bytes_before_irreflexive(encode_utf8(a));
}

/// The order of keys is transitive.
pub proof fn lemma_key_before_transitive(a: Seq<char>, b: Seq<char>, c: Seq<char>)
    requires
        key_before(a, b),
        key_before(b, c),
    ensures
        key_before(a, c),
{
    lemma_bytes_before_transitive(encode_utf8(a), encode_utf8(b), encode_utf8(c));
}

/// Of two different keys one comes before the other.
pub proof fn lemma_key_before_total(a: Seq<char>, b: Seq<char>)
    ensures
        key_before(a, b) || key_before(b, a) || a == b,
{
    lemma_bytes_before_total(encode_utf8(a), encode_utf8(b));
    vstd::utf8::encode_utf8_decode_utf8(a);
    vstd::utf8::encode_utf8_decode_utf8(b);
}

/// How one key stands to another.
#[derive(Debug, Clone, Copy, PartialEq, Eq, Structural)]
pub enum Place {
    Before,
    Same,
    After,
}

/// How `a` stands to `b` in the order of keys.
pub fn place(a: &str, b: &str) -> (p: Place)
    ensures
        p == Place::Before <==> key_before(a@, b@),
        p == Place::Same <==> a@ == b@,
        p == Place::After <==> key_before(b@, a@),
{
    let x = a.as_bytes();
    let y = b.as_bytes();
    proof {
        lemma_key_before_total(a@, b@);
        lemma_key_before_irreflexive(a@);
        if key_before(a@, b@) && key_before(b@, a@) {
            lemma_key_before_transitive(a@, b@, a@);
        }
        assert(x@.skip(0) =~= x@);
        assert(y@.skip(0) =~= y@);
    }
    let mut i: usize = 0;
    while i < x.len() && i < y.len()
        invariant
            i <= x@.len(),
            i <= y@.len(),
            x@ == encode_utf8(a@),
            y@ == encode_utf8(b@),
            bytes_before(x@, y@) == bytes_before(x@.skip(i as int), y@.skip(i as int)),
            bytes_before(y@, x@) == bytes_before(y@.skip(i as int), x@.skip(i as int)),
        decreases x@.len() - i,
    {
        if x[i] < y[i] {
            return Place::Before;
        }
        if x[i] > y[i] {
            return Place::After;
        }
        assert(x@.skip(i as int).skip(1) =~= x@.skip(i + 1));
        assert(y@.skip(i as int).skip(1) =~= y@.skip(i + 1));
        i = i + 1;
    }
    if i < y.len() {
        Place::Before
    } else if i < x.len() {
        Place::After
    } else {
        Place::Same
    }
}

/// Whether the entries stand in the order of their keys. No key then occurs
/// twice.
spec fn ordered(entries: Seq<(String, RedisType)>) -> bool {
    forall|i: int, j: int|
        0 <= i < j < entries.len() ==> key_before(
            (#[trigger] entries[i]).0@,
            (#[trigger] entries[j]).0@,
        )
}

/// Whether `i` is a place among the entries at which `key` stands.
spec fn stands_at(entries: Seq<(String, RedisType)>, key: Seq<char>, i: int) -> bool {
    0 <= i < entries.len() && entries[i].0@ == key
}

/// The map that the entries make.
spec fn model(entries: Seq<(String, RedisType)>) -> Map<Seq<char>, Value> {
    Map::new(
        |key: Seq<char>| exists|i: int| stands_at(entries, key, i),
        |key: Seq<char>| entries[choose|i: int| stands_at(entries, key, i)].1@,
    )
}

/// Ordered entries map the key of each entry to the value of that entry.
proof fn lemma_model_at(entries: Seq<(String, RedisType)>, i: int)
    requires
        ordered(entries),
        0 <= i < entries.len(),
    ensures
        model(entries).contains_key(entries[i].0@),
        model(entries)[entries[i].0@] == entries[i].1@,
{
    let key = entries[i].0@;
    assert(stands_at(entries, key, i));
    let j = choose|j: int| stands_at(entries, key, j);
    lemma_key_before_irreflexive(key);
    if j < i {
        assert(key_before(entries[j].0@, entries[i].0@));
    } else if i < j {
        assert(key_before(entries[i].0@, entries[j].0@));
    }
}

/// A key between the entries before `at` and those from `at` on can be
/// entered at `at`, and is then mapped to its value.
proof fn lemma_model_insert(
    entries: Seq<(String, RedisType)>,
    at: int,
    entry: (String, RedisType),
)
    requires
        ordered(entries),
        0 <= at <= entries.len(),
        forall|j: int| 0 <= j < at ==> key_before((#[trigger] entries[j]).0@, entry.0@),
        forall|j: int| at <= j < entries.len() ==> key_before(entry.0@, (#[trigger] entries[j]).0@),
    ensures
        ordered(entries.insert(at, entry)),
        model(entries.insert(at, entry)) == model(entries).insert(entry.0@, entry.1@),
{
    let after = entries.insert(at, entry);
    assert forall|i: int, j: int| 0 <= i < j < after.len() implies key_before(
        (#[trigger] after[i]).0@,
        (#[trigger] after[j]).0@,
    ) by {
        let a = if i < at { i } else { i - 1 };
        let b = if j < at { j } else { j - 1 };
        if i != at && j != at {
            assert(key_before(entries[a].0@, entries[b].0@));
        } else if i == at {
            assert(key_before(entry.0@, entries[b].0@));
        } else {
            assert(key_before(entries[a].0@, entry.0@));
        }
    }
    let want = model(entries).insert(entry.0@, entry.1@);
    assert forall|key: Seq<char>| #[trigger]
        model(after).contains_key(key) implies want.contains_key(key) && want[key] == model(
        after,
    )[key] by {
        let i = choose|i: int| stands_at(after, key, i);
        lemma_model_at(after, i);
        if i != at {
            let a = if i < at { i } else { i - 1 };
            assert(after[i] == entries[a]);
            lemma_model_at(entries, a);
            lemma_key_before_irreflexive(key);
        }
    }
    assert forall|key: Seq<char>| #[trigger]
        want.contains_key(key) implies model(after).contains_key(key) by {
        if key == entry.0@ {
            assert(stands_at(after, key, at));
        } else {
            let a = choose|a: int| stands_at(entries, key, a);
            let i = if a < at { a } else { a + 1 };
            assert(stands_at(after, key, i));
        }
    }
    assert(model(after) =~= want);
}

/// Without one of their entries, ordered entries stay ordered and no longer
/// map its key.
proof fn lemma_model_remove(entries: Seq<(String, RedisType)>, at: int)
    requires
        ordered(entries),
        0 <= at < entries.len(),
    ensures
        ordered(entries.remove(at)),
        model(entries.remove(at)) == model(entries).remove(entries[at].0@),
        forall|j: int| 0 <= j < at ==> key_before((#[trigger] entries[j]).0@, entries[at].0@),
        forall|j: int|
            at <= j < entries.remove(at).len() ==> key_before(
                entries[at].0@,
                (#[trigger] entries.remove(at)[j]).0@,
            ),
{
    let after = entries.remove(at);
    let gone = entries[at].0@;
    assert forall|i: int, j: int| 0 <= i < j < after.len() implies key_before(
        (#[trigger] after[i]).0@,
        (#[trigger] after[j]).0@,
    ) by {
        let a = if i < at { i } else { i + 1 };
        let b = if j < at { j } else { j + 1 };
        assert(key_before(entries[a].0@, entries[b].0@));
    }
    assert forall|j: int| at <= j < after.len() implies key_before(
        gone,
        (#[trigger] after[j]).0@,
    ) by {
        assert(key_before(entries[at].0@, entries[j + 1].0@));
    }
    let want = model(entries).remove(gone);
    assert forall|key: Seq<char>| #[trigger]
        model(after).contains_key(key) implies want.contains_key(key) && want[key] == model(
        after,
    )[key] by {
        let i = choose|i: int| stands_at(after, key, i);
        lemma_model_at(after, i);
        let a = if i < at { i } else { i + 1 };
        assert(after[i] == entries[a]);
        lemma_model_at(entries, a);
        lemma_key_before_irreflexive(key);
        if a < at {
            assert(key_before(entries[a].0@, entries[at].0@));
        } else {
            assert(key_before(entries[at].0@, entries[a].0@));
        }
    }
    assert forall|key: Seq<char>| #[trigger]
        want.contains_key(key) implies model(after).contains_key(key) by {
        let a = choose|a: int| stands_at(entries, key, a);
        let i = if a < at { a } else { a - 1 };
        assert(stands_at(after, key, i));
    }
    assert(model(after) =~= want);
}

/// A map from keys to values. Its entries stand in the order of their keys.
#[derive(Debug)]
pub struct Store {
    entries: Vec<(String, RedisType)>,
}

impl View for Store {
    type V = Map<Seq<char>, Value>;

    closed spec fn view(&self) -> Map<Seq<char>, Value> {
        model(self.entries@)
    }
}

impl Store {
    #[verifier::type_invariant]
    spec fn well_formed(self) -> bool {
        ordered(self.entries@)
    }

    /// The empty store.
    pub fn new() -> (store: Store)
        ensures
            store@ == Map::<Seq<char>, Value>::empty(),
    {
        let store = Store { entries: Vec::new() };
        assert(store@ =~= Map::<Seq<char>, Value>::empty());
        store
    }

    /// Where `key` stands among the entries, or where it would be entered.
    fn find(&self, key: &str) -> (found: (bool, usize))
        ensures
            found.1 <= self.entries@.len(),
            found.0 ==> found.1 < self.entries@.len() && self.entries@[found.1 as int].0@ == key@,
            !found.0 ==> forall|j: int|
                0 <= j < found.1 ==> key_before((#[trigger] self.entries@[j]).0@, key@),
            !found.0 ==> forall|j: int|
                found.1 <= j < self.entries@.len() ==> key_before(
                    key@,
                    (#[trigger] self.entries@[j]).0@,
                ),
    {
        proof {
            use_type_invariant(self);
        }
        let mut low: usize = 0;
        let mut high: usize = self.entries.len();
        while low < high
            invariant
                low <= high <= self.entries@.len(),
                ordered(self.entries@),
                forall|j: int| 0 <= j < low ==> key_before((#[trigger] self.entries@[j]).0@, key@),
                forall|j: int|
                    high <= j < self.entries@.len() ==> key_before(
                        key@,
                        (#[trigger] self.entries@[j]).0@,
                    ),
            decreases high - low,
        {
            let middle = low + (high - low) / 2;
            match place(self.entries[middle].0.as_str(), key) {
                Place::Same => {
                    return (true, middle);
                },
                Place::Before => {
                    assert forall|j: int| 0 <= j < middle + 1 implies key_before(
                        (#[trigger] self.entries@[j]).0@,
                        key@,
                    ) by {
                        if j < middle {
                            assert(key_before(
                                self.entries@[j].0@,
                                self.entries@[middle as int].0@,
                            ));
                            lemma_key_before_transitive(
                                self.entries@[j].0@,
                                self.entries@[middle as int].0@,
                                key@,
                            );
                        }
                    }
                    low = middle + 1;
                },
                Place::After => {
                    assert forall|j: int| middle <= j < self.entries@.len() implies key_before(
                        key@,
                        (#[trigger] self.entries@[j]).0@,
                    ) by {
                        if middle < j {
                            assert(key_before(
                                self.entries@[middle as int].0@,
                                self.entries@[j].0@,
                            ));
                            lemma_key_before_transitive(
                                key@,
                                self.entries@[middle as int].0@,
                                self.entries@[j].0@,
                            );
                        }
                    }
                    high = middle;
                },
            }
        }
        (false, low)
    }

    /// The number of keys.
    pub fn len(&self) -> (n: usize)
        ensures
            self@.dom().finite(),
            n == self@.dom().len(),
    {
        proof {
            use_type_invariant(self);
            lemma_model_len(self.entries@);
        }
        self.entries.len()
    }

    /// The keys, in their order.
    pub fn keys(&self) -> (keys: Vec<String>)
        ensures
            keys.deep_view().to_set() == self@.dom(),
            forall|i: int, j: int|
                0 <= i < j < keys@.len() ==> key_before(
                    (#[trigger] keys@[i])@,
                    (#[trigger] keys@[j])@,
                ),
    {
        proof {
            use_type_invariant(self);
        }
        let mut keys: Vec<String> = Vec::new();
        let mut i: usize = 0;
        while i < self.entries.len()
            invariant
                i <= self.entries@.len(),
                keys@.len() == i,
                forall|j: int| 0 <= j < i ==> (#[trigger] keys@[j])@ == self.entries@[j].0@,
            decreases self.entries@.len() - i,
        {
            keys.push(self.entries[i].0.clone());
            i = i + 1;
        }
        proof {
            let texts = keys.deep_view();
            assert forall|key: Seq<char>| texts.to_set().contains(key) <==> self@.dom().contains(
                key,
            ) by {
                if texts.to_set().contains(key) {
                    let j = choose|j: int| 0 <= j < texts.len() && texts[j] == key;
                    assert(stands_at(self.entries@, key, j));
                }
                if self@.dom().contains(key) {
                    let j = choose|j: int| stands_at(self.entries@, key, j);
                    assert(texts[j] == key);
                }
            }
            assert(texts.to_set() =~= self@.dom());
            assert forall|i: int, j: int| 0 <= i < j < keys@.len() implies key_before(
                (#[trigger] keys@[i])@,
                (#[trigger] keys@[j])@,
            ) by {
                assert(key_before(self.entries@[i].0@, self.entries@[j].0@));
            }
        }
        keys
    }

    /// The value that `key` is mapped to, if there is one.
    pub fn get(&self, key: &str) -> (value: Option<&RedisType>)
        ensures
            match value {
                Some(v) => self@.contains_key(key@) && self@[key@] == v@,
                None => !self@.contains_key(key@),
            },
    {
        proof {
            use_type_invariant(self);
        }
        let (found, at) = self.find(key);
        if found {
            proof {
                lemma_model_at(self.entries@, at as int);
            }
            Some(&self.entries[at].1)
        } else {
            proof {
                lemma_absent(self.entries@, key@, at as int);
            }
            None
        }
    }

    /// Maps `key` to `value`, and gives back the value that it was mapped to.
    pub fn insert(&mut self, key: String, value: RedisType) -> (previous: Option<RedisType>)
        ensures
            final(self)@ == old(self)@.insert(key@, value@),
            match previous {
                Some(v) => old(self)@.contains_key(key@) && old(self)@[key@] == v@,
                None => !old(self)@.contains_key(key@),
            },
    {
        proof {
            use_type_invariant(&*self);
        }
        let (found, at) = self.find(key.as_str());
        let ghost before = self.entries@;
        let mut entries: Vec<(String, RedisType)> = Vec::new();
        std::mem::swap(&mut self.entries, &mut entries);
        let previous = if found {
            let gone = entries.remove(at);
            proof {
                lemma_model_at(before, at as int);
                lemma_model_remove(before, at as int);
                lemma_model_insert(entries@, at as int, (key, value));
                assert(model(before).remove(key@).insert(key@, value@) =~= model(before).insert(
                    key@,
                    value@,
                ));
            }
            Some(gone.1)
        } else {
            proof {
                lemma_absent(before, key@, at as int);
                lemma_model_insert(before, at as int, (key, value));
            }
            None
        };
        entries.insert(at, (key, value));
        self.entries = entries;
        previous
    }

    /// Removes `key`, and gives back the value that it was mapped to.
    pub fn remove(&mut self, key: &str) -> (previous: Option<RedisType>)
        ensures
            final(self)@ == old(self)@.remove(key@),
            match previous {
                Some(v) => old(self)@.contains_key(key@) && old(self)@[key@] == v@,
                None => !old(self)@.contains_key(key@),
            },
    {
        proof {
            use_type_invariant(&*self);
        }
        let (found, at) = self.find(key);
        let ghost before = self.entries@;
        if found {
            proof {
                lemma_model_at(before, at as int);
                lemma_model_remove(before, at as int);
            }
            let mut entries: Vec<(String, RedisType)> = Vec::new();
            std::mem::swap(&mut self.entries, &mut entries);
            let gone = entries.remove(at);
            self.entries = entries;
            Some(gone.1)
        } else {
            proof {
                lemma_absent(before, key@, at as int);
                assert(model(before).remove(key@) =~= model(before));
            }
            None
        }
    }
}

impl Default for Store {
    /// The empty store.
    fn default() -> (store: Store)
        ensures
            store@ == Map::<Seq<char>, Value>::empty(),
    {
        Store::new()
    }
}

/// A key that stands strictly between two neighbouring entries, or before
/// or after all of them, is not mapped.
proof fn lemma_absent(entries: Seq<(String, RedisType)>, key: Seq<char>, at: int)
    requires
        0 <= at <= entries.len(),
        forall|j: int| 0 <= j < at ==> key_before((#[trigger] entries[j]).0@, key),
        forall|j: int| at <= j < entries.len() ==> key_before(key, (#[trigger] entries[j]).0@),
    ensures
        !model(entries).contains_key(key),
{
    lemma_key_before_irreflexive(key);
    if model(entries).contains_key(key) {
        let i = choose|i: int| stands_at(entries, key, i);
        if i < at {
            assert(key_before(entries[i].0@, key));
        } else {
            assert(key_before(key, entries[i].0@));
        }
    }
}

/// Ordered entries map as many keys as there are entries.
proof fn lemma_model_len(entries: Seq<(String, RedisType)>)
    requires
        ordered(entries),
    ensures
        model(entries).dom().finite(),
        model(entries).dom().len() == entries.len(),
    decreases entries.len(),
{
    if entries.len() == 0 {
        assert(model(entries).dom() =~= Set::<Seq<char>>::empty());
    } else {
        let at = entries.len() - 1;
        lemma_model_remove(entries, at);
        lemma_model_len(entries.remove(at));
        lemma_model_at(entries, at);
        let key = entries[at].0@;
        assert(model(entries).dom() =~= model(entries.remove(at)).dom().insert(key));
    }
}

} // verus!
