//! Metric names in order, and lookups by name.
//!
//! Names are ordered as strings are: by their UTF-8 bytes. A list that is
//! strictly ordered by name holds each name at most once, so it can be
//! searched by halving and always reads back in the same order.

use vstd::prelude::*;
use vstd::utf8::{encode_utf8, encode_utf8_decode_utf8};

verus! {

/// Lexicographic order of byte strings.
pub open spec fn bytes_before(a: Seq<u8>, b: Seq<u8>) -> bool
    decreases a.len(),
{
    if b.len() == 0 {
        false
    } else if a.len() == 0 {
        true
    } else if a[0] != b[0] {
        a[0] < b[0]
    } else {
        bytes_before(a.drop_first(), b.drop_first())
    }
}

/// The order of names.
pub open spec fn name_before(a: Seq<char>, b: Seq<char>) -> bool {
    bytes_before(encode_utf8(a), encode_utf8(b))
}

proof fn lemma_bytes_irreflexive(a: Seq<u8>)
    ensures
        !bytes_before(a, a),
    decreases a.len(),
{
    if a.len() > 0 {
        lemma_bytes_irreflexive(a.drop_first());
    }
}

proof fn lemma_bytes_transitive(a: Seq<u8>, b: Seq<u8>, c: Seq<u8>)
    requires
        bytes_before(a, b),
        bytes_before(b, c),
    ensures
        bytes_before(a, c),
    decreases a.len(),
{
    if a.len() > 0 && b.len() > 0 && c.len() > 0 && a[0] == b[0] && b[0] == c[0] {
        lemma_bytes_transitive(a.drop_first(), b.drop_first(), c.drop_first());
    }
}

proof fn lemma_bytes_total(a: Seq<u8>, b: Seq<u8>)
    ensures
        a == b || bytes_before(a, b) || bytes_before(b, a),
    decreases a.len(),
{
    if a.len() > 0 && b.len() > 0 && a[0] == b[0] {
        lemma_bytes_total(a.drop_first(), b.drop_first());
        if a.drop_first() == b.drop_first() {
            assert(a =~= seq![a[0]] + a.drop_first());
            assert(b =~= seq![b[0]] + b.drop_first());
        }
    } else if a.len() == 0 && b.len() == 0 {
        assert(a =~= b);
    }
}

/// No name comes before itself.
pub proof fn law_names_irreflexive(a: Seq<char>)
    ensures
        !name_before(a, a),
{
    lemma_bytes_irreflexive(encode_utf8(a));
}

/// The order of names is transitive.
pub proof fn law_names_transitive(a: Seq<char>, b: Seq<char>, c: Seq<char>)
    requires
        name_before(a, b),
        name_before(b, c),
    ensures
        name_before(a, c),
{
    lemma_bytes_transitive(encode_utf8(a), encode_utf8(b), encode_utf8(c));
}

/// Of two different names, one comes before the other.
pub proof fn law_names_total(a: Seq<char>, b: Seq<char>)
    ensures
        a == b || name_before(a, b) || name_before(b, a),
{
    lemma_bytes_total(encode_utf8(a), encode_utf8(b));
    encode_utf8_decode_utf8(a);
    encode_utf8_decode_utf8(b);
}

/// Where one name stands relative to another.
#[derive(Debug, Clone, Copy, PartialEq, Eq, Structural)]
pub enum Place {
    /// It comes first.
    Before,
    /// It is the same name.
    Same,
    /// It comes later.
    After,
}

/// Where `a` stands relative to `b`.
pub fn place_of(a: &str, b: &str) -> (place: Place)
    ensures
        (place == Place::Before) == name_before(a@, b@),
        (place == Place::Same) == (a@ == b@),
        (place == Place::After) == name_before(b@, a@),
{
    let left: &[u8] = a.as_bytes();
    let right: &[u8] = b.as_bytes();
    let mut i: usize = 0;
    proof {
        law_names_irreflexive(a@);
        encode_utf8_decode_utf8(a@);
        encode_utf8_decode_utf8(b@);
        assert(left@.skip(0) =~= left@);
        assert(right@.skip(0) =~= right@);
    }
    while i < left.len() && i < right.len()
        invariant
            i <= left.len(),
            i <= right.len(),
            left@ == encode_utf8(a@),
            right@ == encode_utf8(b@),
            left@.take(i as int) == right@.take(i as int),
            name_before(a@, b@) == bytes_before(left@.skip(i as int), right@.skip(i as int)),
            name_before(b@, a@) == bytes_before(right@.skip(i as int), left@.skip(i as int)),
            !name_before(a@, a@),
        decreases left.len() - i,
    {
        assert(left@.skip(i as int)[0] == left@[i as int]);
        assert(right@.skip(i as int)[0] == right@[i as int]);
        if left[i] < right[i] {
            return Place::Before;
        }
        if right[i] < left[i] {
            return Place::After;
        }
        assert(left@.skip(i as int).drop_first() =~= left@.skip(i + 1));
        assert(right@.skip(i as int).drop_first() =~= right@.skip(i + 1));
        assert(left@.take(i + 1) =~= left@.take(i as int).push(left@[i as int]));
        assert(right@.take(i + 1) =~= right@.take(i as int).push(right@[i as int]));
        i = i + 1;
    }
    if i < right.len() {
        Place::Before
    } else if i < left.len() {
        Place::After
    } else {
        assert(left@.take(i as int) =~= left@);
        assert(right@.take(i as int) =~= right@);
        Place::Same
    }
}

/// Something that goes by a name.
pub trait Named: Sized {
    /// Its name.
    spec fn name(&self) -> Seq<char>;

    /// Its name, as text.
    fn text(&self) -> (text: &str)
        ensures
            text@ == self.name(),
    ;
}

/// Something whose name can be given to another.
pub trait Twin: Named {
    /// Another that goes by the same name.
    fn twin(&self) -> (twin: Self)
        ensures
            twin.name() == self.name(),
    ;
}

impl Named for String {
    open spec fn name(&self) -> Seq<char> {
        self@
    }

    fn text(&self) -> (text: &str) {
        self.as_str()
    }
}

impl Twin for String {
    fn twin(&self) -> (twin: Self) {
        self.clone()
    }
}

/// Strictly ordered by name: no name twice.
pub open spec fn in_name_order<T: Named>(items: Seq<T>) -> bool {
    forall|i: int, j: int|
        0 <= i < j < items.len() ==> name_before(
            (#[trigger] items[i]).name(),
            (#[trigger] items[j]).name(),
        )
}

/// Some item goes by `name`.
pub open spec fn names_one<T: Named>(items: Seq<T>, name: Seq<char>) -> bool {
    exists|i: int| 0 <= i < items.len() && (#[trigger] items[i]).name() == name
}

/// The index of the item that goes by `name`, where one does.
pub open spec fn index_named<T: Named>(items: Seq<T>, name: Seq<char>) -> int {
    choose|i: int| 0 <= i < items.len() && (#[trigger] items[i]).name() == name
}

/// In a list ordered by name, a name stands at one index only.
pub proof fn lemma_one_index<T: Named>(items: Seq<T>, i: int, j: int)
    requires
        in_name_order(items),
        0 <= i < items.len(),
        0 <= j < items.len(),
        items[i].name() == items[j].name(),
    ensures
        i == j,
{
    law_names_irreflexive(items[i].name());
}

/// The index of the item called `name`, or the index at which such an item
/// would keep the list in order.
pub fn search<T: Named>(items: &Vec<T>, name: &str) -> (found: Result<usize, usize>)
    requires
        in_name_order(items@),
    ensures
        match found {
            Ok(i) => i < items.len() && items[i as int].name() == name@,
            Err(i) => {
                &&& i <= items.len()
                &&& !names_one(items@, name@)
                &&& forall|j: int| 0 <= j < i ==> name_before((#[trigger] items[j]).name(), name@)
                &&& forall|j: int|
                    i <= j < items.len() ==> name_before(name@, (#[trigger] items[j]).name())
            },
        },
{
    let mut low: usize = 0;
    let mut high: usize = items.len();
    while low < high
        invariant
            low <= high <= items.len(),
            in_name_order(items@),
            forall|j: int| 0 <= j < low ==> name_before((#[trigger] items[j]).name(), name@),
            forall|j: int|
                high <= j < items.len() ==> name_before(name@, (#[trigger] items[j]).name()),
        decreases high - low,
    {
        let middle: usize = low + (high - low) / 2;
        match place_of(items[middle].text(), name) {
            Place::Same => {
                return Ok(middle);
            },
            Place::Before => {
                assert forall|j: int| 0 <= j < middle + 1 implies name_before(
                    (#[trigger] items[j]).name(),
                    name@,
                ) by {
                    if j < middle {
                        law_names_transitive(
                            items[j].name(),
                            items[middle as int].name(),
                            name@,
                        );
                    }
                }
                low = middle + 1;
            },
            Place::After => {
                assert forall|j: int| middle <= j < items.len() implies name_before(
                    name@,
                    (#[trigger] items[j]).name(),
                ) by {
                    if j > middle {
                        law_names_transitive(
                            name@,
                            items[middle as int].name(),
                            items[j].name(),
                        );
                    }
                }
                high = middle;
            },
        }
    }
    proof {
        law_names_irreflexive(name@);
    }
    Err(low)
}

/// An item put where its name belongs keeps a list in order and adds its name.
pub proof fn lemma_inserted<T: Named>(before: Seq<T>, after: Seq<T>, k: int)
    requires
        in_name_order(before),
        0 <= k <= before.len(),
        after == before.insert(k, after[k]),
        forall|j: int| 0 <= j < k ==> name_before((#[trigger] before[j]).name(), after[k].name()),
        forall|j: int|
            k <= j < before.len() ==> name_before(after[k].name(), (#[trigger] before[j]).name()),
    ensures
        in_name_order(after),
        forall|name: Seq<char>| #[trigger]
            names_one(after, name) <==> names_one(before, name) || name == after[k].name(),
{
    assert forall|i: int, j: int| 0 <= i < j < after.len() implies name_before(
        (#[trigger] after[i]).name(),
        (#[trigger] after[j]).name(),
    ) by {
        let a = if i < k { i } else { i - 1 };
        let b = if j < k { j } else { j - 1 };
        if i != k {
            assert(after[i] == before[a]);
        }
        if j != k {
            assert(after[j] == before[b]);
        }
        if i != k && j != k {
            assert(name_before(before[a].name(), before[b].name()));
        }
    }
    assert forall|name: Seq<char>| #[trigger] names_one(after, name) <==> names_one(before, name)
        || name == after[k].name() by {
        if names_one(after, name) {
            let i = index_named(after, name);
            if i != k {
                assert(before[if i < k { i } else { i - 1 }] == after[i]);
            }
        }
        if names_one(before, name) {
            let i = index_named(before, name);
            assert(after[if i < k { i } else { i + 1 }] == before[i]);
        }
        if name == after[k].name() {
            assert(names_one(after, name));
        }
    }
}

/// The names among one item more.
pub proof fn lemma_taken<T: Named>(items: Seq<T>, i: int, name: Seq<char>)
    requires
        0 <= i < items.len(),
    ensures
        names_one(items.take(i + 1), name) <==> names_one(items.take(i), name) || name
            == items[i].name(),
{
    let (seen, now) = (items.take(i), items.take(i + 1));
    if names_one(now, name) {
        let j = index_named(now, name);
        if j < i {
            assert(seen[j] == now[j]);
        }
    }
    if names_one(seen, name) {
        let j = index_named(seen, name);
        assert(now[j] == seen[j]);
    }
    if name == items[i].name() {
        assert(now[i].name() == name);
    }
}

/// A name and what is held under it.
#[derive(Debug, PartialEq, Eq)]
pub struct Entry<K, V> {
    /// What carries the name.
    pub key: K,
    /// What is held under it.
    pub value: V,
}

impl<K: Named, V> Named for Entry<K, V> {
    open spec fn name(&self) -> Seq<char> {
        self.key.name()
    }

    fn text(&self) -> (text: &str) {
        self.key.text()
    }
}

/// The same names in the same order.
pub open spec fn same_names<K: Named, V>(a: Seq<Entry<K, V>>, b: Seq<Entry<K, V>>) -> bool {
    &&& a.len() == b.len()
    &&& forall|i: int| 0 <= i < a.len() ==> (#[trigger] a[i]).key.name() == b[i].key.name()
}

/// Values by name, each name once, read back in name order.
#[derive(Debug, PartialEq, Eq)]
pub struct NameMap<K: Named, V> {
    entries: Vec<Entry<K, V>>,
}

impl<K: Named, V> NameMap<K, V> {
    /// The entries, in the order in which they are read back.
    pub closed spec fn view(self) -> Seq<Entry<K, V>> {
        self.entries@
    }

    /// The entries are in name order, so no name is there twice.
    #[verifier::type_invariant]
    pub open spec fn well_formed(self) -> bool {
        in_name_order(self@)
    }

    /// Something is held under `name`.
    pub open spec fn has(self, name: Seq<char>) -> bool {
        names_one(self@, name)
    }

    /// What is held under `name`, where something is.
    pub open spec fn at(self, name: Seq<char>) -> V {
        self@[index_named(self@, name)].value
    }

    /// The map of these entries.
    pub fn from_ordered(entries: Vec<Entry<K, V>>) -> (map: Self)
        requires
            in_name_order(entries@),
        ensures
            map@ == entries@,
            map.well_formed(),
    {
        NameMap { entries }
    }

    /// What is held under `name`.
    pub fn get(&self, name: &str) -> (value: Option<&V>)
        ensures
            match value {
                Some(value) => self.has(name@) && *value == self.at(name@),
                None => !self.has(name@),
            },
    {
        proof {
            use_type_invariant(self);
        }
        match search(&self.entries, name) {
            Ok(i) => {
                proof {
                    lemma_held_at(*self, i as int);
                }
                Some(&self.entries[i].value)
            },
            Err(_) => None,
        }
    }

    /// The entries, in name order.
    pub fn entries(&self) -> (entries: &Vec<Entry<K, V>>)
        ensures
            entries@ == self@,
            in_name_order(entries@),
    {
        proof {
            use_type_invariant(self);
        }
        &self.entries
    }

    /// How many names there are.
    pub fn len(&self) -> (len: usize)
        ensures
            len == self@.len(),
    {
        self.entries.len()
    }

    /// Whether there is no name.
    pub fn is_empty(&self) -> (empty: bool)
        ensures
            empty == (self@.len() == 0),
            empty == (forall|name: Seq<char>| !self.has(name)),
    {
        proof {
            if self@.len() > 0 {
                assert(self.has(self@[0].name()));
            }
        }
        self.entries.len() == 0
    }
}

impl<K: Twin, V: Clone> Clone for NameMap<K, V> {
    fn clone(&self) -> (copy: Self)
        ensures
            same_names(self@, copy@),
            forall|i: int|
                0 <= i < self@.len() ==> cloned((#[trigger] self@[i]).value, copy@[i].value),
    {
        proof {
            use_type_invariant(self);
        }
        let mut entries: Vec<Entry<K, V>> = Vec::new();
        let mut i: usize = 0;
        while i < self.entries.len()
            invariant
                i <= self.entries.len(),
                entries.len() == i,
                forall|j: int|
                    0 <= j < i ==> (#[trigger] self.entries[j]).key.name()
                        == entries[j].key.name() && cloned(
                        self.entries[j].value,
                        entries[j].value,
                    ),
            decreases self.entries.len() - i,
        {
            let key: K = self.entries[i].key.twin();
            let value: V = self.entries[i].value.clone();
            entries.push(Entry { key, value });
            i = i + 1;
        }
        proof {
            assert forall|a: int, b: int| 0 <= a < b < entries.len() implies name_before(
                (#[trigger] entries@[a]).name(),
                (#[trigger] entries@[b]).name(),
            ) by {
                assert(self.entries@[a].key.name() == entries@[a].key.name());
                assert(self.entries@[b].key.name() == entries@[b].key.name());
                assert(name_before(self.entries@[a].name(), self.entries@[b].name()));
            }
        }
        NameMap { entries }
    }
}

/// What an entry holds is what its name leads to.
pub proof fn lemma_held_at<K: Named, V>(map: NameMap<K, V>, i: int)
    requires
        map.well_formed(),
        0 <= i < map@.len(),
    ensures
        map.has(map@[i].name()),
        map.at(map@[i].name()) == map@[i].value,
{
    lemma_one_index(map@, i, index_named(map@, map@[i].name()));
}

/// The same names are always read back in the same order.
pub proof fn law_one_order<T: Named, U: Named>(a: Seq<T>, b: Seq<U>)
    requires
        in_name_order(a),
        in_name_order(b),
        forall|name: Seq<char>| #[trigger] names_one(a, name) <==> names_one(b, name),
    ensures
        a.len() == b.len(),
        forall|i: int| 0 <= i < a.len() ==> (#[trigger] a[i]).name() == b[i].name(),
    decreases a.len(),
{
    if a.len() == 0 {
        if b.len() > 0 {
            assert(b[0].name() == b[0].name());
            assert(names_one(b, b[0].name()));
            assert(!names_one(a, b[0].name()));
        }
    } else {
        let last = a.last().name();
        assert(a[a.len() - 1].name() == last);
        assert(names_one(a, last));
        assert(names_one(b, last));
        let i = index_named(b, last);
        let end = b.last().name();
        assert(b[b.len() - 1].name() == end);
        assert(names_one(b, end));
        assert(names_one(a, end));
        let j = index_named(a, end);
        assert(last == end) by {
            if i < b.len() - 1 && j < a.len() - 1 {
                assert(name_before(b[i].name(), b[b.len() - 1].name()));
                assert(name_before(a[j].name(), a[a.len() - 1].name()));
                law_names_transitive(last, end, last);
                law_names_irreflexive(last);
            }
        }
        let (x, y) = (a.drop_last(), b.drop_last());
        assert forall|m: int, n: int| 0 <= m < n < x.len() implies name_before(
            (#[trigger] x[m]).name(),
            (#[trigger] x[n]).name(),
        ) by {
            assert(name_before(a[m].name(), a[n].name()));
        }
        assert forall|m: int, n: int| 0 <= m < n < y.len() implies name_before(
            (#[trigger] y[m]).name(),
            (#[trigger] y[n]).name(),
        ) by {
            assert(name_before(b[m].name(), b[n].name()));
        }
        assert forall|name: Seq<char>| #[trigger] names_one(x, name) <==> names_one(y, name) by {
            lemma_without_last(a, name);
            lemma_without_last(b, name);
            assert(names_one(a, name) <==> names_one(b, name));
        }
        law_one_order(x, y);
        assert forall|m: int| 0 <= m < a.len() implies (#[trigger] a[m]).name() == b[m].name() by {
            if m < x.len() {
                assert(x[m].name() == y[m].name());
            }
        }
    }
}

/// The names among all items but the last.
pub proof fn lemma_without_last<T: Named>(items: Seq<T>, name: Seq<char>)
    requires
        in_name_order(items),
        items.len() > 0,
    ensures
        names_one(items.drop_last(), name) <==> names_one(items, name) && name
            != items.last().name(),
{
    let rest = items.drop_last();
    if names_one(rest, name) {
        let i = index_named(rest, name);
        assert(items[i] == rest[i]);
        assert(name_before(items[i].name(), items[items.len() - 1].name()));
        law_names_irreflexive(name);
    }
    if names_one(items, name) && name != items.last().name() {
        let i = index_named(items, name);
        assert(rest[i] == items[i]);
    }
}

proof fn lemma_bytes_first_difference(a: Seq<u8>, b: Seq<u8>, k: int)
    requires
        0 <= k <= a.len(),
        k < b.len(),
        a.take(k) == b.take(k),
        k == a.len() || a[k] < b[k],
    ensures
        bytes_before(a, b),
        !bytes_before(b, a),
    decreases k,
{
    if k > 0 {
        assert(a[0] == a.take(k)[0] && b[0] == b.take(k)[0]);
        let (x, y) = (a.drop_first(), b.drop_first());
        assert(x.take(k - 1) =~= a.take(k).drop_first());
        assert(y.take(k - 1) =~= b.take(k).drop_first());
        lemma_bytes_first_difference(x, y, k - 1);
    }
}

/// The first byte in which two names differ decides: the lesser byte comes
/// first, and a name comes before every longer one that starts with it.
pub proof fn law_first_difference_decides(a: Seq<char>, b: Seq<char>, k: int)
    requires
        0 <= k <= encode_utf8(a).len(),
        k < encode_utf8(b).len(),
        encode_utf8(a).take(k) == encode_utf8(b).take(k),
        k == encode_utf8(a).len() || encode_utf8(a)[k] < encode_utf8(b)[k],
    ensures
        name_before(a, b),
        !name_before(b, a),
{
    lemma_bytes_first_difference(encode_utf8(a), encode_utf8(b), k);
}

/// A map reads back in name order, and what it reads back under a name is what
/// the name leads to.
pub proof fn law_entries_ascend<K: Named, V>(map: NameMap<K, V>, i: int, j: int)
    requires
        map.well_formed(),
        0 <= i < map@.len(),
        0 <= j < map@.len(),
    ensures
        i < j ==> name_before(map@[i].key.name(), map@[j].key.name()),
        map.has(map@[i].key.name()),
        map.at(map@[i].key.name()) == map@[i].value,
{
    lemma_held_at(map, i);
    if i < j {
        assert(name_before(map@[i].name(), map@[j].name()));
    }
}

/// A map has a name only where an entry carries it.
pub proof fn law_name_is_carried<K: Named, V>(map: NameMap<K, V>, name: Seq<char>)
    requires
        map.has(name),
    ensures
        exists|i: int| 0 <= i < map@.len() && (#[trigger] map@[i]).key.name() == name,
{
    let i = index_named(map@, name);
    assert(map@[i].key.name() == name);
}

/// A list names what one of its items goes by, and nothing else.
pub proof fn law_list_names_its_items<T: Named>(items: Seq<T>, name: Seq<char>)
    ensures
        names_one(items, name) <==> exists|i: int|
            0 <= i < items.len() && (#[trigger] items[i]).name() == name,
{
}

/// Lists with the same names have them at the same places.
pub proof fn law_same_names_stand_alike<K: Named, V>(
    a: Seq<Entry<K, V>>,
    b: Seq<Entry<K, V>>,
    i: int,
)
    requires
        same_names(a, b),
    ensures
        a.len() == b.len(),
        0 <= i < a.len() ==> a[i].key.name() == b[i].key.name(),
{
}

} // verus!
