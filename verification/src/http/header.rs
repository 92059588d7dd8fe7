//! The header map: pairs of key and value, kept in the order in which they
//! were added, with one pair for each key.

use vstd::hash_map::StringHashMap;
use vstd::prelude::*;

use super::text::{ends_with, joined, occurs, occurs_at};

verus! {

/// The mathematical model of a header map: its pairs of key and value, in
/// the order in which they are serialized.
pub type Entries = Seq<(Seq<char>, Seq<char>)>;

/// What ends a line on the wire.
pub open spec fn crlf() -> Seq<char> {
    "\r\n"@
}

/// What stands between key and value in a header line.
pub open spec fn colon_space() -> Seq<char> {
    ": "@
}

/// The line that carries one header.
pub open spec fn line(key: Seq<char>, value: Seq<char>) -> Seq<char> {
    key + colon_space() + value
}

/// The lines of all pairs, in order.
pub open spec fn lines(entries: Entries) -> Seq<Seq<char>> {
    entries.map_values(|e: (Seq<char>, Seq<char>)| line(e.0, e.1))
}

/// The wire form of a header map: its lines with CRLF between them, and
/// none after the last.
pub open spec fn wire(entries: Entries) -> Seq<char> {
    joined(lines(entries), crlf())
}

/// Some pair has the key `key`.
pub open spec fn has_key(entries: Entries, key: Seq<char>) -> bool {
    exists|i: int| 0 <= i < entries.len() && entries[i].0 == key
}

/// The pair of `key` and `value` is among the entries.
pub open spec fn holds(entries: Entries, key: Seq<char>, value: Seq<char>) -> bool {
    exists|i: int| 0 <= i < entries.len() && entries[i] == (key, value)
}

/// No key stands in two pairs.
pub open spec fn distinct_keys(entries: Entries) -> bool {
    forall|i: int, j: int| 0 <= i < j < entries.len() ==> entries[i].0 != entries[j].0
}

/// The value under `key`: that of the latest pair with this key.
pub open spec fn value_of(entries: Entries, key: Seq<char>) -> Option<Seq<char>>
    decreases entries.len(),
{
    if entries.len() == 0 {
        None
    } else if entries.last().0 == key {
        Some(entries.last().1)
    } else {
        value_of(entries.drop_last(), key)
    }
}

/// The entries without the pairs of `key`, the others in their order.
pub open spec fn without(entries: Entries, key: Seq<char>) -> Entries
    decreases entries.len(),
{
    if entries.len() == 0 {
        entries
    } else if entries.last().0 == key {
        without(entries.drop_last(), key)
    } else {
        without(entries.drop_last(), key).push(entries.last())
    }
}

/// The entries after `key` was given `value`: an earlier pair of `key`
/// leaves, and the new pair comes last.
pub open spec fn put(entries: Entries, key: Seq<char>, value: Seq<char>) -> Entries {
    without(entries, key).push((key, value))
}

/// The lookup structure of a header map: each key with its value.
pub open spec fn mapping(entries: Entries) -> Map<Seq<char>, Seq<char>> {
    Map::new(
        |key: Seq<char>| value_of(entries, key) is Some,
        |key: Seq<char>| value_of(entries, key).unwrap(),
    )
}

/// A key has a value exactly where some pair has the key.
pub proof fn lemma_value_of_has_key(entries: Entries, key: Seq<char>)
    ensures
        value_of(entries, key) is Some <==> has_key(entries, key),
    decreases entries.len(),
{
    if entries.len() > 0 {
        let front = entries.drop_last();
        let last = entries.len() - 1;
        lemma_value_of_has_key(front, key);
        if entries.last().0 == key {
            assert(entries[last].0 == key);
        } else {
            if has_key(front, key) {
                let i = choose|i: int| 0 <= i < front.len() && front[i].0 == key;
                assert(entries[i].0 == key);
            }
            if has_key(entries, key) {
                let i = choose|i: int| 0 <= i < entries.len() && entries[i].0 == key;
                assert(front[i].0 == key);
            }
        }
    }
}

/// Where keys are distinct, each pair is the one its key is looked up to.
pub proof fn lemma_value_of_at(entries: Entries, i: int)
    requires
        distinct_keys(entries),
        0 <= i < entries.len(),
    ensures
        value_of(entries, entries[i].0) == Some(entries[i].1),
    decreases entries.len(),
{
    if i < entries.len() - 1 {
        let front = entries.drop_last();
        assert(front[i] == entries[i]);
        lemma_value_of_at(front, i);
    }
}

/// Leaving out a key leaves every other key with its value.
pub proof fn lemma_without_keeps_others(entries: Entries, key: Seq<char>, other: Seq<char>)
    requires
        other != key,
    ensures
        value_of(without(entries, key), other) == value_of(entries, other),
    decreases entries.len(),
{
    if entries.len() > 0 {
        let front = entries.drop_last();
        lemma_without_keeps_others(front, key, other);
        if entries.last().0 != key {
            assert(without(entries, key).drop_last() =~= without(front, key));
        }
    }
}

/// Where no pair has the key, leaving it out changes nothing.
pub proof fn lemma_without_absent(entries: Entries, key: Seq<char>)
    requires
        !has_key(entries, key),
    ensures
        without(entries, key) == entries,
    decreases entries.len(),
{
    if entries.len() > 0 {
        let front = entries.drop_last();
        let last = entries.len() - 1;
        assert(entries[last].0 != key);
        assert forall|i: int| 0 <= i < front.len() implies front[i].0 != key by {
            assert(entries[i].0 != key);
        }
        lemma_without_absent(front, key);
        assert(front.push(entries.last()) =~= entries);
    }
}

/// Where keys are distinct and pair `i` has the key, leaving the key out
/// removes that pair and no other.
pub proof fn lemma_without_at(entries: Entries, key: Seq<char>, i: int)
    requires
        distinct_keys(entries),
        0 <= i < entries.len(),
        entries[i].0 == key,
    ensures
        without(entries, key) == entries.remove(i),
    decreases entries.len(),
{
    let front = entries.drop_last();
    let last = entries.len() - 1;
    if i == last {
        assert forall|j: int| 0 <= j < front.len() implies front[j].0 != key by {
            assert(entries[j].0 != entries[last].0);
        }
        lemma_without_absent(front, key);
        assert(entries.remove(i) =~= front);
    } else {
        assert(entries[i].0 != entries[last].0);
        assert(front[i] == entries[i]);
        lemma_without_at(front, key, i);
        assert(front.remove(i).push(entries.last()) =~= entries.remove(i));
    }
}

/// Giving a key a value keeps the keys distinct.
pub proof fn lemma_put_distinct(entries: Entries, key: Seq<char>, value: Seq<char>)
    requires
        distinct_keys(entries),
    ensures
        distinct_keys(put(entries, key, value)),
{
    let rest = without(entries, key);
    if has_key(entries, key) {
        let i = choose|i: int| 0 <= i < entries.len() && entries[i].0 == key;
        lemma_without_at(entries, key, i);
        assert forall|j: int| 0 <= j < rest.len() implies rest[j].0 != key by {
            if j < i {
                assert(rest[j] == entries[j]);
            } else {
                assert(rest[j] == entries[j + 1]);
            }
        }
        assert(distinct_keys(rest)) by {
            assert forall|a: int, b: int| 0 <= a < b < rest.len() implies rest[a].0 != rest[b].0 by {
                let x = if a < i { a } else { a + 1 };
                let y = if b < i { b } else { b + 1 };
                assert(rest[a] == entries[x]);
                assert(rest[b] == entries[y]);
            }
        }
    } else {
        lemma_without_absent(entries, key);
    }
}

/// What a key was given is what it is looked up to, and every other key is
/// looked up to what it was before.
pub proof fn lemma_put_value_of(entries: Entries, key: Seq<char>, value: Seq<char>, other: Seq<char>)
    ensures
        value_of(put(entries, key, value), other) == if other == key {
            Some(value)
        } else {
            value_of(entries, other)
        },
{
    let after = put(entries, key, value);
    assert(after.last() == (key, value));
    if other != key {
        assert(after.drop_last() =~= without(entries, key));
        lemma_without_keeps_others(entries, key, other);
    }
}

/// An occurrence in a text is an occurrence in every extension of it.
proof fn lemma_occurs_at_extends(s: Seq<char>, more: Seq<char>, pat: Seq<char>, i: int)
    requires
        occurs_at(s, pat, i),
    ensures
        occurs_at(s + more, pat, i),
{
    assert((s + more).subrange(i, i + pat.len()) =~= s.subrange(i, i + pat.len()));
}

/// The joined text ends with its last piece.
proof fn lemma_joined_ends_with_last(parts: Seq<Seq<char>>, sep: Seq<char>)
    requires
        parts.len() > 0,
    ensures
        ends_with(joined(parts, sep), parts.last()),
{
    let whole = joined(parts, sep);
    let tail = parts.last();
    assert(whole.subrange(whole.len() - tail.len(), whole.len() as int) =~= tail);
}

/// Each piece stands in the joined text.
proof fn lemma_joined_holds_each(parts: Seq<Seq<char>>, sep: Seq<char>, i: int)
    requires
        0 <= i < parts.len(),
    ensures
        occurs(joined(parts, sep), parts[i]),
    decreases parts.len(),
{
    let whole = joined(parts, sep);
    if i == parts.len() - 1 {
        lemma_joined_ends_with_last(parts, sep);
        assert(occurs_at(whole, parts[i], whole.len() - parts[i].len()));
    } else {
        let front = parts.drop_last();
        lemma_joined_holds_each(front, sep, i);
        let at = choose|at: int| occurs_at(joined(front, sep), front[i], at);
        lemma_occurs_at_extends(joined(front, sep), sep + parts.last(), parts[i], at);
        assert(joined(front, sep) + (sep + parts.last()) =~= whole);
        assert(occurs_at(whole, parts[i], at));
    }
}

/// A pair that a header map holds is read back under its key, and its line
/// stands in the serialized text.
pub proof fn lemma_held_pair_is_served(entries: Entries, key: Seq<char>, value: Seq<char>)
    requires
        distinct_keys(entries),
        holds(entries, key, value),
    ensures
        value_of(entries, key) == Some(value),
        occurs(wire(entries), line(key, value)),
{
    let i = choose|i: int| 0 <= i < entries.len() && entries[i] == (key, value);
    lemma_value_of_at(entries, i);
    lemma_joined_holds_each(lines(entries), crlf(), i);
}

/// A pair that was added is held, whatever was there before: it is read
/// back under its key, and its line ends the serialized text.
pub proof fn lemma_added_pair_is_served(entries: Entries, key: Seq<char>, value: Seq<char>)
    ensures
        holds(put(entries, key, value), key, value),
        value_of(put(entries, key, value), key) == Some(value),
        ends_with(wire(put(entries, key, value)), line(key, value)),
        occurs(wire(put(entries, key, value)), line(key, value)),
{
    let after = put(entries, key, value);
    let last = after.len() - 1;
    assert(after[last] == (key, value));
    lemma_put_value_of(entries, key, value, key);
    lemma_joined_ends_with_last(lines(after), crlf());
    let text = wire(after);
    assert(occurs_at(text, line(key, value), text.len() - line(key, value).len()));
}

/// A pair that is held stays held when another key is given a value.
pub proof fn lemma_held_pair_outlives_other_keys(
    entries: Entries,
    key: Seq<char>,
    value: Seq<char>,
    other: Seq<char>,
    other_value: Seq<char>,
)
    requires
        distinct_keys(entries),
        holds(entries, key, value),
        other != key,
    ensures
        distinct_keys(put(entries, other, other_value)),
        holds(put(entries, other, other_value), key, value),
{
    let after = put(entries, other, other_value);
    let rest = without(entries, other);
    let i = choose|i: int| 0 <= i < entries.len() && entries[i] == (key, value);
    lemma_put_distinct(entries, other, other_value);
    if has_key(entries, other) {
        let gone = choose|j: int| 0 <= j < entries.len() && entries[j].0 == other;
        lemma_without_at(entries, other, gone);
        let at = if i < gone { i } else { i - 1 };
        assert(rest[at] == entries[i]);
        assert(after[at] == (key, value));
    } else {
        lemma_without_absent(entries, other);
        assert(after[i] == (key, value));
    }
}

/// An empty header map serializes to the empty text, and its lookup
/// structure holds no key.
pub proof fn lemma_empty_header(entries: Entries)
    requires
        entries.len() == 0,
    ensures
        wire(entries) == Seq::<char>::empty(),
        mapping(entries) == Map::<Seq<char>, Seq<char>>::empty(),
{
    assert(mapping(entries) =~= Map::<Seq<char>, Seq<char>>::empty());
}

/// An ordered store of headers with their HTTP serialization.
///
/// Each key has one value, the last it was given. The pairs are serialized
/// in the order in which their values were given.
pub struct Header {
    entries: Vec<(String, String)>,
    index: StringHashMap<String>,
}

impl View for Header {
    type V = Entries;

    closed spec fn view(&self) -> Entries {
        self.entries@.map_values(|e: (String, String)| (e.0@, e.1@))
    }
}

/// The lookup structure `index` serves the pairs of `entries`.
spec fn serves(index: Map<Seq<char>, String>, entries: Entries) -> bool {
    &&& forall|key: Seq<char>| #[trigger] index.contains_key(key) <==> value_of(entries, key) is Some
    &&& forall|key: Seq<char>| #[trigger]
        index.contains_key(key) ==> index[key]@ == value_of(entries, key).unwrap()
}

/// The position of the pair with the key of `key`.
fn position(entries: &Vec<(String, String)>, key: &String) -> (at: usize)
    requires
        exists|i: int| 0 <= i < entries.len() && entries[i].0@ == key@,
    ensures
        at < entries.len(),
        entries[at as int].0@ == key@,
{
    let mut at: usize = 0;
    while entries[at].0 != *key
        invariant
            at < entries.len(),
            exists|i: int| at <= i < entries.len() && entries[i].0@ == key@,
        decreases entries.len() - at,
    {
        at += 1;
    }
    at
}

impl Header {
    #[verifier::type_invariant]
    spec fn well_formed(self) -> bool {
        distinct_keys(self@) && serves(self.index@, self@)
    }

    /// A header map without entries.
    pub fn new() -> (header: Self)
        ensures
            header@ == Entries::empty(),
    {
        let header = Header { entries: Vec::new(), index: StringHashMap::new() };
        assert(header@ =~= Entries::empty());
        header
    }

    /// Give `key` the value `value`. An earlier pair of `key` leaves, and
    /// the new pair comes last.
    pub fn add(self, key: &str, value: &str) -> (header: Self)
        ensures
            header@ == put(self@, key@, value@),
            distinct_keys(header@),
    {
        proof {
            use_type_invariant(&self);
        }
        let ghost before = self@;
        let Header { mut entries, mut index } = self;
        let owned_key = key.to_owned();
        proof {
            lemma_value_of_has_key(before, key@);
        }
        if index.contains_key(key) {
            let at = position(&entries, &owned_key);
            entries.remove(at);
            proof {
                lemma_without_at(before, key@, at as int);
            }
        } else {
            proof {
                lemma_without_absent(before, key@);
            }
        }
        entries.push((owned_key, value.to_owned()));
        index.insert(key.to_owned(), value.to_owned());
        proof {
            let after = entries@.map_values(|e: (String, String)| (e.0@, e.1@));
            assert(after =~= put(before, key@, value@));
            lemma_put_distinct(before, key@, value@);
            assert forall|other: Seq<char>|
                index@.contains_key(other) <==> value_of(after, other) is Some by {
                lemma_put_value_of(before, key@, value@, other);
            }
            assert forall|other: Seq<char>| #[trigger]
                index@.contains_key(other) implies index@[other]@ == value_of(
                after,
                other,
            ).unwrap() by {
                lemma_put_value_of(before, key@, value@, other);
            }
        }
        let header = Header { entries, index };
        header
    }

    /// Whether `key` has a value.
    pub fn contains_key(&self, key: &str) -> (found: bool)
        ensures
            found == (value_of(self@, key@) is Some),
    {
        proof {
            use_type_invariant(self);
        }
        self.index.contains_key(key)
    }

    /// The value of `key`, or `key` itself where it has none. To tell the
    /// two apart, ask `contains_key`.
    pub fn get(self, key: &str) -> (value: String)
        ensures
            value@ == match value_of(self@, key@) {
                Some(found) => found,
                None => key@,
            },
    {
        proof {
            use_type_invariant(&self);
        }
        match self.index.get(key) {
            Some(found) => found.clone(),
            None => key.to_owned(),
        }
    }

    /// The pairs of key and value, in the order in which they are
    /// serialized.
    pub fn pairs(&self) -> (pairs: Vec<(String, String)>)
        ensures
            pairs@.map_values(|e: (String, String)| (e.0@, e.1@)) == self@,
    {
        let mut pairs: Vec<(String, String)> = Vec::new();
        let n = self.entries.len();
        let mut i: usize = 0;
        while i < n
            invariant
                i <= n,
                n == self.entries.len(),
                pairs@.map_values(|e: (String, String)| (e.0@, e.1@)) == self@.take(i as int),
            decreases n - i,
        {
            let ghost before = pairs@.map_values(|e: (String, String)| (e.0@, e.1@));
            let key = self.entries[i].0.clone();
            let value = self.entries[i].1.clone();
            pairs.push((key, value));
            assert(pairs@.map_values(|e: (String, String)| (e.0@, e.1@)) =~= before.push(
                self@[i as int],
            ));
            assert(self@.take(i + 1) =~= self@.take(i as int).push(self@[i as int]));
            i += 1;
        }
        assert(self@.take(n as int) =~= self@);
        pairs
    }

    /// The lookup structure: each key with its value. It is looked up in
    /// and counted; to walk the headers, ask for `pairs`.
    pub fn all(self) -> (map: StringHashMap<String>)
        ensures
            map@.dom() == mapping(self@).dom(),
            forall|key: Seq<char>| #[trigger]
                map@.contains_key(key) ==> map@[key]@ == mapping(self@)[key],
    {
        proof {
            use_type_invariant(&self);
            assert(self.index@.dom() =~= mapping(self@).dom());
        }
        self.index
    }

    /// The wire form: one line `key: value` for each pair, with CRLF
    /// between the lines and none after the last.
    pub fn as_str(&mut self) -> (text: String)
        ensures
            text@ == wire(old(self)@),
            *final(self) == *old(self),
    {
        let mut text = String::new();
        let n = self.entries.len();
        let ghost entries = self@;
        let mut i: usize = 0;
        assert(entries.take(0) =~= Entries::empty());
        while i < n
            invariant
                i <= n,
                n == self.entries.len(),
                entries == self@,
                *self == *old(self),
                text@ == wire(entries.take(i as int)),
            decreases n - i,
        {
            if i > 0 {
                text.append("\r\n");
            }
            text.append(self.entries[i].0.as_str());
            text.append(": ");
            text.append(self.entries[i].1.as_str());
            proof {
                let now = entries.take(i + 1);
                assert(lines(now).drop_last() =~= lines(entries.take(i as int)));
                assert(lines(now).last() == line(entries[i as int].0, entries[i as int].1));
                assert(text@ =~= wire(now));
            }
            i += 1;
        }
        assert(entries.take(n as int) =~= entries);
        text
    }
}

} // verus!
