//! The table of named keys that an account or a stored contract carries:
//! an ordered map from names to keys, kept sorted by name so that its wire
//! image is canonical.

use crate::bytesrepr::{
    lemma_string_round_trip, lemma_u32_round_trip, string_decoding, string_encodable,
    string_encoding, u32_le, Error, FromBytes, ToBytes,
};
use crate::key::{key_decoding, key_encoding, lemma_key_round_trip, Key, KeyView};
use crate::order::{
    bytes_lt, bytes_relation, compare_bytes, lemma_bytes_lt_irreflexive, lemma_bytes_lt_total,
    lemma_bytes_lt_transitive, Relation,
};
use vstd::prelude::*;
use vstd::utf8::encode_utf8;

verus! {

/// The order of names in a table: that of their UTF-8 forms, byte by byte.
pub open spec fn name_lt(x: Seq<char>, y: Seq<char>) -> bool {
    bytes_lt(encode_utf8(x), encode_utf8(y))
}

/// Of two names at most one comes before the other, and a name does not
/// come before itself.
pub proof fn lemma_name_lt_asymmetric(x: Seq<char>, y: Seq<char>)
    ensures
        !(name_lt(x, y) && name_lt(y, x)),
        !name_lt(x, x),
{
    let a = encode_utf8(x);
    let b = encode_utf8(y);
    lemma_bytes_lt_irreflexive(a, 0);
    if bytes_lt(a, b) && bytes_lt(b, a) {
        lemma_bytes_lt_transitive(a, b, a, 0);
    }
}

/// The order of names is transitive.
pub proof fn lemma_name_lt_transitive(x: Seq<char>, y: Seq<char>, z: Seq<char>)
    requires
        name_lt(x, y),
        name_lt(y, z),
    ensures
        name_lt(x, z),
{
    lemma_bytes_lt_transitive(encode_utf8(x), encode_utf8(y), encode_utf8(z), 0);
}

/// Two names of which neither comes before the other are the same name.
pub proof fn lemma_name_lt_total(x: Seq<char>, y: Seq<char>)
    requires
        !name_lt(x, y),
        !name_lt(y, x),
    ensures
        x == y,
{
    lemma_bytes_lt_total(encode_utf8(x), encode_utf8(y), 0);
    vstd::utf8::encode_utf8_decode_utf8(x);
    vstd::utf8::encode_utf8_decode_utf8(y);
}

/// Of two different names one comes before the other.
pub proof fn lemma_name_lt_total_or(x: Seq<char>, y: Seq<char>)
    ensures
        x == y || name_lt(x, y) || name_lt(y, x),
{
    if !name_lt(x, y) && !name_lt(y, x) {
        lemma_name_lt_total(x, y);
    }
}

/// How one name stands to another in the order of the table.
pub open spec fn name_relation(x: Seq<char>, y: Seq<char>) -> Relation {
    bytes_relation(encode_utf8(x), encode_utf8(y))
}

/// Compares two names in the order of the table.
pub fn compare_names(x: &str, y: &str) -> (r: Relation)
    ensures
        r == name_relation(x@, y@),
        r == Relation::Before <==> name_lt(x@, y@),
        r == Relation::After <==> name_lt(y@, x@),
        r == Relation::Same <==> x@ == y@,
{
    proof {
        lemma_name_lt_asymmetric(x@, y@);
        vstd::utf8::encode_utf8_decode_utf8(x@);
        vstd::utf8::encode_utf8_decode_utf8(y@);
    }
    compare_bytes(x.as_bytes(), y.as_bytes())
}

/// An entry of a table as contracts see it: a name and the key it names.
pub type EntryView = (Seq<char>, KeyView);

/// Whether the entries stand in strictly ascending order of their names.
pub open spec fn sorted(es: Seq<EntryView>) -> bool {
    forall|i: int, j: int| 0 <= i < j < es.len() ==> name_lt(#[trigger] es[i].0, #[trigger] es[j].0)
}

/// The map that holds `acc` and then each entry of `es` in turn, a later
/// entry replacing an earlier one of the same name.
pub open spec fn insert_all(acc: Map<Seq<char>, KeyView>, es: Seq<EntryView>) -> Map<
    Seq<char>,
    KeyView,
>
    decreases es.len(),
{
    if es.len() == 0 {
        acc
    } else {
        insert_all(acc, es.drop_last()).insert(es.last().0, es.last().1)
    }
}

/// The map a sequence of entries stands for.
pub open spec fn entries_to_map(es: Seq<EntryView>) -> Map<Seq<char>, KeyView> {
    insert_all(Map::empty(), es)
}

/// Inserting the first entry into the start map and then the others gives
/// the same map as inserting them all.
pub proof fn lemma_insert_all_front(acc: Map<Seq<char>, KeyView>, es: Seq<EntryView>)
    requires
        es.len() > 0,
    ensures
        insert_all(acc, es) == insert_all(acc.insert(es[0].0, es[0].1), es.drop_first()),
    decreases es.len(),
{
    if es.len() == 1 {
        assert(es.drop_last() =~= Seq::<EntryView>::empty());
        assert(es.drop_first() =~= Seq::<EntryView>::empty());
        assert(insert_all(acc, es.drop_last()) == acc);
    } else {
        lemma_insert_all_front(acc, es.drop_last());
        assert(es.drop_last().drop_first() =~= es.drop_first().drop_last());
        assert(es.drop_first().last() == es.last());
        assert(es.drop_last()[0] == es[0]);
    }
}

/// What the map of a sorted sequence holds: exactly the names of the
/// sequence, each with the key that stands beside it.
pub proof fn lemma_sorted_map(es: Seq<EntryView>)
    requires
        sorted(es),
    ensures
        forall|i: int|
            0 <= i < es.len() ==> entries_to_map(es).contains_key(#[trigger] es[i].0)
                && entries_to_map(es)[es[i].0] == es[i].1,
        forall|n: Seq<char>| #[trigger]
            entries_to_map(es).contains_key(n) ==> exists|i: int|
                0 <= i < es.len() && #[trigger] es[i].0 == n,
        entries_to_map(es).dom().finite(),
        entries_to_map(es).dom().len() == es.len(),
    decreases es.len(),
{
    if es.len() > 0 {
        let front = es.drop_last();
        let last = es.last();
        assert forall|i: int, j: int| 0 <= i < j < front.len() implies name_lt(
            #[trigger] front[i].0,
            #[trigger] front[j].0,
        ) by {
            assert(front[i] == es[i] && front[j] == es[j]);
        }
        lemma_sorted_map(front);
        let m = entries_to_map(front);
        assert(entries_to_map(es) == m.insert(last.0, last.1));
        assert(!m.contains_key(last.0)) by {
            if m.contains_key(last.0) {
                let i = choose|i: int| 0 <= i < front.len() && #[trigger] front[i].0 == last.0;
                assert(front[i] == es[i]);
                assert(name_lt(es[i].0, es[es.len() - 1].0));
                lemma_name_lt_asymmetric(last.0, last.0);
            }
        }
        assert forall|i: int| 0 <= i < es.len() implies entries_to_map(es).contains_key(
            #[trigger] es[i].0,
        ) && entries_to_map(es)[es[i].0] == es[i].1 by {
            if i < es.len() - 1 {
                assert(front[i] == es[i]);
                assert(m.contains_key(front[i].0));
            }
        }
        assert forall|n: Seq<char>| #[trigger]
            entries_to_map(es).contains_key(n) implies exists|i: int|
            0 <= i < es.len() && #[trigger] es[i].0 == n by {
            if n == last.0 {
                assert(es[es.len() - 1].0 == n);
            } else {
                assert(m.contains_key(n));
                let i = choose|i: int| 0 <= i < front.len() && #[trigger] front[i].0 == n;
                assert(es[i].0 == n);
            }
        }
    } else {
        assert(entries_to_map(es) == Map::<Seq<char>, KeyView>::empty());
    }
}

/// Every name of a sorted sequence stands before the last one, so dropping
/// the last entry removes exactly its name from the map.
pub proof fn lemma_sorted_drop_last(es: Seq<EntryView>)
    requires
        sorted(es),
        es.len() > 0,
    ensures
        sorted(es.drop_last()),
        entries_to_map(es.drop_last()) == entries_to_map(es).remove(es.last().0),
{
    let front = es.drop_last();
    assert forall|i: int, j: int| 0 <= i < j < front.len() implies name_lt(
        #[trigger] front[i].0,
        #[trigger] front[j].0,
    ) by {
        assert(front[i] == es[i] && front[j] == es[j]);
    }
    lemma_sorted_map(front);
    let m = entries_to_map(front);
    if m.contains_key(es.last().0) {
        let i = choose|i: int| 0 <= i < front.len() && #[trigger] front[i].0 == es.last().0;
        assert(front[i] == es[i]);
        assert(name_lt(es[i].0, es[es.len() - 1].0));
        lemma_name_lt_asymmetric(es.last().0, es.last().0);
    }
    assert(m =~= m.insert(es.last().0, es.last().1).remove(es.last().0));
}

/// A table has one wire order: two sorted sequences that stand for the same
/// map are the same sequence.
pub proof fn lemma_sorted_unique(a: Seq<EntryView>, b: Seq<EntryView>)
    requires
        sorted(a),
        sorted(b),
        entries_to_map(a) == entries_to_map(b),
    ensures
        a == b,
    decreases a.len(),
{
    lemma_sorted_map(a);
    lemma_sorted_map(b);
    if a.len() == 0 {
        assert(a =~= b);
    } else {
        let la = a.last();
        let lb = b.last();
        assert(a[a.len() - 1].0 == la.0);
        assert(b[b.len() - 1].0 == lb.0);
        assert(entries_to_map(b).contains_key(la.0));
        assert(entries_to_map(a).contains_key(lb.0));
        let j = choose|j: int| 0 <= j < b.len() && #[trigger] b[j].0 == la.0;
        let i = choose|i: int| 0 <= i < a.len() && #[trigger] a[i].0 == lb.0;
        if j < b.len() - 1 {
            assert(name_lt(b[j].0, b[b.len() - 1].0));
        }
        if i < a.len() - 1 {
            assert(name_lt(a[i].0, a[a.len() - 1].0));
        }
        lemma_name_lt_asymmetric(la.0, lb.0);
        assert(la.0 == lb.0);
        assert(la.1 == lb.1);
        lemma_sorted_drop_last(a);
        lemma_sorted_drop_last(b);
        lemma_sorted_unique(a.drop_last(), b.drop_last());
        assert(a =~= a.drop_last().push(la));
        assert(b =~= b.drop_last().push(lb));
    }
}

/// Replacing the key beside a name of a sorted sequence rebinds that name
/// in the map and changes nothing else.
pub proof fn lemma_same_names_same_map(before: Seq<EntryView>, after: Seq<EntryView>, i: int)
    requires
        sorted(before),
        0 <= i < before.len(),
        after == before.update(i, (before[i].0, after[i].1)),
    ensures
        sorted(after),
        entries_to_map(after) == entries_to_map(before).insert(before[i].0, after[i].1),
{
    assert forall|a: int, b: int| 0 <= a < b < after.len() implies name_lt(
        #[trigger] after[a].0,
        #[trigger] after[b].0,
    ) by {
        assert(after[a].0 == before[a].0 && after[b].0 == before[b].0);
    }
    lemma_sorted_map(before);
    lemma_sorted_map(after);
    let m = entries_to_map(before).insert(before[i].0, after[i].1);
    let m2 = entries_to_map(after);
    assert forall|n: Seq<char>| m.contains_key(n) <==> m2.contains_key(n) by {
        if m.contains_key(n) {
            if n == before[i].0 {
                assert(after[i].0 == n);
            } else {
                let j = choose|j: int| 0 <= j < before.len() && #[trigger] before[j].0 == n;
                assert(after[j].0 == n);
            }
        }
        if m2.contains_key(n) {
            let j = choose|j: int| 0 <= j < after.len() && #[trigger] after[j].0 == n;
            assert(before[j].0 == n);
        }
    }
    assert forall|n: Seq<char>| m.contains_key(n) implies m[n] == m2[n] by {
        if n == before[i].0 {
            assert(after[i].0 == n);
        } else {
            let j = choose|j: int| 0 <= j < before.len() && #[trigger] before[j].0 == n;
            assert(after[j].0 == n);
            assert(after[j] == before[j]);
        }
    }
    assert(m =~= m2);
}

/// Putting an entry between the names before it and the names after it
/// keeps a sequence sorted.
pub proof fn lemma_insert_keeps_sorted(before: Seq<EntryView>, i: int, e: EntryView)
    requires
        sorted(before),
        0 <= i <= before.len(),
        forall|j: int| 0 <= j < i ==> name_lt((#[trigger] before[j]).0, e.0),
        forall|j: int| i <= j < before.len() ==> name_lt(e.0, (#[trigger] before[j]).0),
    ensures
        sorted(before.insert(i, e)),
{
    let after = before.insert(i, e);
    assert forall|a: int, b: int| 0 <= a < b < after.len() implies name_lt(
        #[trigger] after[a].0,
        #[trigger] after[b].0,
    ) by {
        if a < i {
            assert(after[a] == before[a]);
        } else if a > i {
            assert(after[a] == before[a - 1]);
        }
        if b < i {
            assert(after[b] == before[b]);
        } else if b > i {
            assert(after[b] == before[b - 1]);
        }
    }
}

/// Putting an entry with a new name into a sorted sequence, at its place,
/// adds that binding to the map and changes nothing else.
pub proof fn lemma_inserted_map(before: Seq<EntryView>, i: int, e: EntryView)
    requires
        sorted(before),
        sorted(before.insert(i, e)),
        0 <= i <= before.len(),
    ensures
        entries_to_map(before.insert(i, e)) == entries_to_map(before).insert(e.0, e.1),
{
    let after = before.insert(i, e);
    lemma_sorted_map(before);
    lemma_sorted_map(after);
    let m = entries_to_map(before).insert(e.0, e.1);
    let m2 = entries_to_map(after);
    assert(after[i] == e);
    assert forall|n: Seq<char>| m.contains_key(n) <==> m2.contains_key(n) by {
        if m.contains_key(n) && n != e.0 {
            let j = choose|j: int| 0 <= j < before.len() && #[trigger] before[j].0 == n;
            if j < i {
                assert(after[j] == before[j]);
            } else {
                assert(after[j + 1] == before[j]);
            }
        }
        if m.contains_key(n) && n == e.0 {
            assert(after[i].0 == n);
        }
        if m2.contains_key(n) {
            let j = choose|j: int| 0 <= j < after.len() && #[trigger] after[j].0 == n;
            if j < i {
                assert(after[j] == before[j]);
            } else if j > i {
                assert(after[j] == before[j - 1]);
            }
        }
    }
    assert forall|n: Seq<char>| m.contains_key(n) implies m[n] == m2[n] by {
        if n == e.0 {
            assert(after[i].0 == n);
        } else {
            let j = choose|j: int| 0 <= j < before.len() && #[trigger] before[j].0 == n;
            if j < i {
                assert(after[j] == before[j]);
                assert(after[j].0 == n);
            } else {
                assert(after[j + 1] == before[j]);
                assert(after[j + 1].0 == n);
            }
        }
    }
    assert(m =~= m2);
}

/// The entries of a map in the order of their names.
pub open spec fn sorted_entries(m: Map<Seq<char>, KeyView>) -> Seq<EntryView> {
    choose|es: Seq<EntryView>| sorted(es) && entries_to_map(es) == m
}

/// Whether `x` is the last name of a set in the order of names.
pub open spec fn is_last_name(names: Set<Seq<char>>, x: Seq<char>) -> bool {
    &&& names.contains(x)
    &&& forall|y: Seq<char>| #[trigger] names.contains(y) ==> y == x || name_lt(y, x)
}

/// A finite set of names that is not empty has a last name.
pub proof fn lemma_last_name_exists(names: Set<Seq<char>>)
    requires
        names.finite(),
        names.len() > 0,
    ensures
        exists|x: Seq<char>| is_last_name(names, x),
    decreases names.len(),
{
    let a = names.choose();
    let others = names.remove(a);
    if others.len() == 0 {
        assert forall|y: Seq<char>| #[trigger] names.contains(y) implies y == a || name_lt(
            y,
            a,
        ) by {
            if y != a {
                assert(others.contains(y));
            }
        }
        assert(is_last_name(names, a));
    } else {
        lemma_last_name_exists(others);
        let m = choose|x: Seq<char>| is_last_name(others, x);
        lemma_name_lt_total_or(a, m);
        if name_lt(a, m) {
            assert forall|y: Seq<char>| #[trigger] names.contains(y) implies y == m || name_lt(
                y,
                m,
            ) by {
                if y != a {
                    assert(others.contains(y));
                }
            }
            assert(is_last_name(names, m));
        } else {
            assert(name_lt(m, a));
            assert forall|y: Seq<char>| #[trigger] names.contains(y) implies y == a || name_lt(
                y,
                a,
            ) by {
                if y != a {
                    assert(others.contains(y));
                    if y != m {
                        lemma_name_lt_transitive(y, m, a);
                    }
                }
            }
            assert(is_last_name(names, a));
        }
    }
}

/// Every finite map is the map of one sorted sequence of entries, so the
/// sorted entries of a finite map are well defined.
pub proof fn lemma_sorted_entries(m: Map<Seq<char>, KeyView>)
    requires
        m.dom().finite(),
    ensures
        sorted(sorted_entries(m)),
        entries_to_map(sorted_entries(m)) == m,
        sorted_entries(m).len() == m.dom().len(),
        forall|i: int|
            0 <= i < sorted_entries(m).len() ==> m.contains_key(
                (#[trigger] sorted_entries(m)[i]).0,
            ) && m[sorted_entries(m)[i].0] == sorted_entries(m)[i].1,
    decreases m.dom().len(),
{
    if m.dom().len() == 0 {
        let none = Seq::<EntryView>::empty();
        assert(m =~= Map::<Seq<char>, KeyView>::empty());
        assert(sorted(none) && entries_to_map(none) == m);
    } else {
        lemma_last_name_exists(m.dom());
        let x = choose|x: Seq<char>| is_last_name(m.dom(), x);
        let smaller = m.remove(x);
        lemma_sorted_entries(smaller);
        let front = sorted_entries(smaller);
        let es = front.push((x, m[x]));
        assert(es.drop_last() =~= front);
        assert(entries_to_map(es) =~= m);
        assert forall|i: int, j: int| 0 <= i < j < es.len() implies name_lt(
            #[trigger] es[i].0,
            #[trigger] es[j].0,
        ) by {
            assert(es[i] == front[i]);
            if j < front.len() {
                assert(es[j] == front[j]);
            } else {
                assert(smaller.contains_key(front[i].0));
                assert(m.dom().contains(front[i].0));
            }
        }
        assert(sorted(es) && entries_to_map(es) == m);
    }
    lemma_sorted_map(sorted_entries(m));
}

/// The entries of a table as contracts see them.
pub open spec fn entries_view(es: Seq<(String, Key)>) -> Seq<EntryView> {
    Seq::new(es.len(), |i: int| (es[i].0@, es[i].1@))
}

/// An ordered map from names to keys.
#[derive(Debug, PartialEq, Eq)]
pub struct NamedKeys {
    entries: Vec<(String, Key)>,
}

impl View for NamedKeys {
    type V = Map<Seq<char>, KeyView>;

    closed spec fn view(&self) -> Map<Seq<char>, KeyView> {
        entries_to_map(self.entries())
    }
}

impl NamedKeys {
    /// The entries in the order in which they are stored and written.
    pub closed spec fn entries(&self) -> Seq<EntryView> {
        entries_view(self.entries@)
    }

    /// The entries stand in strictly ascending order of their names.
    #[verifier::type_invariant]
    pub closed spec fn wf(&self) -> bool {
        sorted(self.entries())
    }

    /// In a well-formed table the entries are sorted, their keys belong to
    /// the key space, and the map is the one they stand for.
    pub proof fn lemma_entries(&self)
        requires
            self.wf(),
        ensures
            sorted(self.entries()),
            self@ == entries_to_map(self.entries()),
            self@.dom().finite(),
            self@.dom().len() == self.entries().len(),
            forall|i: int| 0 <= i < self.entries().len() ==> (#[trigger] self.entries()[i]).1.wf(),
    {
        lemma_sorted_map(self.entries());
        let es = self.entries();
        assert forall|i: int| 0 <= i < es.len() implies (#[trigger] es[i]).1.wf() by {
            self.entries@[i].1.lemma_wf();
        }
    }

    /// The empty table.
    pub fn new() -> (table: NamedKeys)
        ensures
            table@ == Map::<Seq<char>, KeyView>::empty(),
    {
        NamedKeys { entries: Vec::new() }
    }

    /// The number of names in the table.
    pub fn len(&self) -> (n: usize)
        ensures
            n == self@.dom().len(),
            n == self.entries().len(),
    {
        proof {
            use_type_invariant(self);
            self.lemma_entries();
        }
        self.entries.len()
    }

    /// The key that `name` names, if the table holds the name.
    pub fn get(&self, name: &str) -> (key: Option<&Key>)
        ensures
            match key {
                Some(k) => self@.contains_key(name@) && self@[name@] == k@,
                None => !self@.contains_key(name@),
            },
    {
        proof {
            use_type_invariant(self);
        }
        let mut i: usize = 0;
        while i < self.entries.len()
            invariant
                i <= self.entries@.len(),
                self.wf(),
                forall|j: int| 0 <= j < i ==> (#[trigger] self.entries()[j]).0 != name@,
            decreases self.entries@.len() - i,
        {
            match compare_names(self.entries[i].0.as_str(), name) {
                Relation::Same => {
                    proof {
                        lemma_sorted_map(self.entries());
                        assert(self.entries()[i as int].0 == name@);
                    }
                    return Some(&self.entries[i].1);
                },
                _ => {
                    assert(self.entries()[i as int].0 != name@);
                },
            }
            i = i + 1;
        }
        proof {
            lemma_sorted_map(self.entries());
        }
        None
    }

    /// Binds `name` to `key`. A key that the name was bound to before is
    /// replaced and handed back.
    pub fn insert(&mut self, name: String, key: Key) -> (previous: Option<Key>)
        ensures
            final(self)@ == old(self)@.insert(name@, key@),
            match previous {
                Some(k) => old(self)@.contains_key(name@) && old(self)@[name@] == k@,
                None => !old(self)@.contains_key(name@),
            },
    {
        proof {
            use_type_invariant(&*self);
        }
        let mut entries: Vec<(String, Key)> = Vec::new();
        std::mem::swap(&mut entries, &mut self.entries);
        let ghost before = entries_view(entries@);
        proof {
            lemma_sorted_map(before);
        }
        let mut i: usize = 0;
        let mut previous: Option<Key> = None;
        let mut place = Relation::Before;
        while i < entries.len() && place == Relation::Before
            invariant
                i <= entries@.len(),
                before == entries_view(entries@),
                sorted(before),
                forall|j: int| 0 <= j < i ==> name_lt((#[trigger] before[j]).0, name@),
                place != Relation::Before ==> i < entries@.len() && place == name_relation(
                    before[i as int].0,
                    name@,
                ),
            decreases entries@.len() - i + if place == Relation::Before { 1int } else { 0int },
        {
            place = compare_names(entries[i].0.as_str(), name.as_str());
            if place == Relation::Before {
                i = i + 1;
            }
        }
        let ghost new_entry: EntryView = (name@, key@);
        if place == Relation::Same {
            proof {
                lemma_name_lt_total_or(before[i as int].0, name@);
                lemma_name_lt_asymmetric(before[i as int].0, name@);
            }
            previous = Some(entries[i].1);
            entries[i] = (name, key);
            proof {
                let after = entries_view(entries@);
                assert(after =~= before.update(i as int, new_entry));
                lemma_same_names_same_map(before, after, i as int);
            }
        } else {
            proof {
                assert forall|j: int| i <= j < before.len() implies name_lt(
                    name@,
                    (#[trigger] before[j]).0,
                ) by {
                    assert(place == Relation::After);
                    lemma_name_lt_asymmetric(before[i as int].0, name@);
                    if j > i {
                        assert(name_lt(before[i as int].0, before[j].0));
                        lemma_name_lt_transitive(name@, before[i as int].0, before[j].0);
                    }
                }
                assert forall|j: int| 0 <= j < before.len() implies (#[trigger] before[j]).0
                    != name@ by {
                    lemma_name_lt_asymmetric(name@, before[j].0);
                    if j < i {
                        assert(name_lt(before[j].0, name@));
                    }
                }
            }
            entries.insert(i, (name, key));
            proof {
                let after = entries_view(entries@);
                assert(after =~= before.insert(i as int, new_entry));
                lemma_insert_keeps_sorted(before, i as int, new_entry);
                lemma_inserted_map(before, i as int, new_entry);
            }
        }
        self.entries = entries;
        previous
    }

    /// Moves every binding of `other` into the table and leaves `other`
    /// empty. Where both hold a name, the key from `other` replaces the one
    /// the table had; every other binding of the table stays as it was.
    pub fn append(&mut self, other: &mut NamedKeys)
        ensures
            final(self)@ == old(self)@.union_prefer_right(old(other)@),
            final(other)@ == Map::<Seq<char>, KeyView>::empty(),
    {
        proof {
            use_type_invariant(&*other);
        }
        let mut incoming: Vec<(String, Key)> = Vec::new();
        std::mem::swap(&mut incoming, &mut other.entries);
        let ghost start = self@;
        let ghost moved = entries_view(incoming@);
        let mut i: usize = 0;
        assert(moved.take(0) =~= Seq::<EntryView>::empty());
        assert(self@ =~= start.union_prefer_right(entries_to_map(moved.take(0))));
        while i < incoming.len()
            invariant
                i <= incoming@.len(),
                moved == entries_view(incoming@),
                self@ == start.union_prefer_right(entries_to_map(moved.take(i as int))),
            decreases incoming@.len() - i,
        {
            let ghost so_far = entries_to_map(moved.take(i as int));
            self.insert(incoming[i].0.clone(), incoming[i].1);
            proof {
                let next = moved.take(i + 1);
                assert(next.drop_last() =~= moved.take(i as int));
                assert(next.last() == moved[i as int]);
                assert(entries_to_map(next) == so_far.insert(moved[i as int].0, moved[i as int].1));
                assert(self@ =~= start.union_prefer_right(entries_to_map(next)));
            }
            i = i + 1;
        }
        assert(moved.take(i as int) =~= moved);
    }
}

impl Clone for NamedKeys {
    fn clone(&self) -> (copy: NamedKeys)
        ensures
            copy@ == self@,
    {
        proof {
            use_type_invariant(self);
        }
        let mut entries: Vec<(String, Key)> = Vec::new();
        let mut i: usize = 0;
        while i < self.entries.len()
            invariant
                i <= self.entries@.len(),
                entries_view(entries@) == self.entries().take(i as int),
            decreases self.entries@.len() - i,
        {
            let ghost before = entries_view(entries@);
            entries.push((self.entries[i].0.clone(), self.entries[i].1));
            assert(entries_view(entries@) =~= before.push(self.entries()[i as int]));
            assert(self.entries().take(i + 1) =~= self.entries().take(i as int).push(
                self.entries()[i as int],
            ));
            i = i + 1;
        }
        assert(self.entries().take(i as int) =~= self.entries());
        NamedKeys { entries }
    }
}

/// The encodings of the entries of `es`, one after the other: each name as
/// a text, then the key it names.
pub open spec fn entries_payload(es: Seq<EntryView>) -> Seq<u8>
    decreases es.len(),
{
    if es.len() == 0 {
        Seq::empty()
    } else {
        string_encoding(es[0].0) + key_encoding(es[0].1) + entries_payload(es.drop_first())
    }
}

/// The wire image of a sequence of entries: their count in four bytes,
/// then each entry.
pub open spec fn entries_encoding(es: Seq<EntryView>) -> Seq<u8> {
    u32_le(es.len() as u32) + entries_payload(es)
}

/// Whether the count of the entries, and each name, fits a four-byte
/// length, and each key belongs to the key space.
pub open spec fn entries_encodable(es: Seq<EntryView>) -> bool {
    &&& es.len() <= u32::MAX
    &&& forall|i: int| 0 <= i < es.len() ==> string_encodable((#[trigger] es[i]).0) && es[i].1.wf()
}

/// Whether a map can be encoded: it is finite, the number of its names
/// and each name fit a four-byte length, and each key belongs to the key
/// space.
pub open spec fn named_keys_encodable(m: Map<Seq<char>, KeyView>) -> bool {
    &&& m.dom().finite()
    &&& m.dom().len() <= u32::MAX
    &&& forall|name: Seq<char>| #[trigger]
        m.contains_key(name) ==> string_encodable(name) && m[name].wf()
}

/// The wire image of a map from names to keys: the count of its entries,
/// then the entries in ascending order of their names.
pub open spec fn named_keys_encoding(m: Map<Seq<char>, KeyView>) -> Seq<u8> {
    entries_encoding(sorted_entries(m))
}

/// Reads `n` more entries from the front of `bytes` into `acc`, a later
/// entry replacing an earlier one of the same name.
pub open spec fn entries_decoding_from(
    bytes: Seq<u8>,
    n: nat,
    acc: Map<Seq<char>, KeyView>,
) -> Result<(Map<Seq<char>, KeyView>, Seq<u8>), Error>
    decreases n,
{
    if n == 0 {
        Ok((acc, bytes))
    } else {
        match string_decoding(bytes) {
            Err(e) => Err(e),
            Ok((name, after_name)) => match key_decoding(after_name) {
                Err(e) => Err(e),
                Ok((key, rest)) => entries_decoding_from(
                    rest,
                    (n - 1) as nat,
                    acc.insert(name, key),
                ),
            },
        }
    }
}

/// What the front of `bytes` decodes to as a map from names to keys. The
/// entries are accepted in any order.
pub open spec fn named_keys_decoding(bytes: Seq<u8>) -> Result<
    (Map<Seq<char>, KeyView>, Seq<u8>),
    Error,
> {
    match u32::decoding(bytes) {
        Err(e) => Err(e),
        Ok((n, rest)) => entries_decoding_from(rest, n as nat, Map::empty()),
    }
}

/// The payload of a sequence grows at its end by the encoding of the entry
/// appended.
pub proof fn lemma_entries_payload_push(es: Seq<EntryView>, e: EntryView)
    ensures
        entries_payload(es.push(e)) == entries_payload(es) + string_encoding(e.0) + key_encoding(
            e.1,
        ),
    decreases es.len(),
{
    let grown = es.push(e);
    assert(grown[0] == if es.len() == 0 { e } else { es[0] });
    if es.len() == 0 {
        assert(grown.drop_first() =~= Seq::<EntryView>::empty());
        assert(entries_payload(grown.drop_first()) =~= Seq::<u8>::empty());
        assert(entries_payload(es) =~= Seq::<u8>::empty());
        assert(entries_payload(grown) =~= string_encoding(e.0) + key_encoding(e.1)
            + entries_payload(grown.drop_first()));
        assert(entries_payload(grown) =~= entries_payload(es) + string_encoding(e.0)
            + key_encoding(e.1));
    } else {
        lemma_entries_payload_push(es.drop_first(), e);
        assert(grown.drop_first() =~= es.drop_first().push(e));
        assert(entries_payload(grown) =~= string_encoding(es[0].0) + key_encoding(es[0].1)
            + entries_payload(grown.drop_first()));
        assert(entries_payload(grown) =~= entries_payload(es) + string_encoding(e.0)
            + key_encoding(e.1));
    }
}

/// The sorted entries of a map that can be encoded can be encoded one by
/// one.
pub proof fn lemma_encodable_entries(m: Map<Seq<char>, KeyView>)
    requires
        named_keys_encodable(m),
    ensures
        sorted(sorted_entries(m)),
        entries_to_map(sorted_entries(m)) == m,
        entries_encodable(sorted_entries(m)),
{
    lemma_sorted_entries(m);
}

/// The entries of a well-formed table are the sorted entries of its map:
/// what a table writes is a function of the map alone.
pub proof fn lemma_table_entries(table: NamedKeys)
    requires
        table.wf(),
    ensures
        sorted_entries(table@) == table.entries(),
        sorted(table.entries()),
        entries_to_map(table.entries()) == table@,
{
    let es = table.entries();
    assert(sorted(es) && entries_to_map(es) == table@);
    lemma_sorted_unique(sorted_entries(table@), es);
}

impl ToBytes for NamedKeys {
    open spec fn encodable(&self) -> bool {
        named_keys_encodable(self@)
    }

    open spec fn encoding(&self) -> Seq<u8> {
        named_keys_encoding(self@)
    }

    fn is_encodable(&self) -> (ok: bool)
        ensures
            ok == named_keys_encodable(self@),
    {
        proof {
            use_type_invariant(self);
            self.lemma_entries();
        }
        if self.entries.len() > u32::MAX as usize {
            return false;
        }
        let ghost es = self.entries();
        let mut i: usize = 0;
        while i < self.entries.len()
            invariant
                i <= self.entries@.len(),
                self.entries@.len() <= u32::MAX,
                es == self.entries(),
                sorted(es),
                entries_to_map(es) == self@,
                self@.dom().finite(),
                self@.dom().len() == es.len(),
                forall|j: int| 0 <= j < es.len() ==> (#[trigger] es[j]).1.wf(),
                forall|j: int| 0 <= j < i ==> string_encodable((#[trigger] es[j]).0),
            decreases self.entries@.len() - i,
        {
            if !self.entries[i].0.is_encodable() {
                proof {
                    lemma_sorted_map(es);
                    assert(self@.contains_key(es[i as int].0));
                }
                return false;
            }
            i = i + 1;
        }
        proof {
            lemma_sorted_map(es);
            let m = self@;
            assert forall|name: Seq<char>| #[trigger] m.contains_key(name) implies string_encodable(
                name,
            ) && m[name].wf() by {
                let j = choose|j: int| 0 <= j < es.len() && #[trigger] es[j].0 == name;
                assert(string_encodable(es[j].0) && es[j].1.wf());
            }
        }
        true
    }

    fn to_bytes(&self) -> (bytes: Vec<u8>)
        ensures
            bytes@ == named_keys_encoding(self@),
    {
        proof {
            use_type_invariant(self);
            lemma_table_entries(*self);
            lemma_encodable_entries(self@);
        }
        let ghost es = self.entries();
        let mut bytes: Vec<u8> = (self.entries.len() as u32).to_bytes();
        let mut i: usize = 0;
        assert(es.take(0) =~= Seq::<EntryView>::empty());
        assert(bytes@ =~= u32_le(es.len() as u32) + entries_payload(es.take(0)));
        while i < self.entries.len()
            invariant
                i <= self.entries@.len(),
                es == self.entries(),
                entries_encodable(es),
                bytes@ == u32_le(es.len() as u32) + entries_payload(es.take(i as int)),
            decreases self.entries@.len() - i,
        {
            assert(string_encodable(es[i as int].0));
            let mut name = self.entries[i].0.to_bytes();
            let mut key = self.entries[i].1.to_bytes();
            bytes.append(&mut name);
            bytes.append(&mut key);
            proof {
                lemma_entries_payload_push(es.take(i as int), es[i as int]);
                assert(es.take(i as int).push(es[i as int]) =~= es.take(i + 1));
            }
            i = i + 1;
        }
        assert(es.take(i as int) =~= es);
        bytes
    }
}

impl FromBytes for NamedKeys {
    open spec fn decoding(bytes: Seq<u8>) -> Result<(Map<Seq<char>, KeyView>, Seq<u8>), Error> {
        named_keys_decoding(bytes)
    }

    fn from_bytes(bytes: &[u8]) -> (r: Result<(NamedKeys, &[u8]), Error>) {
        match u32::from_bytes(bytes) {
            Err(e) => Err(e),
            Ok((n, after_len)) => {
                let mut stream = after_len;
                let mut table = NamedKeys::new();
                let mut i: u32 = 0;
                while i < n
                    invariant
                        i <= n,
                        u32::decoding(bytes@) == Ok::<(u32, Seq<u8>), Error>((n, after_len@)),
                        entries_decoding_from(after_len@, n as nat, Map::empty())
                            == entries_decoding_from(stream@, (n - i) as nat, table@),
                    decreases n - i,
                {
                    match String::from_bytes(stream) {
                        Err(e) => {
                            return Err(e);
                        },
                        Ok((name, after_name)) => match Key::from_bytes(after_name) {
                            Err(e) => {
                                return Err(e);
                            },
                            Ok((key, rest)) => {
                                table.insert(name, key);
                                stream = rest;
                            },
                        },
                    }
                    i = i + 1;
                }
                Ok((table, stream))
            },
        }
    }
}

/// Reading back the payload of a sequence of entries inserts them in order
/// into the map read so far.
pub proof fn lemma_entries_payload_round_trip(
    es: Seq<EntryView>,
    rest: Seq<u8>,
    acc: Map<Seq<char>, KeyView>,
)
    requires
        forall|i: int| 0 <= i < es.len() ==> string_encodable((#[trigger] es[i]).0) && es[i].1.wf(),
    ensures
        entries_decoding_from(entries_payload(es) + rest, es.len(), acc) == Ok::<
            (Map<Seq<char>, KeyView>, Seq<u8>),
            Error,
        >((insert_all(acc, es), rest)),
    decreases es.len(),
{
    let b = entries_payload(es) + rest;
    if es.len() == 0 {
        assert(b =~= rest);
    } else {
        let tail = es.drop_first();
        let after_key = entries_payload(tail) + rest;
        let after_name = key_encoding(es[0].1) + after_key;
        let grown = acc.insert(es[0].0, es[0].1);
        assert(string_encodable(es[0].0) && es[0].1.wf());
        assert(b == string_encoding(es[0].0) + after_name) by {
            assert(b =~= string_encoding(es[0].0) + after_name);
        }
        assert(string_decoding(b) == Ok::<(Seq<char>, Seq<u8>), Error>((es[0].0, after_name))) by {
            lemma_string_round_trip(es[0].0, after_name);
        }
        assert(key_decoding(after_name) == Ok::<(KeyView, Seq<u8>), Error>((es[0].1, after_key)))
            by {
            lemma_key_round_trip(es[0].1, after_key);
        }
        assert(entries_decoding_from(b, es.len(), acc) == entries_decoding_from(
            after_key,
            tail.len(),
            grown,
        ));
        assert forall|i: int| 0 <= i < tail.len() implies string_encodable(
            (#[trigger] tail[i]).0,
        ) && tail[i].1.wf() by {
            assert(tail[i] == es[i + 1]);
        }
        lemma_entries_payload_round_trip(tail, rest, grown);
        lemma_insert_all_front(acc, es);
    }
}

/// Decoding what table encoding wrote gives the map back and leaves
/// exactly what followed it.
pub proof fn lemma_named_keys_round_trip(m: Map<Seq<char>, KeyView>, rest: Seq<u8>)
    requires
        named_keys_encodable(m),
    ensures
        named_keys_decoding(named_keys_encoding(m) + rest) == Ok::<
            (Map<Seq<char>, KeyView>, Seq<u8>),
            Error,
        >((m, rest)),
{
    let es = sorted_entries(m);
    let n = es.len() as u32;
    lemma_encodable_entries(m);
    lemma_u32_round_trip(n, entries_payload(es) + rest);
    assert(named_keys_encoding(m) + rest =~= u32_le(n) + (entries_payload(es) + rest));
    lemma_entries_payload_round_trip(es, rest, Map::empty());
}

/// Canonical order: two tables that hold the same bindings, however each
/// was built, have the same wire image, and it lists the names in
/// ascending order.
pub proof fn lemma_canonical_encoding(a: NamedKeys, b: NamedKeys)
    requires
        a.wf(),
        b.wf(),
        a@ == b@,
    ensures
        a.encoding() == b.encoding(),
        a.entries() == b.entries(),
        a.encoding() == entries_encoding(a.entries()),
        sorted(a.entries()),
{
    lemma_table_entries(a);
    lemma_table_entries(b);
}

/// The order of insertion does not show: binding two different names one
/// after the other gives the same map whichever comes first, and with it
/// the same wire image.
pub proof fn lemma_insertion_order(
    m: Map<Seq<char>, KeyView>,
    first: EntryView,
    second: EntryView,
)
    requires
        first.0 != second.0,
    ensures
        m.insert(first.0, first.1).insert(second.0, second.1) == m.insert(
            second.0,
            second.1,
        ).insert(first.0, first.1),
        named_keys_encoding(m.insert(first.0, first.1).insert(second.0, second.1))
            == named_keys_encoding(m.insert(second.0, second.1).insert(first.0, first.1)),
{
    assert(m.insert(first.0, first.1).insert(second.0, second.1) =~= m.insert(
        second.0,
        second.1,
    ).insert(first.0, first.1));
}

} // verus!
