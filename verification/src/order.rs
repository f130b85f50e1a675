//! The lexicographic order on byte strings, by which names and addresses
//! are compared.

use std::cmp::Ordering;
use vstd::prelude::*;

verus! {

/// Whether `a` comes before `b` when both are compared byte by byte from
/// position `i` on, a proper prefix coming before what extends it.
pub open spec fn bytes_lt_from(a: Seq<u8>, b: Seq<u8>, i: int) -> bool
    decreases a.len() - i,
{
    if i >= b.len() {
        false
    } else if i >= a.len() {
        true
    } else if a[i] != b[i] {
        a[i] < b[i]
    } else {
        bytes_lt_from(a, b, i + 1)
    }
}

/// Lexicographic order on byte strings.
pub open spec fn bytes_lt(a: Seq<u8>, b: Seq<u8>) -> bool {
    bytes_lt_from(a, b, 0)
}

/// No byte string comes before itself.
pub proof fn lemma_bytes_lt_irreflexive(a: Seq<u8>, i: int)
    requires
        0 <= i,
    ensures
        !bytes_lt_from(a, a, i),
    decreases a.len() - i,
{
    if i < a.len() {
        lemma_bytes_lt_irreflexive(a, i + 1);
    }
}

/// The order is transitive.
pub proof fn lemma_bytes_lt_transitive(a: Seq<u8>, b: Seq<u8>, c: Seq<u8>, i: int)
    requires
        0 <= i,
        bytes_lt_from(a, b, i),
        bytes_lt_from(b, c, i),
    ensures
        bytes_lt_from(a, c, i),
    decreases a.len() - i,
{
    if i < a.len() && i < b.len() && i < c.len() && a[i] == b[i] && b[i] == c[i] {
        lemma_bytes_lt_transitive(a, b, c, i + 1);
    }
}

/// Two byte strings that agree before position `i` and of which neither
/// comes before the other from there on are the same string.
pub proof fn lemma_bytes_lt_total(a: Seq<u8>, b: Seq<u8>, i: int)
    requires
        0 <= i <= a.len(),
        i <= b.len(),
        forall|j: int| 0 <= j < i ==> a[j] == b[j],
        !bytes_lt_from(a, b, i),
        !bytes_lt_from(b, a, i),
    ensures
        a == b,
    decreases a.len() - i,
{
    if i < a.len() && i < b.len() {
        lemma_bytes_lt_total(a, b, i + 1);
    } else {
        assert(a =~= b);
    }
}

/// How one value stands to another in an order.
#[derive(Clone, Copy, Debug, PartialEq, Eq, Structural)]
pub enum Relation {
    Before,
    Same,
    After,
}

impl Relation {
    /// The relation in the vocabulary of the standard library.
    pub open spec fn ordering(self) -> Ordering {
        match self {
            Relation::Before => Ordering::Less,
            Relation::Same => Ordering::Equal,
            Relation::After => Ordering::Greater,
        }
    }

    /// The relation in the vocabulary of the standard library.
    pub fn to_ordering(self) -> (o: Ordering)
        ensures
            o == self.ordering(),
    {
        match self {
            Relation::Before => Ordering::Less,
            Relation::Same => Ordering::Equal,
            Relation::After => Ordering::Greater,
        }
    }
}

/// How `a` stands to `b` in the lexicographic order.
pub open spec fn bytes_relation(a: Seq<u8>, b: Seq<u8>) -> Relation {
    if bytes_lt(a, b) {
        Relation::Before
    } else if bytes_lt(b, a) {
        Relation::After
    } else {
        Relation::Same
    }
}

/// Compares two byte strings in the lexicographic order. They stand in the
/// relation `Same` exactly when they are the same string.
pub fn compare_bytes(a: &[u8], b: &[u8]) -> (r: Relation)
    ensures
        r == bytes_relation(a@, b@),
        r == Relation::Same <==> a@ == b@,
        !(bytes_lt(a@, b@) && bytes_lt(b@, a@)),
{
    let mut i: usize = 0;
    proof {
        lemma_bytes_lt_irreflexive(a@, 0);
        if bytes_lt(a@, b@) && bytes_lt(b@, a@) {
            lemma_bytes_lt_transitive(a@, b@, a@, 0);
        }
    }
    while i < a.len() && i < b.len()
        invariant
            i <= a@.len(),
            i <= b@.len(),
            forall|j: int| 0 <= j < i ==> a@[j] == b@[j],
            bytes_lt(a@, b@) == bytes_lt_from(a@, b@, i as int),
            bytes_lt(b@, a@) == bytes_lt_from(b@, a@, i as int),
            !(bytes_lt(a@, b@) && bytes_lt(b@, a@)),
            !bytes_lt(a@, a@),
        decreases a@.len() - i,
    {
        if a[i] < b[i] {
            return Relation::Before;
        }
        if a[i] > b[i] {
            return Relation::After;
        }
        i = i + 1;
    }
    if i < b.len() {
        Relation::Before
    } else if i < a.len() {
        Relation::After
    } else {
        proof {
            lemma_bytes_lt_total(a@, b@, i as int);
        }
        Relation::Same
    }
}

} // verus!
