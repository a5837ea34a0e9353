//! The order of node identifiers, and the canonical (sorted) form of a list of them.
//!
//! Identifiers compare as Rust strings do: lexicographically by the bytes of
//! their UTF-8 encoding.

use vstd::prelude::*;
use vstd::relations::{sorted_by, total_ordering};
use vstd::seq_lib::{lemma_sorted_unique, to_multiset_build, to_multiset_insert};
use vstd::utf8::{encode_utf8, encode_utf8_decode_utf8};

verus! {

/// A node identifier, as the sequence of its characters.
pub type Name = Seq<char>;

/// Lexicographic `<=` on byte strings, from position `i` on; the bytes before
/// `i` are taken to agree.
pub open spec fn bytes_le_from(a: Seq<u8>, b: Seq<u8>, i: int) -> bool
    decreases a.len() - i,
{
    if i < 0 || i >= a.len() {
        true
    } else if i >= b.len() {
        false
    } else if a[i] != b[i] {
        a[i] < b[i]
    } else {
        bytes_le_from(a, b, i + 1)
    }
}

/// Lexicographic `<=` on byte strings: a proper prefix comes first, and
/// otherwise the first differing byte decides.
pub open spec fn bytes_le(a: Seq<u8>, b: Seq<u8>) -> bool {
    bytes_le_from(a, b, 0)
}

/// `a <= b` in the order of identifiers.
pub open spec fn name_le(a: Name, b: Name) -> bool {
    bytes_le(encode_utf8(a), encode_utf8(b))
}

/// The identifier order as a relation, for use with sequence predicates.
pub open spec fn name_order() -> spec_fn(Name, Name) -> bool {
    |a: Name, b: Name| name_le(a, b)
}

/// The views of a list of strings.
pub open spec fn names_of(v: Seq<String>) -> Seq<Name> {
    Seq::new(v.len(), |i: int| v[i]@)
}

/// A list of identifiers is canonical when it is in ascending order.
pub open spec fn is_canonical(r: Seq<Name>) -> bool {
    sorted_by(r, name_order())
}

/// The canonical form of a list of identifiers: the same identifiers in ascending order.
pub open spec fn canonical(r: Seq<Name>) -> Seq<Name> {
    r.sort_by(name_order())
}

proof fn lemma_bytes_le_refl(a: Seq<u8>, i: int)
    requires
        0 <= i,
    ensures
        bytes_le_from(a, a, i),
    decreases a.len() - i,
{
    if i < a.len() {
        lemma_bytes_le_refl(a, i + 1);
    }
}

proof fn lemma_bytes_le_antisym(a: Seq<u8>, b: Seq<u8>, i: int)
    requires
        0 <= i <= a.len(),
        i <= b.len(),
        a.subrange(0, i) == b.subrange(0, i),
        bytes_le_from(a, b, i),
        bytes_le_from(b, a, i),
    ensures
        a == b,
    decreases a.len() - i,
{
    if i >= a.len() {
        assert(i >= b.len());
        assert(a =~= a.subrange(0, i));
        assert(b =~= b.subrange(0, i));
    } else {
        assert(i < b.len());
        assert(a[i] == b[i]);
        assert(a.subrange(0, i + 1) =~= a.subrange(0, i).push(a[i]));
        assert(b.subrange(0, i + 1) =~= b.subrange(0, i).push(b[i]));
        lemma_bytes_le_antisym(a, b, i + 1);
    }
}

proof fn lemma_bytes_le_trans(a: Seq<u8>, b: Seq<u8>, c: Seq<u8>, i: int)
    requires
        0 <= i,
        bytes_le_from(a, b, i),
        bytes_le_from(b, c, i),
    ensures
        bytes_le_from(a, c, i),
    decreases a.len() - i,
{
    if i < a.len() {
        if a[i] == b[i] && b[i] == c[i] {
            lemma_bytes_le_trans(a, b, c, i + 1);
        }
    }
}

proof fn lemma_bytes_le_total(a: Seq<u8>, b: Seq<u8>, i: int)
    requires
        0 <= i,
    ensures
        bytes_le_from(a, b, i) || bytes_le_from(b, a, i),
    decreases a.len() - i,
{
    if i < a.len() && i < b.len() && a[i] == b[i] {
        lemma_bytes_le_total(a, b, i + 1);
    }
}

/// The identifier order is a total order: reflexive, antisymmetric,
/// transitive, and any two identifiers compare.
pub proof fn lemma_name_order_total()
    ensures
        total_ordering(name_order()),
{
    let le = name_order();
    assert forall|x: Name| #[trigger] le(x, x) by {
        lemma_bytes_le_refl(encode_utf8(x), 0);
    }
    assert forall|x: Name, y: Name| #[trigger] le(x, y) && #[trigger] le(y, x) implies x == y by {
        let a = encode_utf8(x);
        let b = encode_utf8(y);
        assert(a.subrange(0, 0) =~= b.subrange(0, 0));
        lemma_bytes_le_antisym(a, b, 0);
        encode_utf8_decode_utf8(x);
        encode_utf8_decode_utf8(y);
    }
    assert forall|x: Name, y: Name, z: Name| #[trigger] le(x, y) && #[trigger] le(y, z) implies le(
        x,
        z,
    ) by {
        lemma_bytes_le_trans(encode_utf8(x), encode_utf8(y), encode_utf8(z), 0);
    }
    assert forall|x: Name, y: Name| #[trigger] le(x, y) || #[trigger] le(y, x) by {
        lemma_bytes_le_total(encode_utf8(x), encode_utf8(y), 0);
    }
}

/// Whether `a` comes before or equals `b` in the order of identifiers.
pub fn name_le_exec(a: &String, b: &String) -> (r: bool)
    ensures
        r == name_le(a@, b@),
{
    let x = a.as_str().as_bytes();
    let y = b.as_str().as_bytes();
    let mut i: usize = 0;
    while i < x.len() && i < y.len() && x[i] == y[i]
        invariant
            i <= x.len(),
            i <= y.len(),
            bytes_le(x@, y@) == bytes_le_from(x@, y@, i as int),
        decreases x.len() - i,
    {
        i += 1;
    }
    if i >= x.len() {
        true
    } else if i >= y.len() {
        false
    } else {
        x[i] < y[i]
    }
}

/// A list of identifiers has exactly one canonical arrangement: an ascending
/// list with the same members as `r` is the canonical form of `r`.
pub proof fn lemma_canonical_unique(r: Seq<Name>, sorted: Seq<Name>)
    requires
        is_canonical(sorted),
        sorted.to_multiset() == r.to_multiset(),
    ensures
        sorted == canonical(r),
{
    lemma_name_order_total();
    r.lemma_sort_by_ensures(name_order());
    lemma_sorted_unique(sorted, canonical(r), name_order());
}

/// The canonical form keeps the members of a list, and so its length.
pub proof fn lemma_canonical_members(r: Seq<Name>)
    ensures
        is_canonical(canonical(r)),
        canonical(r).to_multiset() == r.to_multiset(),
        canonical(r).len() == r.len(),
        forall|x: Name| canonical(r).contains(x) <==> r.contains(x),
{
    broadcast use vstd::seq_lib::to_multiset_contains;

    lemma_name_order_total();
    r.lemma_sort_by_ensures(name_order());
    vstd::seq_lib::to_multiset_len(r);
    vstd::seq_lib::to_multiset_len(canonical(r));
    assert forall|x: Name| canonical(r).contains(x) <==> r.contains(x) by {
        assert(canonical(r).to_multiset().count(x) == r.to_multiset().count(x));
    }
}

/// The position at which `name` enters the ascending list `sorted`: behind
/// every entry that is `<=` it.
fn slot_for(sorted: &Vec<String>, name: &String) -> (pos: usize)
    requires
        is_canonical(names_of(sorted@)),
    ensures
        pos <= sorted.len(),
        forall|k: int| 0 <= k < pos ==> name_le(#[trigger] sorted[k]@, name@),
        forall|k: int| pos <= k < sorted.len() ==> name_le(name@, #[trigger] sorted[k]@),
{
    let mut pos: usize = 0;
    let mut searching = true;
    while searching && pos < sorted.len()
        invariant
            pos <= sorted.len(),
            is_canonical(names_of(sorted@)),
            forall|k: int| 0 <= k < pos ==> name_le(#[trigger] sorted[k]@, name@),
            !searching ==> pos < sorted.len() && !name_le(sorted[pos as int]@, name@),
        decreases sorted.len() - pos + if searching { 1int } else { 0int },
    {
        if name_le_exec(&sorted[pos], name) {
            pos += 1;
        } else {
            searching = false;
        }
    }
    proof {
        lemma_name_order_total();
        let le = name_order();
        assert forall|k: int| pos <= k < sorted.len() implies name_le(
            name@,
            #[trigger] sorted[k]@,
        ) by {
            let here = names_of(sorted@)[pos as int];
            let there = names_of(sorted@)[k];
            assert(le(here, name@) || le(name@, here));
            assert(le(name@, here));
            if pos < k {
                assert(le(here, there));
            }
            assert(le(name@, here) && le(here, there) ==> le(name@, there));
        }
    }
    pos
}

/// A sorted copy of `names`: the canonical form under which a cycle is recorded.
pub fn sort_names(names: &Vec<String>) -> (sorted: Vec<String>)
    ensures
        names_of(sorted@) == canonical(names_of(names@)),
{
    let mut sorted: Vec<String> = Vec::new();
    let mut i: usize = 0;
    assert(names_of(sorted@) =~= names_of(names@).subrange(0, 0));
    while i < names.len()
        invariant
            i <= names.len(),
            is_canonical(names_of(sorted@)),
            names_of(sorted@).to_multiset() == names_of(names@).subrange(0, i as int).to_multiset(),
        decreases names.len() - i,
    {
        let pos = slot_for(&sorted, &names[i]);
        let ghost held = sorted@;
        let ghost before = names_of(sorted@);
        sorted.insert(pos, names[i].clone());
        proof {
            let le = name_order();
            let name = names[i as int]@;
            let after = names_of(sorted@);
            assert(after =~= before.insert(pos as int, name));
            to_multiset_insert(before, pos as int, name);
            let done = names_of(names@).subrange(0, i as int);
            assert(names_of(names@).subrange(0, i + 1) =~= done.push(name));
            to_multiset_build(done, name);
            assert forall|a: int, b: int| 0 <= a < b < after.len() implies name_le(
                after[a],
                after[b],
            ) by {
                if a < pos && b > pos {
                    assert(le(before[a], before[b - 1]));
                } else if a < pos && b < pos {
                    assert(le(before[a], before[b]));
                } else if a < pos {
                    assert(name_le(held[a]@, name));
                } else if a > pos {
                    assert(le(before[a - 1], before[b - 1]));
                } else {
                    assert(name_le(name, held[b - 1]@));
                }
            }
        }
        i += 1;
    }
    proof {
        assert(names_of(names@).subrange(0, i as int) =~= names_of(names@));
        lemma_canonical_unique(names_of(names@), names_of(sorted@));
    }
    sorted
}

} // verus!
