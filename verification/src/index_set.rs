use vstd::prelude::*;
use indexmap::IndexSet;
use std::hash::RandomState;

verus! {

/// `indexmap::IndexSet`, a hash set that remembers the order in which its items were inserted.
#[verifier::external_type_specification]
#[verifier::external_body]
#[verifier::reject_recursive_types(T)]
#[verifier::reject_recursive_types(S)]
pub struct ExIndexSet<T, S>(IndexSet<T, S>);

/// The items of a set of coordinates, in insertion order.
pub uninterp spec fn set_items(s: IndexSet<u32, RandomState>) -> Seq<u32>;

/// The items after inserting `v`: unchanged when `v` is already present, else `v` is appended.
pub open spec fn insert_item(items: Seq<u32>, v: u32) -> Seq<u32> {
    if items.contains(v) { items } else { items.push(v) }
}

/// `IndexSet::new`: creates an empty set.
#[verifier::external_body]
pub(crate) fn set_new() -> (r: IndexSet<u32, RandomState>)
    ensures
        set_items(r) == Seq::<u32>::empty(),
{
    IndexSet::new()
}

/// `IndexSet::insert`: appends `v` unless an equal item is present; returns whether it was absent.
#[verifier::external_body]
pub(crate) fn set_insert(s: &mut IndexSet<u32, RandomState>, v: u32) -> (r: bool)
    ensures
        r == !set_items(*old(s)).contains(v),
        set_items(*final(s)) == insert_item(set_items(*old(s)), v),
{
    s.insert(v)
}

/// `IndexSet::with_capacity`: creates an empty set with room for `n` items. It panics when
/// the room asked for overflows the allocator's limits, which `n` here stays far below.
#[verifier::external_body]
pub(crate) fn set_with_capacity(n: usize) -> (r: IndexSet<u32, RandomState>)
    requires
        n <= MAX_PRESIZE,
    ensures
        set_items(r) == Seq::<u32>::empty(),
{
    IndexSet::with_capacity(n)
}

/// The most items that a set is made with room for in advance; a set still grows past it.
pub const MAX_PRESIZE: usize = 0x100_0000;

/// An empty set with room for `n` items, or for `MAX_PRESIZE` of them when `n` is larger.
pub(crate) fn presized(n: usize) -> (r: IndexSet<u32, RandomState>)
    ensures
        set_items(r) == Seq::<u32>::empty(),
{
    if n <= MAX_PRESIZE {
        set_with_capacity(n)
    } else {
        set_with_capacity(MAX_PRESIZE)
    }
}

/// `IndexSet::contains`: whether an item equal to `v` is present.
#[verifier::external_body]
pub(crate) fn set_contains(s: &IndexSet<u32, RandomState>, v: u32) -> (r: bool)
    ensures
        r == set_items(*s).contains(v),
{
    s.contains(&v)
}

/// `IndexSet::len`: the number of items.
#[verifier::external_body]
pub(crate) fn set_len(s: &IndexSet<u32, RandomState>) -> (r: usize)
    ensures
        r == set_items(*s).len(),
{
    s.len()
}

/// `IndexSet::iter`: the items in insertion order, copied out into a vector.
#[verifier::external_body]
pub(crate) fn set_to_vec(s: &IndexSet<u32, RandomState>) -> (r: Vec<u32>)
    ensures
        r@ == set_items(*s),
        r@.no_duplicates(),
{
    s.iter().copied().collect()
}

/// `IndexSet::append`: inserts the items of `other` in their order, leaving `other` empty.
#[verifier::external_body]
pub(crate) fn set_append(s: &mut IndexSet<u32, RandomState>, other: &mut IndexSet<u32, RandomState>)
    ensures
        set_items(*final(s)) == insert_all(set_items(*old(s)), set_items(*old(other))),
        set_items(*final(other)) == Seq::<u32>::empty(),
{
    s.append(other)
}

/// The items after inserting each of `vs` in turn.
pub open spec fn insert_all(items: Seq<u32>, vs: Seq<u32>) -> Seq<u32>
    decreases vs.len(),
{
    if vs.len() == 0 {
        items
    } else {
        insert_item(insert_all(items, vs.drop_last()), vs.last())
    }
}

/// An item is among those after inserting `vs` exactly when it was there before or is one
/// of `vs`.
pub proof fn lemma_insert_all_contains(items: Seq<u32>, vs: Seq<u32>, v: u32)
    ensures
        insert_all(items, vs).contains(v) <==> (items.contains(v) || vs.contains(v)),
    decreases vs.len(),
{
    if vs.len() > 0 {
        let init = vs.drop_last();
        let last = vs.last();
        lemma_insert_all_contains(items, init, v);
        lemma_push_contains(insert_all(items, init), last, v);
        assert(vs =~= init.push(last));
        lemma_push_contains(init, last, v);
    }
}

/// An item is in `s.push(a)` exactly when it is in `s` or is `a`.
pub proof fn lemma_push_contains(s: Seq<u32>, a: u32, v: u32)
    ensures
        s.push(a).contains(v) <==> (s.contains(v) || v == a),
{
    if s.push(a).contains(v) {
        let i = choose|i: int| 0 <= i < s.push(a).len() && s.push(a)[i] == v;
        if i < s.len() {
            assert(s[i] == v);
        }
    }
    if s.contains(v) {
        let i = choose|i: int| 0 <= i < s.len() && s[i] == v;
        assert(s.push(a)[i] == v);
    }
    if v == a {
        assert(s.push(a)[s.len() as int] == v);
    }
}

/// Inserting keeps the items free of duplicates.
pub proof fn lemma_insert_all_no_duplicates(items: Seq<u32>, vs: Seq<u32>)
    requires
        items.no_duplicates(),
    ensures
        insert_all(items, vs).no_duplicates(),
    decreases vs.len(),
{
    if vs.len() > 0 {
        lemma_insert_all_no_duplicates(items, vs.drop_last());
        let pre = insert_all(items, vs.drop_last());
        let v = vs.last();
        if !pre.contains(v) {
            assert forall|i: int, j: int| 0 <= i < j < pre.push(v).len() implies pre.push(v)[i]
                != pre.push(v)[j] by {
                if j == pre.len() {
                    assert(pre[i] == pre.push(v)[i]);
                }
            }
        }
    }
}

/// An item is in `a + b` exactly when it is in `a` or in `b`.
pub proof fn lemma_concat_contains(a: Seq<u32>, b: Seq<u32>, v: u32)
    ensures
        (a + b).contains(v) <==> (a.contains(v) || b.contains(v)),
{
    if (a + b).contains(v) {
        let i = choose|i: int| 0 <= i < (a + b).len() && (a + b)[i] == v;
        if i < a.len() {
            assert(a[i] == v);
        } else {
            assert(b[i - a.len()] == v);
        }
    }
    if a.contains(v) {
        let i = choose|i: int| 0 <= i < a.len() && a[i] == v;
        assert((a + b)[i] == v);
    }
    if b.contains(v) {
        let i = choose|i: int| 0 <= i < b.len() && b[i] == v;
        assert((a + b)[a.len() + i] == v);
    }
}

} // verus!
