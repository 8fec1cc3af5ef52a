//! Listing named items in the order of their names.

use vstd::prelude::*;
use vstd::multiset::Multiset;
use vstd::utf8::encode_utf8;
use crate::text::{bytes_less, bytes_lt, lemma_bytes_lt_total, lemma_bytes_lt_transitive};

verus! {

broadcast use vstd::seq_lib::group_to_multiset_ensures;

/// Something listed by name.
pub trait Named: Sized {
    /// The name by which it is listed.
    spec fn name_view(&self) -> Seq<char>;

    /// The name by which it is listed.
    fn name_text(&self) -> (res: &str)
        ensures
            res@ == self.name_view();
}

/// Names in non-decreasing byte order.
pub open spec fn sorted_by_name<T: Named>(items: Seq<T>) -> bool {
    forall|i: int, j: int| 0 <= i < j < items.len()
        ==> !bytes_lt(encode_utf8((#[trigger] items[j]).name_view()), encode_utf8((#[trigger] items[i]).name_view()))
}

/// The views of a sequence's items.
pub open spec fn views<T: View>(items: Seq<T>) -> Seq<T::V> {
    items.map_values(|t: T| t@)
}

/// The views of the items named `name`, in their order.
pub open spec fn named<T: Named + View>(items: Seq<T>, name: Seq<char>) -> Seq<T::V>
    decreases items.len(),
{
    if items.len() == 0 {
        Seq::empty()
    } else {
        named(items.drop_last(), name) + if items.last().name_view() == name {
            seq![items.last()@]
        } else {
            Seq::empty()
        }
    }
}

proof fn lemma_named_concat<T: Named + View>(a: Seq<T>, b: Seq<T>, name: Seq<char>)
    ensures
        named(a + b, name) == named(a, name) + named(b, name),
    decreases b.len(),
{
    if b.len() == 0 {
        assert(a + b =~= a);
        assert(named(a, name) + named(b, name) =~= named(a, name));
    } else {
        lemma_named_concat(a, b.drop_last(), name);
        assert((a + b).drop_last() =~= a + b.drop_last());
        assert((a + b).last() == b.last());
        assert(named(a + b, name) =~= named(a, name) + named(b, name));
    }
}

proof fn lemma_named_single<T: Named + View>(x: T, name: Seq<char>)
    ensures
        named(seq![x], name) == if x.name_view() == name { seq![x@] } else { Seq::<T::V>::empty() },
{
    let one = seq![x];
    assert(one.drop_last() =~= Seq::<T>::empty());
    assert(one.last() == x);
    assert(named(Seq::<T>::empty(), name) == Seq::<T::V>::empty());
    assert(named(one, name) == named(one.drop_last(), name) + if x.name_view() == name {
        seq![x@]
    } else {
        Seq::<T::V>::empty()
    });
    assert(named(seq![x], name) =~= if x.name_view() == name { seq![x@] } else { Seq::<T::V>::empty() });
}

proof fn lemma_named_none<T: Named + View>(items: Seq<T>, name: Seq<char>)
    requires
        forall|k: int| 0 <= k < items.len() ==> (#[trigger] items[k]).name_view() != name,
    ensures
        named(items, name) == Seq::<T::V>::empty(),
    decreases items.len(),
{
    if items.len() > 0 {
        assert(items.last() == items[items.len() - 1]);
        lemma_named_none(items.drop_last(), name);
    }
}

/// The items in non-decreasing order of their names' bytes (the order of
/// `str`'s comparison); items with the same name keep their order (a stable
/// sort).
pub fn sort_by_name<T: Named + View>(items: Vec<T>) -> (res: Vec<T>)
    ensures
        sorted_by_name(res@),
        views(res@).to_multiset() == views(items@).to_multiset(),
        forall|name: Seq<char>| #[trigger] named(res@, name) == named(items@, name),
{
    let ghost original = views(items@);
    let ghost given = items@;
    let mut rest = items;
    let mut out: Vec<T> = Vec::new();
    while rest.len() > 0
        invariant
            sorted_by_name(out@),
            views(out@).to_multiset().add(views(rest@).to_multiset()) == original.to_multiset(),
            forall|name: Seq<char>| #[trigger] named(given, name) == named(out@, name) + named(rest@, name),
        decreases rest.len(),
    {
        let ghost rest_before = rest@;
        let x = rest.remove(0);
        proof {
            assert(rest_before =~= seq![x] + rest@);
            assert forall|name: Seq<char>| named(rest_before, name) == named(seq![x], name) + #[trigger] named(rest@, name) by {
                lemma_named_concat(seq![x], rest@, name);
            }
            assert(views(rest_before) =~= seq![x@] + views(rest@));
            vstd::seq_lib::lemma_multiset_commutative(seq![x@], views(rest@));
            assert(seq![x@].to_multiset() =~= Multiset::singleton(x@)) by {
                assert(seq![x@] =~= Seq::<T::V>::empty().push(x@));
            }
        }
        let ghost before = out@;
        let mut p: usize = 0;
        while p < out.len() && !bytes_less(x.name_text().as_bytes(), out[p].name_text().as_bytes())
            invariant
                p <= out.len(),
                before == out@,
                forall|k: int| 0 <= k < p ==> !bytes_lt(encode_utf8(x.name_view()), encode_utf8((#[trigger] before[k]).name_view())),
            decreases out.len() - p,
        {
            p = p + 1;
        }
        out.insert(p, x);
        proof {
            let after = out@;
            assert(after =~= before.take(p as int) + seq![x] + before.skip(p as int));
            assert forall|name: Seq<char>| #[trigger] named(given, name) == named(after, name) + named(rest@, name) by {
                lemma_named_concat(before.take(p as int) + seq![x], before.skip(p as int), name);
                lemma_named_concat(before.take(p as int), seq![x], name);
                lemma_named_concat(before.take(p as int), before.skip(p as int), name);
                assert(before.take(p as int) + before.skip(p as int) =~= before);
                lemma_named_single(x, name);
                lemma_named_concat(seq![x], rest@, name);
                assert(rest_before =~= seq![x] + rest@);
                if x.name_view() == name {
                    // every item from p on comes strictly after x
                    assert forall|k: int| 0 <= k < before.skip(p as int).len() implies
                        (#[trigger] before.skip(p as int)[k]).name_view() != name by {
                        let nx = encode_utf8(x.name_view());
                        let np = encode_utf8(before[p as int].name_view());
                        let nk = encode_utf8(before[p + k].name_view());
                        assert(before.skip(p as int)[k] == before[p + k]);
                        assert(bytes_lt(nx, np));
                        if k > 0 {
                            if nk != np {
                                lemma_bytes_lt_total(nk, np);
                            }
                            if bytes_lt(nk, np) {
                                assert(!bytes_lt(nk, np));
                            }
                            if np != nk {
                                lemma_bytes_lt_transitive(nx, np, nk);
                            }
                        }
                        crate::text::lemma_bytes_lt_irreflexive(nx);
                    }
                    lemma_named_none(before.skip(p as int), name);
                    assert(named(given, name) == named(before, name) + named(rest_before, name));
                }
            }
            assert(after =~= before.insert(p as int, x));
            assert(views(after) =~= views(before).insert(p as int, x@));
            let nx = encode_utf8(x.name_view());
            assert forall|a: int, b: int| 0 <= a < b < after.len()
                implies !bytes_lt(encode_utf8((#[trigger] after[b]).name_view()), encode_utf8((#[trigger] after[a]).name_view())) by {
                if b < p {
                } else if a < p && b == p {
                    let na = encode_utf8(before[a].name_view());
                    if bytes_lt(nx, na) {
                    }
                    if nx != na {
                        lemma_bytes_lt_total(nx, na);
                    }
                } else if a < p && b > p {
                    assert(after[b] == before[b - 1]);
                } else if a == p {
                    assert(after[b] == before[b - 1]);
                    let nb = encode_utf8(before[b - 1].name_view());
                    let np = encode_utf8(before[p as int].name_view());
                    // x comes strictly before the item that was at p
                    assert(bytes_lt(nx, np));
                    if bytes_lt(nb, nx) {
                        lemma_bytes_lt_transitive(nb, nx, np);
                        if b - 1 > p {
                            // np is not after nb in the sorted list
                        } else {
                            crate::text::lemma_bytes_lt_asymmetric(nb, np);
                        }
                    }
                } else {
                    assert(after[a] == before[a - 1]);
                    assert(after[b] == before[b - 1]);
                }
            }
        }
    }
    proof {
        assert(views(rest@) =~= Seq::<T::V>::empty());
        assert forall|name: Seq<char>| #[trigger] named(out@, name) == named(given, name) by {
            assert(named(rest@, name) =~= Seq::<T::V>::empty());
            assert(named(out@, name) + named(rest@, name) =~= named(out@, name));
        }
    }
    out
}

} // verus!
