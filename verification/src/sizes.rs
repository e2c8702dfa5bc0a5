//! Symbol sizes for the formats that do not store them.
//!
//! Mach-O and COFF symbol tables give each symbol an address and no size. The
//! size of a symbol is taken to be the distance to the next greater address
//! that the table knows, so the symbols are brought into address order first.

use vstd::prelude::*;

verus! {

/// Something that lies at an address.
pub trait Addressed {
    /// The address.
    spec fn address_of(&self) -> u64;

    /// The address.
    fn address(&self) -> (a: u64)
        ensures
            a == self.address_of(),
    ;
}

/// Being at address `k`.
pub open spec fn at_address<T: Addressed>(k: u64) -> spec_fn(T) -> bool {
    |x: T| x.address_of() == k
}

/// The addresses of `items`, in the order of the items.
pub open spec fn addresses<T: Addressed>(items: Seq<T>) -> Seq<u64> {
    Seq::new(items.len(), |i: int| items[i].address_of())
}

/// No item is followed by one at a smaller address.
pub open spec fn in_address_order<T: Addressed>(items: Seq<T>) -> bool {
    forall|i: int, j: int|
        0 <= i <= j < items.len() ==> items[i].address_of() <= items[j].address_of()
}

/// `out` holds the items of `inp` in address order, and the items that share
/// an address are in the order in which `inp` has them.
pub open spec fn stable_sort_of<T: Addressed>(out: Seq<T>, inp: Seq<T>) -> bool {
    &&& out.len() == inp.len()
    &&& in_address_order(out)
    &&& forall|k: u64| #[trigger] out.filter(at_address::<T>(k)) == inp.filter(at_address::<T>(k))
}

/// The items of `items` in address order; items that share an address keep
/// their order. (There is only one such sequence: see
/// [`lemma_address_order_is_unique`].)
pub open spec fn sorted_by_address<T: Addressed>(items: Seq<T>) -> Seq<T> {
    choose|out: Seq<T>| stable_sort_of(out, items)
}

/// `b` is the least of `addresses` that is greater than `a`.
pub open spec fn is_next_address(addresses: Seq<u64>, a: u64, b: u64) -> bool {
    &&& a < b
    &&& addresses.contains(b)
    &&& forall|i: int| 0 <= i < addresses.len() && a < addresses[i] ==> b <= addresses[i]
}

/// The least of `addresses` that is greater than `a`, if any is.
pub open spec fn next_address(addresses: Seq<u64>, a: u64) -> Option<u64> {
    if exists|b: u64| is_next_address(addresses, a, b) {
        Some(choose|b: u64| is_next_address(addresses, a, b))
    } else {
        None
    }
}

/// The next address is the one that is the least greater address.
pub proof fn lemma_next_address_is(addresses: Seq<u64>, a: u64, b: u64)
    requires
        is_next_address(addresses, a, b),
    ensures
        next_address(addresses, a) == Some(b),
{
    let c = choose|c: u64| is_next_address(addresses, a, c);
    let i = choose|i: int| 0 <= i < addresses.len() && addresses[i] == b;
    let j = choose|j: int| 0 <= j < addresses.len() && addresses[j] == c;
    assert(c <= addresses[i]);
    assert(b <= addresses[j]);
}

/// There is no next address where no address is greater.
pub proof fn lemma_next_address_none(addresses: Seq<u64>, a: u64)
    requires
        forall|i: int| 0 <= i < addresses.len() ==> addresses[i] <= a,
    ensures
        next_address(addresses, a) is None,
{
    assert forall|b: u64| !is_next_address(addresses, a, b) by {
        if is_next_address(addresses, a, b) {
            let i = choose|i: int| 0 <= i < addresses.len() && addresses[i] == b;
            assert(addresses[i] <= a);
        }
    }
}

/// What the next address is, where there is one: greater than `a`, among the
/// addresses, and below every other that is greater than `a`.
pub proof fn lemma_next_address_some(addresses: Seq<u64>, a: u64)
    requires
        next_address(addresses, a) is Some,
    ensures
        is_next_address(addresses, a, next_address(addresses, a).unwrap()),
{
}

/// The next address depends on which addresses occur, not on their order or
/// on how often they occur.
pub proof fn lemma_next_address_same_members(s: Seq<u64>, t: Seq<u64>, a: u64)
    requires
        forall|x: u64| s.contains(x) <==> t.contains(x),
    ensures
        next_address(s, a) == next_address(t, a),
{
    assert forall|b: u64| is_next_address(s, a, b) implies is_next_address(t, a, b) by {
        assert(t.contains(b));
        assert forall|i: int| 0 <= i < t.len() && a < t[i] implies b <= t[i] by {
            assert(t.contains(t[i]));
            let j = choose|j: int| 0 <= j < s.len() && s[j] == t[i];
            assert(b <= s[j]);
        }
    }
    assert forall|b: u64| is_next_address(t, a, b) implies is_next_address(s, a, b) by {
        assert(s.contains(b));
        assert forall|i: int| 0 <= i < s.len() && a < s[i] implies b <= s[i] by {
            assert(s.contains(s[i]));
            let j = choose|j: int| 0 <= j < t.len() && t[j] == s[i];
            assert(b <= t[j]);
        }
    }
    if next_address(s, a) is Some {
        lemma_next_address_is(t, a, next_address(s, a).unwrap());
    } else if next_address(t, a) is Some {
        lemma_next_address_is(s, a, next_address(t, a).unwrap());
    }
}

/// Two sequences in address order that hold, at every address, the same
/// items in the same order are the same sequence.
pub proof fn lemma_address_order_is_unique<T: Addressed>(a: Seq<T>, b: Seq<T>)
    requires
        a.len() == b.len(),
        in_address_order(a),
        in_address_order(b),
        forall|k: u64| #[trigger] a.filter(at_address::<T>(k)) == b.filter(at_address::<T>(k)),
    ensures
        a == b,
    decreases a.len(),
{
    if a.len() == 0 {
        assert(a =~= b);
    } else {
        let x = a.last();
        let y = b.last();
        let a0 = a.drop_last();
        let b0 = b.drop_last();
        assert(a =~= a0.push(x));
        assert(b =~= b0.push(y));
        let ka = x.address_of();
        let kb = y.address_of();
        assert forall|k: u64|
            a.filter(at_address::<T>(k)) == (if x.address_of() == k {
                a0.filter(at_address::<T>(k)).push(x)
            } else {
                a0.filter(at_address::<T>(k))
            }) && b.filter(at_address::<T>(k)) == (if y.address_of() == k {
                b0.filter(at_address::<T>(k)).push(y)
            } else {
                b0.filter(at_address::<T>(k))
            }) by {
            a0.lemma_filter_push(x, at_address::<T>(k));
            b0.lemma_filter_push(y, at_address::<T>(k));
        }
        // The last of `b` occurs in `a`, and the last of `a` in `b`.
        assert(kb <= ka) by {
            let fa = a.filter(at_address::<T>(kb));
            let fb = b.filter(at_address::<T>(kb));
            assert(fb == b0.filter(at_address::<T>(kb)).push(y));
            assert(fb[fb.len() - 1] == y);
            assert(fa == fb);
            assert(fa.contains(y));
            a.lemma_filter_contains_rev(at_address::<T>(kb), y);
            let i = choose|i: int| 0 <= i < a.len() && a[i] == y;
            assert(a[i].address_of() <= a[a.len() - 1].address_of());
        }
        assert(ka <= kb) by {
            let fa = a.filter(at_address::<T>(ka));
            let fb = b.filter(at_address::<T>(ka));
            assert(fa == a0.filter(at_address::<T>(ka)).push(x));
            assert(fa[fa.len() - 1] == x);
            assert(fa == fb);
            assert(fb.contains(x));
            b.lemma_filter_contains_rev(at_address::<T>(ka), x);
            let i = choose|i: int| 0 <= i < b.len() && b[i] == x;
            assert(b[i].address_of() <= b[b.len() - 1].address_of());
        }
        assert(x == y && a0.filter(at_address::<T>(ka)) == b0.filter(at_address::<T>(ka))) by {
            let fa = a.filter(at_address::<T>(ka));
            let fb = b.filter(at_address::<T>(ka));
            let ga = a0.filter(at_address::<T>(ka));
            let gb = b0.filter(at_address::<T>(ka));
            assert(fa == ga.push(x));
            assert(fb == gb.push(y));
            assert(fa == fb);
            assert(fa[fa.len() - 1] == x);
            assert(fb[fb.len() - 1] == y);
            assert(ga =~= fa.drop_last());
            assert(gb =~= fb.drop_last());
        }
        assert forall|k: u64| #[trigger]
            a0.filter(at_address::<T>(k)) == b0.filter(at_address::<T>(k)) by {
            assert(a.filter(at_address::<T>(k)) == b.filter(at_address::<T>(k)));
        }
        assert(in_address_order(a0)) by {
            assert forall|i: int, j: int| 0 <= i <= j < a0.len() implies a0[i].address_of()
                <= a0[j].address_of() by {
                assert(a0[i] == a[i] && a0[j] == a[j]);
            }
        }
        assert(in_address_order(b0)) by {
            assert forall|i: int, j: int| 0 <= i <= j < b0.len() implies b0[i].address_of()
                <= b0[j].address_of() by {
                assert(b0[i] == b[i] && b0[j] == b[j]);
            }
        }
        lemma_address_order_is_unique(a0, b0);
    }
}

/// The first position at or after `from` whose item lies above the address
/// `k`, or the length where there is none.
pub open spec fn first_above<T: Addressed>(items: Seq<T>, k: u64, from: int) -> int
    decreases items.len() - from,
{
    if 0 <= from < items.len() && items[from].address_of() <= k {
        first_above(items, k, from + 1)
    } else {
        from
    }
}

proof fn lemma_first_above<T: Addressed>(items: Seq<T>, k: u64, from: int)
    requires
        0 <= from <= items.len(),
        in_address_order(items),
    ensures
        from <= first_above(items, k, from) <= items.len(),
        forall|i: int| from <= i < first_above(items, k, from) ==> items[i].address_of() <= k,
        forall|i: int| first_above(items, k, from) <= i < items.len() ==> items[i].address_of() > k,
    decreases items.len() - from,
{
    if from < items.len() && items[from].address_of() <= k {
        lemma_first_above(items, k, from + 1);
    } else if from < items.len() {
        assert forall|i: int| from <= i < items.len() implies items[i].address_of() > k by {
            assert(items[from].address_of() <= items[i].address_of());
        }
    }
}

proof fn lemma_filter_none<T>(items: Seq<T>, pred: spec_fn(T) -> bool)
    requires
        forall|i: int| 0 <= i < items.len() ==> !pred(#[trigger] items[i]),
    ensures
        items.filter(pred) == Seq::<T>::empty(),
    decreases items.len(),
{
    reveal(Seq::filter);
    if items.len() > 0 {
        assert forall|i: int| 0 <= i < items.drop_last().len() implies !pred(
            #[trigger] items.drop_last()[i],
        ) by {
            assert(items.drop_last()[i] == items[i]);
        }
        lemma_filter_none(items.drop_last(), pred);
        assert(!pred(items[items.len() - 1]));
    }
}

/// Every sequence has a sorted form: `sorted_by_address` holds the items in
/// address order, and the items that share an address in their old order.
pub proof fn lemma_sorted_by_address<T: Addressed>(items: Seq<T>)
    ensures
        stable_sort_of(sorted_by_address(items), items),
    decreases items.len(),
{
    if items.len() == 0 {
        assert(stable_sort_of(items, items));
    } else {
        let front = items.drop_last();
        let x = items.last();
        let kx = x.address_of();
        lemma_sorted_by_address(front);
        let sf = sorted_by_address(front);
        let p = first_above(sf, kx, 0);
        lemma_first_above(sf, kx, 0);
        let low = sf.subrange(0, p);
        let high = sf.subrange(p, sf.len() as int);
        let out = low.push(x) + high;
        assert(sf =~= low + high);
        assert(items =~= front.push(x));
        assert(in_address_order(out)) by {
            assert forall|i: int, j: int| 0 <= i <= j < out.len() implies out[i].address_of()
                <= out[j].address_of() by {
                if i < p {
                    assert(out[i] == sf[i]);
                }
                if i > p {
                    assert(out[i] == sf[i - 1]);
                }
                if j < p {
                    assert(out[j] == sf[j]);
                }
                if j > p {
                    assert(out[j] == sf[j - 1]);
                }
                if i < p && j > p {
                    assert(sf[i].address_of() <= sf[j - 1].address_of());
                }
                if i < p && j < p {
                    assert(sf[i].address_of() <= sf[j].address_of());
                }
                if i > p && j > p {
                    assert(sf[i - 1].address_of() <= sf[j - 1].address_of());
                }
            }
        }
        assert forall|k: u64| #[trigger]
            out.filter(at_address::<T>(k)) == items.filter(at_address::<T>(k)) by {
            let pred = at_address::<T>(k);
            assert(sf.filter(pred) == front.filter(pred));
            Seq::filter_distributes_over_add(low, high, pred);
            Seq::filter_distributes_over_add(low.push(x), high, pred);
            low.lemma_filter_push(x, pred);
            front.lemma_filter_push(x, pred);
            if k == kx {
                assert forall|i: int| 0 <= i < high.len() implies !pred(#[trigger] high[i]) by {
                    assert(high[i] == sf[p + i]);
                }
                lemma_filter_none(high, pred);
                assert(low.filter(pred) + Seq::<T>::empty() =~= low.filter(pred));
                assert(low.filter(pred).push(x) + Seq::<T>::empty() =~= low.filter(pred).push(x));
            }
        }
        assert(stable_sort_of(out, items));
    }
}

/// A sequence that is in address order is its own sorted form.
pub proof fn lemma_sorted_already<T: Addressed>(items: Seq<T>)
    requires
        in_address_order(items),
    ensures
        sorted_by_address(items) == items,
{
    assert(stable_sort_of(items, items));
    lemma_sorted_is(items, items);
}

/// A sequence that holds the items in address order, items at one address in
/// their old order, is the sorted form.
pub proof fn lemma_sorted_is<T: Addressed>(out: Seq<T>, items: Seq<T>)
    requires
        stable_sort_of(out, items),
    ensures
        sorted_by_address(items) == out,
{
    let chosen = sorted_by_address(items);
    assert(stable_sort_of(chosen, items));
    assert forall|k: u64| #[trigger]
        chosen.filter(at_address::<T>(k)) == out.filter(at_address::<T>(k)) by {
        assert(chosen.filter(at_address::<T>(k)) == items.filter(at_address::<T>(k)));
        assert(out.filter(at_address::<T>(k)) == items.filter(at_address::<T>(k)));
    }
    lemma_address_order_is_unique(chosen, out);
}

/// Sorting keeps the addresses that occur.
pub proof fn lemma_sorted_same_addresses<T: Addressed>(out: Seq<T>, items: Seq<T>)
    requires
        stable_sort_of(out, items),
    ensures
        forall|x: u64| addresses(out).contains(x) <==> addresses(items).contains(x),
{
    assert forall|x: u64| addresses(out).contains(x) <==> addresses(items).contains(x) by {
        assert(out.filter(at_address::<T>(x)) == items.filter(at_address::<T>(x)));
        if addresses(out).contains(x) {
            let i = choose|i: int| 0 <= i < addresses(out).len() && addresses(out)[i] == x;
            lemma_member_at_address(out, items, i);
        }
        if addresses(items).contains(x) {
            let i = choose|i: int| 0 <= i < addresses(items).len() && addresses(items)[i] == x;
            lemma_member_at_address(items, out, i);
        }
    }
}

/// Sorting keeps the items that occur.
pub proof fn lemma_sorted_same_items<T: Addressed>(out: Seq<T>, items: Seq<T>)
    requires
        stable_sort_of(out, items),
    ensures
        forall|i: int| 0 <= i < out.len() ==> items.contains(#[trigger] out[i]),
        forall|i: int| 0 <= i < items.len() ==> out.contains(#[trigger] items[i]),
{
    assert forall|i: int| 0 <= i < out.len() implies items.contains(#[trigger] out[i]) by {
        let p = at_address::<T>(out[i].address_of());
        assert(out.filter(p) == items.filter(p));
        assert(p(out[i]));
        out.lemma_filter_contains(p, i);
        items.lemma_filter_contains_rev(p, out[i]);
    }
    assert forall|i: int| 0 <= i < items.len() implies out.contains(#[trigger] items[i]) by {
        let p = at_address::<T>(items[i].address_of());
        assert(out.filter(p) == items.filter(p));
        assert(p(items[i]));
        items.lemma_filter_contains(p, i);
        out.lemma_filter_contains_rev(p, items[i]);
    }
}

proof fn lemma_member_at_address<T: Addressed>(s: Seq<T>, t: Seq<T>, i: int)
    requires
        0 <= i < s.len(),
        s.filter(at_address::<T>(s[i].address_of())) == t.filter(
            at_address::<T>(s[i].address_of()),
        ),
    ensures
        addresses(t).contains(s[i].address_of()),
{
    let k = s[i].address_of();
    let p = at_address::<T>(k);
    assert(p(s[i]));
    s.lemma_filter_contains(p, i);
    t.lemma_filter_contains_rev(p, s[i]);
    let j = choose|j: int| 0 <= j < t.len() && t[j] == s[i];
    assert(addresses(t)[j] == k);
}

/// `[T]::sort_by_key`, with the address as the key: the standard library's
/// stable sort. Afterwards the items are in ascending order of their
/// addresses, none is lost or added, and items with equal addresses are in
/// the order they had.
#[verifier::external_body]
fn sort_by_key_address<T: Addressed>(items: &mut Vec<T>)
    ensures
        stable_sort_of(final(items)@, old(items)@),
{
    items.sort_by_key(|x| x.address());
}

/// Brings `items` into address order. Items that share an address keep their
/// order.
pub fn sort_by_address<T: Addressed>(items: &mut Vec<T>)
    ensures
        final(items)@ == sorted_by_address(old(items)@),
        stable_sort_of(final(items)@, old(items)@),
{
    sort_by_key_address(items);
    proof {
        lemma_sorted_is(items@, old(items)@);
    }
}

/// What one more address does to the next address.
pub proof fn lemma_next_address_push(s: Seq<u64>, end: u64, a: u64)
    ensures
        next_address(s.push(end), a) == (match next_address(s, a) {
            Some(b) => if a < end && end < b {
                Some(end)
            } else {
                Some(b)
            },
            None => if a < end {
                Some(end)
            } else {
                None
            },
        }),
{
    let t = s.push(end);
    assert(t[s.len() as int] == end);
    assert forall|i: int| 0 <= i < s.len() implies t[i] == s[i] by {}
    match next_address(s, a) {
        Some(b) => {
            let i = choose|i: int| 0 <= i < s.len() && s[i] == b;
            assert(t[i] == b);
            if a < end && end < b {
                lemma_next_address_is(t, a, end);
            } else {
                lemma_next_address_is(t, a, b);
            }
        },
        None => {
            assert forall|i: int| 0 <= i < s.len() implies s[i] <= a by {
                if a < s[i] {
                    lemma_least_above_exists(s, a, i);
                }
            }
            if a < end {
                lemma_next_address_is(t, a, end);
            } else {
                lemma_next_address_none(t, a);
            }
        },
    }
}

/// Where some address is greater than `a`, there is a least one.
proof fn lemma_least_above_exists(s: Seq<u64>, a: u64, i: int)
    requires
        0 <= i < s.len(),
        a < s[i],
    ensures
        next_address(s, a) is Some,
    decreases s[i] - a,
{
    if exists|j: int| 0 <= j < s.len() && a < s[j] && s[j] < s[i] {
        let j = choose|j: int| 0 <= j < s.len() && a < s[j] && s[j] < s[i];
        lemma_least_above_exists(s, a, j);
    } else {
        assert(is_next_address(s, a, s[i]));
    }
}

/// The first address after position `i` that differs from the one at `i`.
/// In a list in address order that is the next greater address that occurs.
pub fn next_distinct<T: Addressed>(items: &Vec<T>, i: usize) -> (next: Option<u64>)
    requires
        in_address_order(items@),
        i < items@.len(),
    ensures
        next == next_address(addresses(items@), items@[i as int].address_of()),
{
    let count = items.len();
    let own = items[i].address();
    let mut j: usize = i + 1;
    while j < count && items[j].address() == own
        invariant
            count == items@.len(),
            i < j <= items@.len(),
            own == items@[i as int].address_of(),
            in_address_order(items@),
            forall|m: int| i <= m < j ==> items@[m].address_of() == own,
        decreases items@.len() - j,
    {
        j = j + 1;
    }
    let ghost all = addresses(items@);
    if j < count {
        let found = items[j].address();
        proof {
            assert(all[j as int] == found);
            assert forall|m: int| 0 <= m < all.len() && own < all[m] implies found <= all[m] by {
                if m < j {
                    if m < i {
                        assert(items@[m].address_of() <= items@[i as int].address_of());
                    }
                } else {
                    assert(items@[j as int].address_of() <= items@[m].address_of());
                }
            }
            assert(items@[i as int].address_of() <= items@[j as int].address_of());
            lemma_next_address_is(all, own, found);
        }
        Some(found)
    } else {
        proof {
            assert forall|m: int| 0 <= m < all.len() implies all[m] <= own by {
                if m < i {
                    assert(items@[m].address_of() <= items@[i as int].address_of());
                }
            }
            lemma_next_address_none(all, own);
        }
        None
    }
}

/// The size that a symbol at address `a` gets where the end of the code,
/// `end`, counts as one more address: the distance to the next greater
/// address, and zero where there is none.
pub open spec fn size_among(addresses: Seq<u64>, end: u64, a: u64) -> u64 {
    match next_address(addresses.push(end), a) {
        Some(b) => (b - a) as u64,
        None => 0,
    }
}

/// The size that a symbol at address `a` gets where the end of the code,
/// `end`, only bounds the symbols that have no greater address after them:
/// the distance to the next greater address, else the distance to `end`,
/// and nothing where `end` is not greater than `a`.
pub open spec fn size_before(addresses: Seq<u64>, end: u64, a: u64) -> Option<u64> {
    match next_address(addresses, a) {
        Some(b) => Some((b - a) as u64),
        None => if a < end {
            Some((end - a) as u64)
        } else {
            None
        },
    }
}

/// The sizes depend on which addresses occur, not on their order or on how
/// often they occur.
pub proof fn lemma_sizes_same_members(s: Seq<u64>, t: Seq<u64>, end: u64, a: u64)
    requires
        forall|x: u64| s.contains(x) <==> t.contains(x),
    ensures
        size_among(s, end, a) == size_among(t, end, a),
        size_before(s, end, a) == size_before(t, end, a),
{
    lemma_next_address_same_members(s, t, a);
    lemma_next_address_push(s, end, a);
    lemma_next_address_push(t, end, a);
}

/// Computes [`size_among`] for the item at position `i` of a list in address
/// order.
pub fn distance_among<T: Addressed>(items: &Vec<T>, i: usize, end: u64) -> (size: u64)
    requires
        in_address_order(items@),
        i < items@.len(),
    ensures
        size == size_among(addresses(items@), end, items@[i as int].address_of()),
{
    let own = items[i].address();
    proof {
        lemma_next_address_push(addresses(items@), end, own);
    }
    match next_distinct(items, i) {
        Some(b) => {
            proof {
                lemma_next_address_some(addresses(items@), own);
            }
            if own < end && end < b {
                end - own
            } else {
                b - own
            }
        },
        None => if own < end {
            end - own
        } else {
            0
        },
    }
}

/// Computes [`size_before`] for the item at position `i` of a list in address
/// order.
pub fn distance_before<T: Addressed>(items: &Vec<T>, i: usize, end: u64) -> (size: Option<u64>)
    requires
        in_address_order(items@),
        i < items@.len(),
    ensures
        size == size_before(addresses(items@), end, items@[i as int].address_of()),
{
    let own = items[i].address();
    match next_distinct(items, i) {
        Some(b) => {
            proof {
                lemma_next_address_some(addresses(items@), own);
            }
            Some(b - own)
        },
        None => if own < end {
            Some(end - own)
        } else {
            None
        },
    }
}

/// Each address is smaller than the one after it.
pub open spec fn strictly_increasing(addresses: Seq<u64>) -> bool {
    forall|i: int, j: int| 0 <= i < j < addresses.len() ==> addresses[i] < addresses[j]
}

/// Where the addresses strictly increase and the code ends after the last
/// of them, the size of each symbol is the distance to the address that
/// follows it, and the size of the last one is the distance to the end of
/// the code. Both ways of taking sizes agree on that.
pub proof fn lemma_sizes_of_increasing_addresses(addresses: Seq<u64>, end: u64, i: int)
    requires
        strictly_increasing(addresses),
        0 <= i < addresses.len(),
        addresses.last() < end,
    ensures
        i + 1 < addresses.len() ==> size_before(addresses, end, addresses[i]) == Some(
            (addresses[i + 1] - addresses[i]) as u64,
        ) && size_among(addresses, end, addresses[i]) == addresses[i + 1] - addresses[i],
        i + 1 == addresses.len() ==> size_before(addresses, end, addresses[i]) == Some(
            (end - addresses[i]) as u64,
        ) && size_among(addresses, end, addresses[i]) == end - addresses[i],
{
    let own = addresses[i];
    lemma_next_address_push(addresses, end, own);
    if i + 1 < addresses.len() {
        let next = addresses[i + 1];
        assert forall|m: int| 0 <= m < addresses.len() && own < addresses[m] implies next
            <= addresses[m] by {
            if m <= i {
                if m < i {
                    assert(addresses[m] < addresses[i]);
                }
            } else if m > i + 1 {
                assert(addresses[i + 1] < addresses[m]);
            }
        }
        assert(addresses.contains(next));
        lemma_next_address_is(addresses, own, next);
        assert(addresses[i + 1] <= addresses[addresses.len() - 1]) by {
            if i + 1 < addresses.len() - 1 {
                assert(addresses[i + 1] < addresses[addresses.len() - 1]);
            }
        }
    } else {
        assert forall|m: int| 0 <= m < addresses.len() implies addresses[m] <= own by {
            if m < i {
                assert(addresses[m] < addresses[i]);
            }
        }
        lemma_next_address_none(addresses, own);
    }
}

/// A size is never taken against an equal address. Where a symbol at `a`
/// gets the size `s`, then `s` is not zero, `a + s` is an address that
/// occurs or the end of the code, and no address that occurs lies between
/// `a` and `a + s`: however many symbols share the address `a`, each gets the
/// distance to the next address that differs.
pub proof fn lemma_size_reaches_the_next_address(addresses: Seq<u64>, end: u64, a: u64)
    ensures
        size_before(addresses, end, a) matches Some(s) ==> {
            &&& s > 0
            &&& addresses.contains((a + s) as u64) || a + s == end
            &&& forall|i: int| 0 <= i < addresses.len() ==> !(a < #[trigger] addresses[i] < a + s)
        },
        size_before(addresses, end, a) is None ==> end <= a && forall|i: int|
            0 <= i < addresses.len() ==> #[trigger] addresses[i] <= a,
        size_among(addresses, end, a) > 0 ==> {
            let s = size_among(addresses, end, a);
            &&& addresses.contains((a + s) as u64) || a + s == end
            &&& forall|i: int| 0 <= i < addresses.len() ==> !(a < #[trigger] addresses[i] < a + s)
            &&& !(a < end < a + s)
        },
        size_among(addresses, end, a) == 0 ==> end <= a && forall|i: int|
            0 <= i < addresses.len() ==> #[trigger] addresses[i] <= a,
{
    lemma_next_address_push(addresses, end, a);
    match next_address(addresses, a) {
        Some(b) => {
            lemma_next_address_some(addresses, a);
        },
        None => {
            assert forall|i: int| 0 <= i < addresses.len() implies #[trigger] addresses[i] <= a by {
                if a < addresses[i] {
                    lemma_least_above_exists(addresses, a, i);
                }
            }
        },
    }
}

} // verus!
