//! Sorting records by an order that the caller gives.

use std::cmp::Ordering;
use vstd::prelude::*;

verus! {

/// Whether `le` is a total preorder: of any two items one is no greater than
/// the other, and an item that is no greater than a second, which is no
/// greater than a third, is no greater than the third.
pub open spec fn is_total_preorder<T>(le: spec_fn(T, T) -> bool) -> bool {
    &&& forall|a: T, b: T| #[trigger] le(a, b) || #[trigger] le(b, a)
    &&& forall|a: T, b: T, c: T| #[trigger] le(a, b) && #[trigger] le(b, c) ==> le(a, c)
}

/// Whether `order` compares as `le` says: whatever it answers for `a` and
/// `b`, it answers `Less` exactly where `a` is strictly below `b`, and
/// `Greater` exactly where `a` is strictly above `b`.
pub open spec fn agrees<T, O: Fn(&T, &T) -> Ordering>(order: O, le: spec_fn(T, T) -> bool) -> bool {
    forall|a: T, b: T, answer: Ordering| #[trigger]
        call_ensures(order, (&a, &b), answer) ==> {
            &&& answer == Ordering::Less <==> le(a, b) && !le(b, a)
            &&& answer == Ordering::Greater <==> le(b, a) && !le(a, b)
        }
}

/// Whether `sorted` holds the items of `items` in another arrangement, in
/// which `sorted[i]` is the item that stood at `source[i]` in `items`.
pub open spec fn rearranges<T>(items: Seq<T>, sorted: Seq<T>, source: Seq<int>) -> bool {
    &&& sorted.len() == items.len()
    &&& source.len() == items.len()
    &&& source.no_duplicates()
    &&& forall|i: int|
        0 <= i < source.len() ==> 0 <= #[trigger] source[i] < items.len() && sorted[i]
            == items[source[i]]
}

/// Whether the first `n` items of `sorted` stand in the order `le`, and those
/// that `le` ranks alike stand as they stood at first: an item is no greater
/// than those that follow it, and where one that follows is no greater
/// either, it stood later at first.
pub open spec fn in_order_up_to<T>(
    le: spec_fn(T, T) -> bool,
    sorted: Seq<T>,
    source: Seq<int>,
    n: int,
) -> bool {
    forall|i: int, j: int|
        #![trigger sorted[i], sorted[j]]
        0 <= i < j < n ==> {
            &&& le(sorted[i], sorted[j])
            &&& le(sorted[j], sorted[i]) ==> source[i] < source[j]
        }
}

/// Whether `sorted` stands in the order `le`, and the items that `le` ranks
/// alike stand as they stood at first.
pub open spec fn in_order<T>(le: spec_fn(T, T) -> bool, sorted: Seq<T>, source: Seq<int>) -> bool {
    in_order_up_to(le, sorted, source, sorted.len() as int)
}

/// Whether `sorted` is `items` sorted by `order`: it holds the same items,
/// and, for every total preorder that `order` compares by, it holds them in
/// that order, with the items that rank alike in the arrangement that they
/// have in `items`.
pub open spec fn is_stable_sort<T, O: Fn(&T, &T) -> Ordering>(
    items: Seq<T>,
    order: O,
    sorted: Seq<T>,
) -> bool {
    exists|source: Seq<int>|
        {
            &&& #[trigger] rearranges(items, sorted, source)
            &&& forall|le: spec_fn(T, T) -> bool|
                #[trigger] agrees(order, le) && is_total_preorder(le) ==> in_order(
                    le,
                    sorted,
                    source,
                )
        }
}

/// What moving the item at `d` down to `p` makes of a sequence.
spec fn moved_down<T>(s: Seq<T>, d: int, p: int) -> Seq<T> {
    Seq::new(
        s.len(),
        |i: int|
            if i < p {
                s[i]
            } else if i == p {
                s[d]
            } else if i <= d {
                s[i - 1]
            } else {
                s[i]
            },
    )
}

/// Taking the item at `d` out and putting it in at `p` moves it down.
proof fn lemma_moved_down<T>(s: Seq<T>, d: int, p: int)
    requires
        0 <= p <= d < s.len(),
    ensures
        s.remove(d).insert(p, s[d]) == moved_down(s, d, p),
{
    assert(s.remove(d).insert(p, s[d]) =~= moved_down(s, d, p));
}

/// Moving the item that follows the sorted part down leaves the same items.
proof fn lemma_move_rearranges<T>(items: Seq<T>, current: Seq<T>, source: Seq<int>, d: int, p: int)
    requires
        0 <= p <= d < current.len(),
        rearranges(items, current, source),
        forall|i: int| d <= i < source.len() ==> #[trigger] source[i] == i,
        forall|i: int| 0 <= i < d ==> #[trigger] source[i] < d,
    ensures
        rearranges(items, moved_down(current, d, p), moved_down(source, d, p)),
        forall|i: int| d + 1 <= i < source.len() ==> #[trigger] moved_down(source, d, p)[i] == i,
        forall|i: int| 0 <= i < d + 1 ==> #[trigger] moved_down(source, d, p)[i] < d + 1,
{
    let sorted = moved_down(current, d, p);
    let origin = moved_down(source, d, p);
    let back = |i: int|
        if i < p {
            i
        } else if i == p {
            d
        } else if i <= d {
            i - 1
        } else {
            i
        };
    assert forall|i: int, j: int| 0 <= i < origin.len() && 0 <= j < origin.len() && i
        != j implies origin[i] != origin[j] by {
        assert(origin[i] == source[back(i)]);
        assert(origin[j] == source[back(j)]);
        assert(back(i) != back(j));
    }
    assert forall|i: int| 0 <= i < origin.len() implies 0 <= #[trigger] origin[i] < items.len()
        && sorted[i] == items[origin[i]] by {
        assert(origin[i] == source[back(i)]);
        assert(sorted[i] == current[back(i)]);
    }
    assert forall|i: int| 0 <= i < d + 1 implies #[trigger] origin[i] < d + 1 by {
        assert(origin[i] == source[back(i)]);
    }
}

/// Moving the item that follows a sorted part down to its place leaves a
/// sorted part that is longer by one.
proof fn lemma_move_keeps_order<T>(
    le: spec_fn(T, T) -> bool,
    current: Seq<T>,
    source: Seq<int>,
    d: int,
    p: int,
)
    requires
        0 <= p <= d < current.len(),
        current.len() == source.len(),
        source[d] == d,
        forall|i: int| 0 <= i < d ==> #[trigger] source[i] < d,
        is_total_preorder(le),
        in_order_up_to(le, current, source, d),
        forall|j: int|
            p <= j < d ==> le(current[d], #[trigger] current[j]) && !le(current[j], current[d]),
        p > 0 ==> le(current[p - 1], current[d]),
    ensures
        in_order_up_to(le, moved_down(current, d, p), moved_down(source, d, p), d + 1),
{
    let sorted = moved_down(current, d, p);
    let origin = moved_down(source, d, p);
    let item = current[d];
    assert forall|i: int, j: int| 0 <= i < j < d + 1 implies {
        &&& le(#[trigger] sorted[i], #[trigger] sorted[j])
        &&& le(sorted[j], sorted[i]) ==> origin[i] < origin[j]
    } by {
        if i == p {
            let other = current[j - 1];
            assert(sorted[j] == other);
            assert(le(item, other) && !le(other, item));
        } else if j == p {
            let other = current[i];
            assert(sorted[i] == other);
            assert(origin[i] == source[i]);
            if i < p - 1 {
                let last = current[p - 1];
                assert(le(other, last));
                assert(le(last, item));
            }
        } else {
            let a = if i < p {
                i
            } else {
                i - 1
            };
            let b = if j < p {
                j
            } else {
                j - 1
            };
            assert(sorted[i] == current[a] && sorted[j] == current[b]);
            assert(origin[i] == source[a] && origin[j] == source[b]);
            assert(le(current[a], current[b]));
        }
    }
}

/// Sorts `items` by `order`, leaving items that rank alike in the order in
/// which they stood.
pub fn sort_by<T, O: Fn(&T, &T) -> Ordering>(items: &mut Vec<T>, order: &O)
    requires
        forall|a: &T, b: &T| call_requires(*order, (a, b)),
    ensures
        is_stable_sort(old(items)@, *order, final(items)@),
{
    let ghost all = items@;
    let ghost mut source: Seq<int> = Seq::new(items@.len(), |i: int| i);
    let ghost mut sorted: int = 0;
    let mut done: usize = 0;
    while done < items.len()
        invariant
            all == old(items)@,
            done <= items.len(),
            sorted == done,
            forall|a: &T, b: &T| call_requires(*order, (a, b)),
            rearranges(all, items@, source),
            forall|i: int| done <= i < source.len() ==> #[trigger] source[i] == i,
            forall|i: int| 0 <= i < done ==> #[trigger] source[i] < done,
            forall|le: spec_fn(T, T) -> bool|
                #[trigger] agrees(*order, le) && is_total_preorder(le) ==> in_order_up_to(
                    le,
                    items@,
                    source,
                    sorted,
                ),
        decreases items.len() - done,
    {
        let ghost current = items@;
        let ghost origin = source;
        let item = items.remove(done);
        let mut place: usize = done;
        let ghost mut at: int = sorted;
        let mut searching: bool = true;
        while searching && place > 0
            invariant
                place <= done,
                done < current.len(),
                at == place,
                sorted == done,
                item == current[sorted],
                items@ == current.remove(sorted),
                forall|a: &T, b: &T| call_requires(*order, (a, b)),
                forall|j: int|
                    at <= j < sorted ==> call_ensures(
                        *order,
                        (&item, &#[trigger] current[j]),
                        Ordering::Less,
                    ),
                !searching ==> at > 0 && exists|answer: Ordering| #[trigger]
                    call_ensures(*order, (&item, &current[at - 1]), answer) && answer
                        != Ordering::Less,
            decreases (if searching { place + 1 } else { place + 0 }),
        {
            assert(items@[at - 1] == current[at - 1]);
            match order(&item, &items[place - 1]) {
                Ordering::Less => {
                    place = place - 1;
                    proof {
                        at = at - 1;
                    }
                },
                _ => {
                    searching = false;
                },
            }
        }
        items.insert(place, item);
        proof {
            lemma_moved_down(current, sorted, at);
            lemma_move_rearranges(all, current, origin, sorted, at);
            source = moved_down(origin, sorted, at);
            assert forall|le: spec_fn(T, T) -> bool|
                #[trigger] agrees(*order, le) && is_total_preorder(le) implies in_order_up_to(
                le,
                items@,
                source,
                sorted + 1,
            ) by {
                assert forall|j: int| at <= j < sorted implies le(item, #[trigger] current[j])
                    && !le(current[j], item) by {
                    assert(call_ensures(*order, (&item, &current[j]), Ordering::Less));
                }
                if at > 0 {
                    let answer = choose|answer: Ordering| #[trigger]
                        call_ensures(*order, (&item, &current[at - 1]), answer) && answer
                            != Ordering::Less;
                    assert(le(current[at - 1], item));
                }
                lemma_move_keeps_order(le, current, origin, sorted, at);
            }
            sorted = sorted + 1;
        }
        done = done + 1;
    }
    assert(rearranges(all, items@, source));
}

} // verus!
