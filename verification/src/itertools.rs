//! Stream combinators: a fold that remembers a state between items, the
//! merging of neighbours built on it, and the replacement of fixed-width
//! windows.
//!
//! Each combinator takes the whole stream as a `Vec` and walks it once, front
//! to back. What a combinator returns depends on what the closures handed to
//! it return, so each contract is a relation between the input, the output
//! and the closures' own postconditions. For closures that compute a
//! function, lemmas turn the relation into an equation.
//!
//! A combinator asks of its closures only that they accept what it hands
//! them: the state and the pending item that the closures' own results lead
//! to (`stateful_ok`, `combine_ok`), and windows of the given width.

use vstd::prelude::*;
use std::collections::VecDeque;

verus! {

/// `out` is what `stateful` may yield for `items` when it starts in `state`:
/// each item's output in turn, the state handed on, and at the end whatever
/// `last` makes of the final state.
pub open spec fn stateful_rel<T, St, B, F: Fn(St, T) -> (St, B), L: FnOnce(St) -> Option<B>>(
    map: F,
    last: L,
    state: St,
    items: Seq<T>,
    out: Seq<B>,
) -> bool
    decreases items.len(),
{
    if items.len() == 0 {
        exists|fin: Option<B>| #[trigger]
            last.ensures((state,), fin) && out == match fin {
                Some(b) => seq![b],
                None => Seq::empty(),
            }
    } else {
        exists|next: (St, B)| #[trigger]
            map.ensures((state, items[0]), next) && out.len() > 0 && out[0] == next.1
                && stateful_rel(map, last, next.0, items.skip(1), out.skip(1))
    }
}

/// `stateful` may be called on `items` from `state`: `map` accepts each
/// item with the state that it is handed with, whatever `map` returned for
/// the items before, and `last` accepts the final state.
pub open spec fn stateful_ok<T, St, B, F: Fn(St, T) -> (St, B), L: FnOnce(St) -> Option<B>>(
    map: F,
    last: L,
    state: St,
    items: Seq<T>,
) -> bool
    decreases items.len(),
{
    if items.len() == 0 {
        last.requires((state,))
    } else {
        map.requires((state, items[0])) && forall|next: (St, B)| #[trigger]
            map.ensures((state, items[0]), next) ==> stateful_ok(
                map,
                last,
                next.0,
                items.skip(1),
            )
    }
}

/// `out` is what `combine` may yield for `items` when the pending item is
/// `carry`: a merged pair stays pending, an unmerged carry is yielded and
/// the item takes its place, and the last carry is yielded at the end.
pub open spec fn combine_rel<T, F: Fn(&T, &T) -> Option<T>>(
    combinator: F,
    carry: T,
    items: Seq<T>,
    out: Seq<T>,
) -> bool
    decreases items.len(),
{
    if items.len() == 0 {
        out == seq![carry]
    } else {
        exists|merged: Option<T>| #[trigger]
            combinator.ensures((&carry, &items[0]), merged) && match merged {
                Some(m) => combine_rel(combinator, m, items.skip(1), out),
                None => out.len() > 0 && out[0] == carry && combine_rel(
                    combinator,
                    items[0],
                    items.skip(1),
                    out.skip(1),
                ),
            }
    }
}

/// `combine` may be called on `items` with `carry` pending: `combinator`
/// accepts each item with the item that is then pending, whatever it
/// returned for the items before.
pub open spec fn combine_ok<T, F: Fn(&T, &T) -> Option<T>>(
    combinator: F,
    carry: T,
    items: Seq<T>,
) -> bool
    decreases items.len(),
{
    items.len() == 0 || (combinator.requires((&carry, &items[0])) && forall|merged: Option<T>|
     #[trigger]
        combinator.ensures((&carry, &items[0]), merged) ==> combine_ok(
            combinator,
            match merged {
                Some(m) => m,
                None => items[0],
            },
            items.skip(1),
        ))
}

/// `out` is what `replace_sized_pattern` may yield for `items`: where the
/// matcher accepts the first `size` items they give way to its replacement,
/// where it does not the first item passes, and fewer than `size` items pass
/// unchanged.
pub open spec fn replace_rel<T, M: Fn(&VecDeque<T>) -> Option<T>>(
    matcher: M,
    size: nat,
    items: Seq<T>,
    out: Seq<T>,
) -> bool
    decreases items.len(),
{
    if size == 0 || items.len() < size {
        out == items
    } else {
        exists|window: VecDeque<T>, found: Option<T>| #[trigger]
            matcher.ensures((&window,), found) && window@ == items.take(size as int) && out.len()
                > 0 && match found {
                Some(r) => out[0] == r && replace_rel(
                    matcher,
                    size,
                    items.skip(size as int),
                    out.skip(1),
                ),
                None => out[0] == items[0] && replace_rel(
                    matcher,
                    size,
                    items.skip(1),
                    out.skip(1),
                ),
            }
    }
}

/// The items of `s` that are there, in order.
pub open spec fn present<T>(s: Seq<Option<T>>) -> Seq<T>
    decreases s.len(),
{
    if s.len() == 0 {
        Seq::empty()
    } else {
        match s[0] {
            Some(x) => seq![x] + present(s.skip(1)),
            None => present(s.skip(1)),
        }
    }
}

/// What `combine` yields when merging is the function `f`.
pub open spec fn combine_seq<T>(f: spec_fn(T, T) -> Option<T>, carry: T, items: Seq<T>) -> Seq<
    T,
>
    decreases items.len(),
{
    if items.len() == 0 {
        seq![carry]
    } else {
        match f(carry, items[0]) {
            Some(m) => combine_seq(f, m, items.skip(1)),
            None => seq![carry] + combine_seq(f, items[0], items.skip(1)),
        }
    }
}

/// What `replace_sized_pattern` yields when matching is the function `g`.
pub open spec fn replace_seq<T>(g: spec_fn(Seq<T>) -> Option<T>, size: nat, items: Seq<T>) -> Seq<
    T,
>
    decreases items.len(),
{
    if size == 0 || items.len() < size {
        items
    } else {
        match g(items.take(size as int)) {
            Some(r) => seq![r] + replace_seq(g, size, items.skip(size as int)),
            None => seq![items[0]] + replace_seq(g, size, items.skip(1)),
        }
    }
}

/// Where every result of `combinator` is `f` of its arguments, the only
/// stream that `combine` may yield is `combine_seq`.
pub proof fn lemma_combine_function<T, F: Fn(&T, &T) -> Option<T>>(
    combinator: F,
    f: spec_fn(T, T) -> Option<T>,
    carry: T,
    items: Seq<T>,
    out: Seq<T>,
)
    requires
        forall|a: T, b: T, r: Option<T>| #[trigger]
            combinator.ensures((&a, &b), r) ==> r == f(a, b),
        combine_rel(combinator, carry, items, out),
    ensures
        out == combine_seq(f, carry, items),
    decreases items.len(),
{
    if items.len() > 0 {
        let merged = choose|merged: Option<T>| #[trigger]
            combinator.ensures((&carry, &items[0]), merged) && match merged {
                Some(m) => combine_rel(combinator, m, items.skip(1), out),
                None => out.len() > 0 && out[0] == carry && combine_rel(
                    combinator,
                    items[0],
                    items.skip(1),
                    out.skip(1),
                ),
            };
        match merged {
            Some(m) => {
                lemma_combine_function(combinator, f, m, items.skip(1), out);
            },
            None => {
                lemma_combine_function(combinator, f, items[0], items.skip(1), out.skip(1));
                assert(out =~= seq![carry] + out.skip(1));
            },
        }
    }
}

/// Where every result of `matcher` is `g` of the window it was shown, the
/// only stream that `replace_sized_pattern` may yield is `replace_seq`.
pub proof fn lemma_replace_function<T, M: Fn(&VecDeque<T>) -> Option<T>>(
    matcher: M,
    g: spec_fn(Seq<T>) -> Option<T>,
    size: nat,
    items: Seq<T>,
    out: Seq<T>,
)
    requires
        forall|w: VecDeque<T>, r: Option<T>| #[trigger]
            matcher.ensures((&w,), r) ==> r == g(w@),
        replace_rel(matcher, size, items, out),
    ensures
        out == replace_seq(g, size, items),
    decreases items.len(),
{
    if !(size == 0 || items.len() < size) {
        let (window, found) = choose|window: VecDeque<T>, found: Option<T>| #[trigger]
            matcher.ensures((&window,), found) && window@ == items.take(size as int) && out.len()
                > 0 && match found {
                Some(r) => out[0] == r && replace_rel(
                    matcher,
                    size,
                    items.skip(size as int),
                    out.skip(1),
                ),
                None => out[0] == items[0] && replace_rel(
                    matcher,
                    size,
                    items.skip(1),
                    out.skip(1),
                ),
            };
        match found {
            Some(r) => {
                lemma_replace_function(matcher, g, size, items.skip(size as int), out.skip(1));
                assert(out =~= seq![r] + out.skip(1));
            },
            None => {
                lemma_replace_function(matcher, g, size, items.skip(1), out.skip(1));
                assert(out =~= seq![items[0]] + out.skip(1));
            },
        }
    }
}

/// `combine` yields at least one item and at most one more than it took.
pub proof fn lemma_combine_len<T, F: Fn(&T, &T) -> Option<T>>(
    combinator: F,
    carry: T,
    items: Seq<T>,
    out: Seq<T>,
)
    requires
        combine_rel(combinator, carry, items, out),
    ensures
        1 <= out.len() <= items.len() + 1,
    decreases items.len(),
{
    if items.len() > 0 {
        let merged = choose|merged: Option<T>| #[trigger]
            combinator.ensures((&carry, &items[0]), merged) && match merged {
                Some(m) => combine_rel(combinator, m, items.skip(1), out),
                None => out.len() > 0 && out[0] == carry && combine_rel(
                    combinator,
                    items[0],
                    items.skip(1),
                    out.skip(1),
                ),
            };
        match merged {
            Some(m) => {
                lemma_combine_len(combinator, m, items.skip(1), out);
            },
            None => {
                lemma_combine_len(combinator, items[0], items.skip(1), out.skip(1));
            },
        }
    }
}

/// `replace_sized_pattern` yields no more items than it took.
pub proof fn lemma_replace_len<T, M: Fn(&VecDeque<T>) -> Option<T>>(
    matcher: M,
    size: nat,
    items: Seq<T>,
    out: Seq<T>,
)
    requires
        size > 0,
        replace_rel(matcher, size, items, out),
    ensures
        out.len() <= items.len(),
    decreases items.len(),
{
    if items.len() >= size {
        let (window, found) = choose|window: VecDeque<T>, found: Option<T>| #[trigger]
            matcher.ensures((&window,), found) && window@ == items.take(size as int) && out.len()
                > 0 && match found {
                Some(r) => out[0] == r && replace_rel(
                    matcher,
                    size,
                    items.skip(size as int),
                    out.skip(1),
                ),
                None => out[0] == items[0] && replace_rel(
                    matcher,
                    size,
                    items.skip(1),
                    out.skip(1),
                ),
            };
        match found {
            Some(r) => {
                lemma_replace_len(matcher, size, items.skip(size as int), out.skip(1));
            },
            None => {
                lemma_replace_len(matcher, size, items.skip(1), out.skip(1));
            },
        }
    }
}

/// `combine_seq` yields at least one item and at most one more than it took.
pub proof fn lemma_combine_seq_len<T>(f: spec_fn(T, T) -> Option<T>, carry: T, items: Seq<T>)
    ensures
        1 <= combine_seq(f, carry, items).len() <= items.len() + 1,
    decreases items.len(),
{
    if items.len() > 0 {
        match f(carry, items[0]) {
            Some(m) => {
                lemma_combine_seq_len(f, m, items.skip(1));
            },
            None => {
                lemma_combine_seq_len(f, items[0], items.skip(1));
            },
        }
    }
}

/// `replace_seq` yields no more items than it took.
pub proof fn lemma_replace_seq_len<T>(g: spec_fn(Seq<T>) -> Option<T>, size: nat, items: Seq<T>)
    requires
        size > 0,
    ensures
        replace_seq(g, size, items).len() <= items.len(),
    decreases items.len(),
{
    if items.len() >= size {
        match g(items.take(size as int)) {
            Some(r) => {
                lemma_replace_seq_len(g, size, items.skip(size as int));
            },
            None => {
                lemma_replace_seq_len(g, size, items.skip(1));
            },
        }
    }
}

/// Where no item merges with the one behind it, `combine_seq` yields the
/// pending item and then every item unchanged.
pub proof fn lemma_combine_seq_apart<T>(f: spec_fn(T, T) -> Option<T>, carry: T, items: Seq<T>)
    requires
        items.len() > 0 ==> f(carry, items[0]) is None,
        forall|i: int| 0 <= i < items.len() - 1 ==> #[trigger] f(items[i], items[i + 1]) is None,
    ensures
        combine_seq(f, carry, items) == seq![carry] + items,
    decreases items.len(),
{
    if items.len() > 0 {
        let rest = items.skip(1);
        assert forall|i: int| 0 <= i < rest.len() - 1 implies #[trigger] f(
            rest[i],
            rest[i + 1],
        ) is None by {
            let j = i + 1;
            assert(f(items[j], items[j + 1]) is None);
        }
        if rest.len() > 0 {
            assert(f(items[0], items[0int + 1]) is None);
        }
        lemma_combine_seq_apart(f, items[0], rest);
        assert(seq![carry] + (seq![items[0]] + rest) =~= seq![carry] + items);
    } else {
        assert(seq![carry] + items =~= seq![carry]);
    }
}

/// Where the matcher accepts no window of `size` neighbours,
/// `replace_seq` yields every item unchanged.
pub proof fn lemma_replace_seq_apart<T>(g: spec_fn(Seq<T>) -> Option<T>, size: nat, items: Seq<T>)
    requires
        forall|i: int|
            0 <= i && i + size <= items.len() ==> g(#[trigger] items.subrange(i, i + size)) is None,
    ensures
        replace_seq(g, size, items) == items,
    decreases items.len(),
{
    if !(size == 0 || items.len() < size) {
        let rest = items.skip(1);
        assert(items.take(size as int) =~= items.subrange(0int, 0int + size));
        assert forall|i: int| 0 <= i && i + size <= rest.len() implies g(
            #[trigger] rest.subrange(i, i + size),
        ) is None by {
            assert(rest.subrange(i, i + size) =~= items.subrange(i + 1, i + 1 + size));
        }
        lemma_replace_seq_apart(g, size, rest);
        assert(seq![items[0]] + rest =~= items);
    }
}

/// What holds of the pending item and of every item, and of what any two
/// such items merge to, holds of every item that `combine_seq` yields.
pub proof fn lemma_combine_seq_all<T>(
    holds: spec_fn(T) -> bool,
    f: spec_fn(T, T) -> Option<T>,
    carry: T,
    items: Seq<T>,
)
    requires
        holds(carry),
        forall|i: int| 0 <= i < items.len() ==> holds(#[trigger] items[i]),
        forall|a: T, b: T| holds(a) && holds(b) && (#[trigger] f(a, b)) is Some ==> holds(f(a, b)->0),
    ensures
        forall|k: int|
            0 <= k < combine_seq(f, carry, items).len() ==> holds(
                #[trigger] combine_seq(f, carry, items)[k],
            ),
    decreases items.len(),
{
    if items.len() > 0 {
        let rest = items.skip(1);
        assert forall|i: int| 0 <= i < rest.len() implies holds(#[trigger] rest[i]) by {
            assert(rest[i] == items[i + 1]);
        }
        match f(carry, items[0]) {
            Some(m) => {
                assert(holds(f(carry, items[0])->0));
                lemma_combine_seq_all(holds, f, m, rest);
                assert(combine_seq(f, carry, items) == combine_seq(f, m, rest));
            },
            None => {
                lemma_combine_seq_all(holds, f, items[0], rest);
                let tail = combine_seq(f, items[0], rest);
                let out = combine_seq(f, carry, items);
                assert forall|k: int| 0 <= k < out.len() implies holds(#[trigger] out[k]) by {
                    if k > 0 {
                        assert(out[k] == tail[k - 1]);
                    }
                }
            },
        }
    } else {
        let out = combine_seq(f, carry, items);
        assert(out =~= seq![carry]);
        assert forall|k: int| 0 <= k < out.len() implies holds(#[trigger] out[k]) by {
            assert(out[k] == carry);
        }
    }
}

/// What holds of every item, and of every replacement that the matcher
/// makes, holds of every item that `replace_seq` yields.
pub proof fn lemma_replace_seq_all<T>(
    holds: spec_fn(T) -> bool,
    g: spec_fn(Seq<T>) -> Option<T>,
    size: nat,
    items: Seq<T>,
)
    requires
        forall|i: int| 0 <= i < items.len() ==> holds(#[trigger] items[i]),
        forall|w: Seq<T>| (#[trigger] g(w)) is Some ==> holds(g(w)->0),
    ensures
        forall|k: int|
            0 <= k < replace_seq(g, size, items).len() ==> holds(
                #[trigger] replace_seq(g, size, items)[k],
            ),
    decreases items.len(),
{
    if !(size == 0 || items.len() < size) {
        let rest = match g(items.take(size as int)) {
            Some(r) => items.skip(size as int),
            None => items.skip(1),
        };
        assert forall|i: int| 0 <= i < rest.len() implies holds(#[trigger] rest[i]) by {
            assert(rest[i] == items[i + (items.len() - rest.len())]);
        }
        lemma_replace_seq_all(holds, g, size, rest);
        let tail = replace_seq(g, size, rest);
        let out = replace_seq(g, size, items);
        assert forall|k: int| 0 <= k < out.len() implies holds(#[trigger] out[k]) by {
            if k > 0 {
                assert(out[k] == tail[k - 1]);
            }
        }
    }
}

/// Every item that `combine_seq` yields before its last was yielded
/// because it did not merge with the item behind it.
pub proof fn lemma_combine_seq_unmerged<T>(
    f: spec_fn(T, T) -> Option<T>,
    carry: T,
    items: Seq<T>,
    k: int,
) -> (b: T)
    requires
        0 <= k < combine_seq(f, carry, items).len() - 1,
    ensures
        f(combine_seq(f, carry, items)[k], b) is None,
    decreases items.len(),
{
    let out = combine_seq(f, carry, items);
    if items.len() == 0 {
        assert(out.len() == 1);
        arbitrary()
    } else {
        let rest = items.skip(1);
        match f(carry, items[0]) {
            Some(m) => lemma_combine_seq_unmerged(f, m, rest, k),
            None => {
                let tail = combine_seq(f, items[0], rest);
                if k == 0 {
                    assert(out[0] == carry);
                    items[0]
                } else {
                    assert(out[k] == tail[k - 1]);
                    lemma_combine_seq_unmerged(f, items[0], rest, k - 1)
                }
            },
        }
    }
}

/// What holds of no item but the last, and of no replacement that the
/// matcher makes, holds of no item that `replace_seq` yields but the last.
pub proof fn lemma_replace_seq_inner<T>(
    bad: spec_fn(T) -> bool,
    g: spec_fn(Seq<T>) -> Option<T>,
    size: nat,
    items: Seq<T>,
)
    requires
        size > 0,
        forall|i: int| 0 <= i < items.len() - 1 ==> !bad(#[trigger] items[i]),
        forall|w: Seq<T>| (#[trigger] g(w)) is Some ==> !bad(g(w)->0),
    ensures
        forall|k: int|
            0 <= k < replace_seq(g, size, items).len() - 1 ==> !bad(
                #[trigger] replace_seq(g, size, items)[k],
            ),
    decreases items.len(),
{
    if items.len() >= size {
        let found = g(items.take(size as int));
        let rest = match found {
            Some(r) => items.skip(size as int),
            None => items.skip(1),
        };
        let gone = items.len() - rest.len();
        assert forall|i: int| 0 <= i < rest.len() - 1 implies !bad(#[trigger] rest[i]) by {
            assert(rest[i] == items[i + gone]);
        }
        lemma_replace_seq_inner(bad, g, size, rest);
        lemma_replace_seq_len(g, size, rest);
        let tail = replace_seq(g, size, rest);
        let out = replace_seq(g, size, items);
        assert forall|k: int| 0 <= k < out.len() - 1 implies !bad(#[trigger] out[k]) by {
            if k > 0 {
                assert(out[k] == tail[k - 1]);
            } else {
                assert(tail.len() > 0);
                assert(rest.len() > 0);
                match found {
                    Some(r) => {
                        assert(out[0] == r);
                    },
                    None => {
                        assert(out[0] == items[0]);
                    },
                }
            }
        }
    }
}

/// What `stateful_ok` says of given closures, spelled out for one item:
/// a caller shows that its closures may be handed to `stateful` by going
/// through its items with this.
pub proof fn lemma_stateful_ok_unfold<
    T,
    St,
    B,
    F: Fn(St, T) -> (St, B),
    L: FnOnce(St) -> Option<B>,
>(map: F, last: L, state: St, items: Seq<T>)
    ensures
        stateful_ok(map, last, state, items) == (if items.len() == 0 {
            last.requires((state,))
        } else {
            map.requires((state, items[0])) && forall|next: (St, B)| #[trigger]
                map.ensures((state, items[0]), next) ==> stateful_ok(
                    map,
                    last,
                    next.0,
                    items.skip(1),
                )
        }),
{
}

/// What `combine_ok` says of a given combinator, spelled out for one item.
pub proof fn lemma_combine_ok_unfold<T, F: Fn(&T, &T) -> Option<T>>(
    combinator: F,
    carry: T,
    items: Seq<T>,
)
    ensures
        combine_ok(combinator, carry, items) == (items.len() == 0 || (combinator.requires(
            (&carry, &items[0]),
        ) && forall|merged: Option<T>| #[trigger]
            combinator.ensures((&carry, &items[0]), merged) ==> combine_ok(
                combinator,
                match merged {
                    Some(m) => m,
                    None => items[0],
                },
                items.skip(1),
            ))),
{
}

/// Closures that accept every argument may be handed to `stateful`.
pub proof fn lemma_stateful_accepts<
    T,
    St,
    B,
    F: Fn(St, T) -> (St, B),
    L: FnOnce(St) -> Option<B>,
>(map: F, last: L, state: St, items: Seq<T>)
    requires
        forall|s: St, t: T| map.requires((s, t)),
        forall|s: St| last.requires((s,)),
    ensures
        stateful_ok(map, last, state, items),
    decreases items.len(),
{
    if items.len() > 0 {
        assert forall|next: (St, B)| #[trigger]
            map.ensures((state, items[0]), next) implies stateful_ok(
            map,
            last,
            next.0,
            items.skip(1),
        ) by {
            lemma_stateful_accepts(map, last, next.0, items.skip(1));
        }
    }
}

/// A combinator that accepts every pair may be handed to `combine`.
pub proof fn lemma_combine_accepts<T, F: Fn(&T, &T) -> Option<T>>(
    combinator: F,
    carry: T,
    items: Seq<T>,
)
    requires
        forall|a: T, b: T| combinator.requires((&a, &b)),
    ensures
        combine_ok(combinator, carry, items),
    decreases items.len(),
{
    if items.len() > 0 {
        assert forall|merged: Option<T>| #[trigger]
            combinator.ensures((&carry, &items[0]), merged) implies combine_ok(
            combinator,
            match merged {
                Some(m) => m,
                None => items[0],
            },
            items.skip(1),
        ) by {
            lemma_combine_accepts(
                combinator,
                match merged {
                    Some(m) => m,
                    None => items[0],
                },
                items.skip(1),
            );
        }
    }
}

/// `stateful` yields one output for each item, and at most one more.
pub proof fn lemma_stateful_len<T, St, B, F: Fn(St, T) -> (St, B), L: FnOnce(St) -> Option<B>>(
    map: F,
    last: L,
    state: St,
    items: Seq<T>,
    out: Seq<B>,
)
    requires
        stateful_rel(map, last, state, items, out),
    ensures
        items.len() <= out.len() <= items.len() + 1,
    decreases items.len(),
{
    if items.len() > 0 {
        let next = choose|next: (St, B)| #[trigger]
            map.ensures((state, items[0]), next) && out.len() > 0 && out[0] == next.1
                && stateful_rel(map, last, next.0, items.skip(1), out.skip(1));
        lemma_stateful_len(map, last, next.0, items.skip(1), out.skip(1));
    }
}

/// Folds `iter` front to back. Each item is handed to `map` together with
/// the state; `map` returns the next state and the item's output. After the
/// last item `last` is called once, on the final state, and may add one
/// more output. The closures are called on nothing else.
pub fn stateful<T, St, B, F: Fn(St, T) -> (St, B), L: FnOnce(St) -> Option<B>>(
    iter: Vec<T>,
    init_state: St,
    map: F,
    last: L,
) -> (out: Vec<B>)
    requires
        stateful_ok(map, last, init_state, iter@),
    ensures
        stateful_rel(map, last, init_state, iter@, out@),
        iter@.len() <= out@.len() <= iter@.len() + 1,
{
    let ghost items = iter@;
    let mut out: Vec<B> = Vec::new();
    let mut state = init_state;
    proof {
        assert(items.skip(0) =~= items);
        assert forall|rest: Seq<B>| #[trigger]
            stateful_rel(map, last, state, items.skip(0), rest) implies stateful_rel(
            map,
            last,
            init_state,
            items,
            out@ + rest,
        ) by {
            assert(out@ + rest =~= rest);
        }
    }
    for item in it: iter.into_iter()
        invariant
            it.seq() == items,
            stateful_ok(map, last, state, items.skip(it.index() as int)),
            forall|rest: Seq<B>| #[trigger]
                stateful_rel(map, last, state, items.skip(it.index() as int), rest)
                    ==> stateful_rel(map, last, init_state, items, out@ + rest),
    {
        let ghost before = state;
        let ghost done = out@;
        let ghost i = it.index() as int;
        let ghost x = item;
        proof {
            assert(items.skip(i)[0] == x);
        }
        let (next, b) = map(state, item);
        let ghost after = next;
        let ghost y = b;
        state = next;
        out.push(b);
        proof {
            assert(map.ensures((before, items.skip(i)[0]), (after, y)));
            assert(items.skip(i).skip(1) =~= items.skip(i + 1));
            assert(stateful_ok(map, last, after, items.skip(i).skip(1)));
            assert forall|rest: Seq<B>| #[trigger]
                stateful_rel(map, last, state, items.skip(i + 1), rest) implies stateful_rel(
                map,
                last,
                init_state,
                items,
                out@ + rest,
            ) by {
                let longer = seq![y] + rest;
                assert(items.skip(i)[0] == x);
                assert(items.skip(i).skip(1) =~= items.skip(i + 1));
                assert(longer.skip(1) =~= rest);
                assert(map.ensures((before, items.skip(i)[0]), (after, y)));
                assert(stateful_rel(map, last, before, items.skip(i), longer));
                assert(done + longer =~= out@ + rest);
            }
        }
    }
    let ghost done = out@;
    let ghost end = state;
    proof {
        assert(items.skip(items.len() as int).len() == 0);
    }
    let fin = last(state);
    let ghost fin_was = fin;
    match fin {
        Some(b) => {
            out.push(b);
        },
        None => {},
    }
    proof {
        let fin = fin_was;
        let rest = match fin {
            Some(b) => seq![b],
            None => Seq::empty(),
        };
        assert(items.skip(items.len() as int).len() == 0);
        assert(last.ensures((end,), fin));
        assert(stateful_rel(map, last, end, items.skip(items.len() as int), rest));
        assert(done + rest =~= out@);
        lemma_stateful_len(map, last, init_state, items, out@);
    }
    out
}

/// A fold whose state is the pending item, whose outputs are the items it
/// lets go, and whose last output is the final pending item, yields what
/// `combine` may yield once the missing outputs are dropped.
proof fn lemma_combine_from_stateful<
    T,
    C: Fn(&T, &T) -> Option<T>,
    F: Fn(T, T) -> (T, Option<T>),
    L: FnOnce(T) -> Option<Option<T>>,
>(combinator: C, map: F, last: L, carry: T, items: Seq<T>, staged: Seq<Option<T>>)
    requires
        forall|s: T, t: T, r: (T, Option<T>)| #[trigger]
            map.ensures((s, t), r) ==> exists|m: Option<T>| #[trigger]
                may_merge(&combinator, s, t, m) && r == match m {
                    Some(res) => (res, None::<T>),
                    None => (t, Some(s)),
                },
        forall|s: T, r: Option<Option<T>>| #[trigger] last.ensures((s,), r) ==> r == Some(Some(s)),
        stateful_rel(map, last, carry, items, staged),
    ensures
        combine_rel(combinator, carry, items, present(staged)),
    decreases items.len(),
{
    if items.len() == 0 {
        assert(staged =~= seq![Some(carry)]);
        assert(staged[0] == Some(carry));
        assert(staged.skip(1).len() == 0);
        assert(present(staged.skip(1)) =~= Seq::<T>::empty());
        assert(present(staged) == seq![carry] + present(staged.skip(1)));
        assert(present(staged) =~= seq![carry]);
    } else {
        let next = choose|next: (T, Option<T>)| #[trigger]
            map.ensures((carry, items[0]), next) && staged.len() > 0 && staged[0] == next.1
                && stateful_rel(map, last, next.0, items.skip(1), staged.skip(1));
        let m = choose|m: Option<T>| #[trigger]
            may_merge(&combinator, carry, items[0], m) && next == match m {
                Some(res) => (res, None::<T>),
                None => (items[0], Some(carry)),
            };
        lemma_combine_from_stateful(combinator, map, last, next.0, items.skip(1), staged.skip(1));
        match m {
            Some(res) => {
                assert(present(staged) == present(staged.skip(1)));
            },
            None => {
                assert(present(staged) == seq![carry] + present(staged.skip(1)));
                assert(present(staged).skip(1) =~= present(staged.skip(1)));
            },
        }
    }
}

/// Appending an item to a stream appends it to the present items if it is
/// there, and nothing if it is not.
proof fn lemma_present_push<T>(s: Seq<Option<T>>, x: Option<T>)
    ensures
        present(s.push(x)) == match x {
            Some(v) => present(s).push(v),
            None => present(s),
        },
    decreases s.len(),
{
    if s.len() == 0 {
        assert(s.push(x).skip(1) =~= Seq::empty());
        assert(present(s.push(x).skip(1)) =~= Seq::empty());
        match x {
            Some(v) => {
                assert(seq![v] + Seq::empty() =~= present(s).push(v));
            },
            None => {},
        }
    } else {
        assert(s.push(x).skip(1) =~= s.skip(1).push(x));
        lemma_present_push(s.skip(1), x);
        match (s[0], x) {
            (Some(h), Some(v)) => {
                assert(seq![h] + present(s.skip(1)).push(v) =~= (seq![h] + present(
                    s.skip(1),
                )).push(v));
            },
            _ => {},
        }
    }
}

/// Whether `combinator` may return `merged` for the pair `a`, `b`.
spec fn may_merge<T, F: Fn(&T, &T) -> Option<T>>(
    combinator: &F,
    a: T,
    b: T,
    merged: Option<T>,
) -> bool {
    combinator.ensures((&a, &b), merged)
}

/// Whether `combinator` accepts the pair `a`, `b`.
spec fn may_take<T, F: Fn(&T, &T) -> Option<T>>(combinator: &F, a: T, b: T) -> bool {
    combinator.requires((&a, &b))
}

/// Where `combine` may be called, the fold that it is built on may be.
proof fn lemma_combine_ok_stateful<
    T,
    C: Fn(&T, &T) -> Option<T>,
    F: Fn(T, T) -> (T, Option<T>),
    L: FnOnce(T) -> Option<Option<T>>,
>(combinator: C, map: F, last: L, carry: T, items: Seq<T>)
    requires
        forall|s: T, t: T| may_take(&combinator, s, t) ==> #[trigger] map.requires((s, t)),
        forall|s: T, t: T, r: (T, Option<T>)| #[trigger]
            map.ensures((s, t), r) ==> exists|m: Option<T>| #[trigger]
                may_merge(&combinator, s, t, m) && r == match m {
                    Some(res) => (res, None::<T>),
                    None => (t, Some(s)),
                },
        forall|s: T| #[trigger] last.requires((s,)),
        combine_ok(combinator, carry, items),
    ensures
        stateful_ok(map, last, carry, items),
    decreases items.len(),
{
    if items.len() > 0 {
        assert(may_take(&combinator, carry, items[0]));
        assert forall|next: (T, Option<T>)| #[trigger]
            map.ensures((carry, items[0]), next) implies stateful_ok(
            map,
            last,
            next.0,
            items.skip(1),
        ) by {
            let m = choose|m: Option<T>| #[trigger]
                may_merge(&combinator, carry, items[0], m) && next == match m {
                    Some(res) => (res, None::<T>),
                    None => (items[0], Some(carry)),
                };
            assert(combinator.ensures((&carry, &items[0]), m));
            lemma_combine_ok_stateful(combinator, map, last, next.0, items.skip(1));
        }
    }
}

/// Drops the missing items of a stream.
fn keep_present<T>(items: Vec<Option<T>>) -> (out: Vec<T>)
    ensures
        out@ == present(items@),
{
    let ghost all = items@;
    let mut out: Vec<T> = Vec::new();
    for item in it: items.into_iter()
        invariant
            it.seq() == all,
            out@ == present(all.take(it.index() as int)),
    {
        proof {
            let i = it.index() as int;
            lemma_present_push(all.take(i), item);
            assert(all.take(i).push(item) =~= all.take(i + 1));
        }
        match item {
            Some(x) => {
                out.push(x);
            },
            None => {},
        }
    }
    proof {
        assert(all.take(all.len() as int) =~= all);
    }
    out
}

/// Merges neighbours. One item is pending at any time, at first
/// `neutral_value`. `combinator` is shown the pending item and the next one:
/// what it returns replaces the pending item; where it returns nothing, the
/// pending item is yielded and the next one becomes pending. After the last
/// item the pending one is yielded. The stream yielded is at most one longer
/// than `iter`. `combinator` is shown no pair but these.
pub fn combine<T, F: Fn(&T, &T) -> Option<T>>(iter: Vec<T>, neutral_value: T, combinator: F) -> (out:
    Vec<T>)
    requires
        combine_ok(combinator, neutral_value, iter@),
    ensures
        combine_rel(combinator, neutral_value, iter@, out@),
        1 <= out@.len() <= iter@.len() + 1,
{
    let ghost items = iter@;
    let ghost seed = neutral_value;
    let step = |last: T, cur: T| -> (r: (T, Option<T>))
        requires
            may_take(&combinator, last, cur),
        ensures
            exists|m: Option<T>| #[trigger]
                may_merge(&combinator, last, cur, m) && r == match m {
                    Some(res) => (res, None::<T>),
                    None => (cur, Some(last)),
                },
        {
            let merged = combinator(&last, &cur);
            assert(may_merge(&combinator, last, cur, merged));
            match merged {
                Some(res) => (res, None),
                None => (cur, Some(last)),
            }
        };
    let flush = |last: T| -> (r: Option<Option<T>>)
        ensures
            r == Some(Some(last)),
        { Some(Some(last)) };
    let ghost step_was = step;
    let ghost flush_was = flush;
    proof {
        lemma_combine_ok_stateful(combinator, step_was, flush_was, seed, items);
    }
    let staged = stateful(iter, neutral_value, step, flush);
    proof {
        lemma_combine_from_stateful(combinator, step_was, flush_was, seed, items, staged@);
        lemma_combine_len(combinator, seed, items, present(staged@));
    }
    keep_present(staged)
}

/// Replaces windows of `pattern_size` neighbours. Items are gathered until
/// `pattern_size` of them are pending; `matcher` is then shown the pending
/// items, and is never shown more or fewer. Where it returns a replacement, the replacement is yielded in
/// place of all of them; where it returns nothing, the oldest pending item
/// is yielded and the others stay pending. After the last item the pending
/// ones are yielded unchanged, oldest first.
pub fn replace_sized_pattern<T, M: Fn(&VecDeque<T>) -> Option<T>>(
    iter: Vec<T>,
    pattern_size: usize,
    matcher: M,
) -> (out: Vec<T>)
    requires
        pattern_size > 0,
        forall|window: VecDeque<T>|
            window@.len() == pattern_size ==> matcher.requires((&window,)),
    ensures
        replace_rel(matcher, pattern_size as nat, iter@, out@),
        out@.len() <= iter@.len(),
{
    let ghost items = iter@;
    let ghost size = pattern_size as nat;
    let mut out: Vec<T> = Vec::new();
    let mut list: VecDeque<T> = VecDeque::new();
    proof {
        assert(list@ + items.skip(0) =~= items);
        assert forall|rest: Seq<T>| #[trigger]
            replace_rel(matcher, size, list@ + items.skip(0), rest) implies replace_rel(
            matcher,
            size,
            items,
            out@ + rest,
        ) by {
            assert(out@ + rest =~= rest);
        }
    }
    for item in it: iter.into_iter()
        invariant
            it.seq() == items,
            size == pattern_size,
            size > 0,
            list@.len() < size,
            forall|window: VecDeque<T>|
                window@.len() == pattern_size ==> matcher.requires((&window,)),
            forall|rest: Seq<T>| #[trigger]
                replace_rel(matcher, size, list@ + items.skip(it.index() as int), rest)
                    ==> replace_rel(matcher, size, items, out@ + rest),
    {
        let ghost i = it.index() as int;
        let ghost done = out@;
        let ghost ahead = list@ + items.skip(i);
        list.push_back(item);
        proof {
            assert(list@ + items.skip(i + 1) =~= ahead);
        }
        if list.len() == pattern_size {
            let ghost window = list;
            let found = matcher(&list);
            let ghost found_was = found;
            proof {
                assert(ahead.take(size as int) =~= window@);
                assert(ahead.skip(size as int) =~= items.skip(i + 1));
            }
            match found {
                Some(res) => {
                    list.clear();
                    out.push(res);
                },
                None => {
                    match list.pop_front() {
                        Some(oldest) => {
                            out.push(oldest);
                        },
                        None => {},
                    }
                },
            }
            proof {
                let emitted = out@.last();
                assert(out@ =~= done.push(emitted));
                assert forall|rest: Seq<T>| #[trigger]
                    replace_rel(
                        matcher,
                        size,
                        list@ + items.skip(i + 1),
                        rest,
                    ) implies replace_rel(matcher, size, items, out@ + rest) by {
                    let longer = seq![emitted] + rest;
                    assert(longer.skip(1) =~= rest);
                    match found_was {
                        Some(res) => {
                            assert(list@ + items.skip(i + 1) =~= ahead.skip(size as int));
                        },
                        None => {
                            assert(list@ + items.skip(i + 1) =~= ahead.skip(1));
                            assert(emitted == ahead[0]);
                        },
                    }
                    assert(matcher.ensures((&window,), found_was));
                    assert(replace_rel(matcher, size, ahead, longer));
                    assert(done + longer =~= out@ + rest);
                }
            }
        }
    }
    proof {
        assert(list@ + items.skip(items.len() as int) =~= list@);
        assert(replace_rel(matcher, size, list@, list@));
    }
    let ghost done = out@;
    let ghost pending = list@;
    while list.len() > 0
        invariant
            done + pending == out@ + list@,
        decreases list.len(),
    {
        let ghost before = list@;
        match list.pop_front() {
            Some(oldest) => {
                out.push(oldest);
                proof {
                    assert(out@ + list@ =~= out@.drop_last() + before);
                }
            },
            None => {},
        }
    }
    proof {
        assert(out@ + list@ =~= out@);
        lemma_replace_len(matcher, size, items, out@);
    }
    out
}

} // verus!
