//! Stable sorting by a best-first order.
//!
//! A type says through [`Ranked`] which of two values comes first. Two values of which neither
//! comes first are tied; [`sorted`] leaves tied values in the order in which it received them, so
//! its result is fixed by its input alone.

use vstd::prelude::*;

verus! {

/// A type whose values are ranked, best first.
pub trait Ranked: Sized {
    /// `self` comes strictly before `other`.
    spec fn before(self, other: Self) -> bool;

    /// No value comes before itself.
    proof fn before_irreflexive(a: Self)
        ensures
            !a.before(a),
    ;

    /// Coming before is transitive.
    proof fn before_transitive(a: Self, b: Self, c: Self)
        requires
            a.before(b),
            b.before(c),
        ensures
            a.before(c),
    ;

    /// Not coming before is transitive, so that being tied is an equivalence.
    proof fn not_before_transitive(a: Self, b: Self, c: Self)
        requires
            !a.before(b),
            !b.before(c),
        ensures
            !a.before(c),
    ;

    /// Whether `self` comes strictly before `other`.
    fn is_before(&self, other: &Self) -> (r: bool)
        ensures
            r == self.before(*other),
    ;
}

/// Neither of the two values comes before the other.
pub open spec fn tied<T: Ranked>(a: T, b: T) -> bool {
    !a.before(b) && !b.before(a)
}

/// The elements of `s` that are tied with `c`, in their order.
pub open spec fn tied_with<T: Ranked>(s: Seq<T>, c: T) -> Seq<T> {
    s.filter(|x: T| tied(x, c))
}

/// No element of `s` comes before an earlier one.
pub open spec fn in_order<T: Ranked>(s: Seq<T>) -> bool {
    forall|i: int, j: int| 0 <= i < j < s.len() ==> !(#[trigger] s[j]).before(#[trigger] s[i])
}

/// `out` is `input` sorted: the same elements, none before an earlier one, and tied elements in
/// the order that they have in `input`.
pub open spec fn sorting_of<T: Ranked>(input: Seq<T>, out: Seq<T>) -> bool {
    &&& in_order(out)
    &&& out.to_multiset() == input.to_multiset()
    &&& forall|c: T| #[trigger] tied_with(out, c) == tied_with(input, c)
}

/// How many leading elements of `s` come before `x`.
pub open spec fn place_of<T: Ranked>(s: Seq<T>, x: T) -> int
    decreases s.len(),
{
    if s.len() > 0 && s[0].before(x) {
        1 + place_of(s.drop_first(), x)
    } else {
        0
    }
}

/// `s` sorted.
pub open spec fn sorted_seq<T: Ranked>(s: Seq<T>) -> Seq<T>
    decreases s.len(),
{
    if s.len() == 0 {
        s
    } else {
        let rest = sorted_seq(s.drop_first());
        rest.insert(place_of(rest, s[0]), s[0])
    }
}

proof fn lemma_place_of<T: Ranked>(s: Seq<T>, x: T)
    ensures
        0 <= place_of(s, x) <= s.len(),
        forall|j: int| 0 <= j < place_of(s, x) ==> (#[trigger] s[j]).before(x),
        place_of(s, x) < s.len() ==> !s[place_of(s, x)].before(x),
    decreases s.len(),
{
    if s.len() > 0 && s[0].before(x) {
        let rest = s.drop_first();
        lemma_place_of(rest, x);
        assert forall|j: int| 0 <= j < place_of(s, x) implies (#[trigger] s[j]).before(x) by {
            if j > 0 {
                assert(rest[j - 1].before(x));
            }
        }
    }
}

/// `sorted_seq` sorts: it keeps the elements, puts none before an earlier one, and leaves tied
/// elements in their order.
pub proof fn law_sorted_seq_sorts<T: Ranked>(s: Seq<T>)
    ensures
        sorting_of(s, sorted_seq(s)),
    decreases s.len(),
{
    if s.len() > 0 {
        let rest = sorted_seq(s.drop_first());
        law_sorted_seq_sorts(s.drop_first());
        lemma_place_of(rest, s[0]);
        lemma_extend_sorting(s, 0, rest, place_of(rest, s[0]));
        assert(s.skip(0) =~= s);
    }
}

/// If `out` sorts what follows place `i` of `s`, then `out` with the element at place `i` put
/// behind the elements that come before it sorts what begins there.
proof fn lemma_extend_sorting<T: Ranked>(s: Seq<T>, i: int, out: Seq<T>, at: int)
    requires
        0 <= i < s.len(),
        sorting_of(s.skip(i + 1), out),
        0 <= at <= out.len(),
        forall|j: int| 0 <= j < at ==> (#[trigger] out[j]).before(s[i]),
        at < out.len() ==> !out[at].before(s[i]),
    ensures
        sorting_of(s.skip(i), out.insert(at, s[i])),
{
    let x = s[i];
    lemma_insert_in_order(out, at, x);
    lemma_multiset_step(s, i);
    vstd::seq_lib::to_multiset_insert(out, at, x);
    assert forall|c: T| #[trigger] tied_with(out.insert(at, x), c) == tied_with(s.skip(i), c) by {
        assert(s.skip(i) =~= seq![x] + s.skip(i + 1));
        Seq::filter_distributes_over_add(seq![x], s.skip(i + 1), |y: T| tied(y, c));
    }
}

/// What comes before a tied value comes before the other.
proof fn lemma_before_tied<T: Ranked>(a: T, b: T, c: T)
    requires
        a.before(b),
        tied(b, c),
    ensures
        a.before(c),
{
    if !a.before(c) {
        T::not_before_transitive(a, c, b);
    }
}

/// Putting `x` behind the elements that come before it keeps the order, and leaves `x` ahead of
/// the elements that it is tied with.
proof fn lemma_insert_in_order<T: Ranked>(s: Seq<T>, i: int, x: T)
    requires
        in_order(s),
        0 <= i <= s.len(),
        forall|j: int| 0 <= j < i ==> (#[trigger] s[j]).before(x),
        i < s.len() ==> !s[i].before(x),
    ensures
        in_order(s.insert(i, x)),
        forall|c: T|
            #[trigger] tied_with(s.insert(i, x), c) == tied_with(seq![x], c) + tied_with(s, c),
{
    let t = s.insert(i, x);
    assert forall|a: int, b: int| 0 <= a < b < t.len() implies !(#[trigger] t[b]).before(
        #[trigger] t[a],
    ) by {
        if b < i {
            assert(t[a] == s[a] && t[b] == s[b]);
        } else if b == i {
            assert(s[a].before(x));
            if x.before(s[a]) {
                T::before_transitive(x, s[a], x);
                T::before_irreflexive(x);
            }
        } else if a < i {
            assert(t[a] == s[a] && t[b] == s[b - 1]);
        } else if a == i {
            assert(t[b] == s[b - 1]);
            if b - 1 > i {
                assert(!s[b - 1].before(s[i]));
                T::not_before_transitive(s[b - 1], s[i], x);
            }
        } else {
            assert(t[a] == s[a - 1] && t[b] == s[b - 1]);
        }
    }
    let head = s.take(i);
    let tail = s.skip(i);
    assert(s =~= head + tail);
    assert(t =~= head + (seq![x] + tail));
    assert forall|c: T| #[trigger] tied_with(t, c) == tied_with(seq![x], c) + tied_with(s, c) by {
        let pred = |y: T| tied(y, c);
        Seq::filter_distributes_over_add(head, tail, pred);
        Seq::filter_distributes_over_add(head, seq![x] + tail, pred);
        Seq::filter_distributes_over_add(seq![x], tail, pred);
        if tied(x, c) {
            assert forall|j: int| 0 <= j < head.len() implies !pred(#[trigger] head[j]) by {
                assert(s[j].before(x));
                lemma_before_tied(s[j], x, c);
            }
            head.lemma_all_neg_filter_empty(pred);
            assert(head.filter(pred) =~= Seq::<T>::empty());
        } else {
            seq![x].lemma_all_neg_filter_empty(pred);
            assert(seq![x].filter(pred) =~= Seq::<T>::empty());
        }
        assert(tied_with(t, c) =~= tied_with(seq![x], c) + tied_with(s, c));
    }
}

/// The values of `items`, best first; tied values keep their order.
pub fn sorted<T: Ranked>(items: Vec<T>) -> (out: Vec<T>)
    ensures
        out@ == sorted_seq(items@),
        sorting_of(items@, out@),
{
    let mut rest = items;
    let mut out: Vec<T> = Vec::new();
    assert(items@.skip(items@.len() as int) =~= Seq::<T>::empty());
    assert(rest@ =~= items@.take(rest@.len() as int));
    while rest.len() > 0
        invariant
            rest@.len() <= items@.len(),
            rest@ == items@.take(rest@.len() as int),
            sorting_of(items@.skip(rest@.len() as int), out@),
        decreases rest@.len(),
    {
        let ghost n = rest@.len() as int;
        match rest.pop() {
            None => {
                return out;
            },
            Some(x) => {
                let mut i: usize = 0;
                while i < out.len() && out[i].is_before(&x)
                    invariant
                        i <= out@.len(),
                        forall|j: int| 0 <= j < i ==> (#[trigger] out@[j]).before(x),
                    decreases out@.len() - i,
                {
                    i += 1;
                }
                proof {
                    lemma_extend_sorting(items@, n - 1, out@, i as int);
                }
                out.insert(i, x);
                assert(items@.take(n).drop_last() =~= items@.take(n - 1));
            },
        }
    }
    proof {
        assert(items@.skip(0) =~= items@);
        law_sorted_seq_sorts(items@);
        law_sorting_is_unique(items@, out@, sorted_seq(items@));
    }
    out
}

proof fn lemma_multiset_step<T>(s: Seq<T>, i: int)
    requires
        0 <= i < s.len(),
    ensures
        s.skip(i).to_multiset() == s.skip(i + 1).to_multiset().insert(s[i]),
{
    assert(s.skip(i) =~= seq![s[i]] + s.skip(i + 1));
    assert(s.skip(i + 1).insert(0, s[i]) =~= s.skip(i));
    vstd::seq_lib::to_multiset_insert(s.skip(i + 1), 0, s[i]);
}

/// A sequence has one sorting only.
pub proof fn law_sorting_is_unique<T: Ranked>(input: Seq<T>, a: Seq<T>, b: Seq<T>)
    requires
        sorting_of(input, a),
        sorting_of(input, b),
    ensures
        a == b,
{
    assert forall|c: T| #[trigger] tied_with(a, c) == tied_with(b, c) by {
        assert(tied_with(a, c) == tied_with(input, c));
        assert(tied_with(b, c) == tied_with(input, c));
    }
    lemma_same_ties_same_sequence(a, b);
}

proof fn lemma_same_ties_same_sequence<T: Ranked>(a: Seq<T>, b: Seq<T>)
    requires
        in_order(a),
        in_order(b),
        forall|c: T| #[trigger] tied_with(a, c) == tied_with(b, c),
    ensures
        a == b,
    decreases a.len(),
{
    if a.len() == 0 || b.len() == 0 {
        if a.len() > 0 {
            lemma_head_is_tied(a);
            assert(tied_with(b, a[0]) == tied_with(a, a[0]));
            b.lemma_filter_len(|x: T| tied(x, a[0]));
        }
        if b.len() > 0 {
            lemma_head_is_tied(b);
            assert(tied_with(b, b[0]) == tied_with(a, b[0]));
            a.lemma_filter_len(|x: T| tied(x, b[0]));
        }
        assert(a =~= b);
    } else {
        lemma_head_is_tied(a);
        lemma_head_is_tied(b);
        // Each head is tied with some element of the other sequence, so the heads are tied.
        lemma_head_not_after(a, b);
        lemma_head_not_after(b, a);
        assert(tied(b[0], a[0]));
        assert(tied_with(a, a[0])[0] == a[0]);
        lemma_first_tied(b, a[0]);
        assert(tied_with(b, a[0])[0] == b[0]);
        let ta = a.drop_first();
        let tb = b.drop_first();
        assert(a =~= seq![a[0]] + ta);
        assert(b =~= seq![b[0]] + tb);
        assert forall|c: T| #[trigger] tied_with(ta, c) == tied_with(tb, c) by {
            let pred = |x: T| tied(x, c);
            Seq::filter_distributes_over_add(seq![a[0]], ta, pred);
            Seq::filter_distributes_over_add(seq![b[0]], tb, pred);
            let head = seq![a[0]].filter(pred);
            assert(tied_with(a, c) == tied_with(b, c));
            assert((head + ta.filter(pred)).skip(head.len() as int) =~= ta.filter(pred));
            assert((head + tb.filter(pred)).skip(head.len() as int) =~= tb.filter(pred));
        }
        assert forall|i: int, j: int| 0 <= i < j < ta.len() implies !(#[trigger] ta[j]).before(
            #[trigger] ta[i],
        ) by {
            assert(ta[i] == a[i + 1] && ta[j] == a[j + 1]);
        }
        assert forall|i: int, j: int| 0 <= i < j < tb.len() implies !(#[trigger] tb[j]).before(
            #[trigger] tb[i],
        ) by {
            assert(tb[i] == b[i + 1] && tb[j] == b[j + 1]);
        }
        lemma_same_ties_same_sequence(ta, tb);
    }
}

/// If the first element of `s` is tied with `c`, it is the first one that is.
proof fn lemma_first_tied<T: Ranked>(s: Seq<T>, c: T)
    requires
        s.len() > 0,
        tied(s[0], c),
    ensures
        tied_with(s, c).len() > 0,
        tied_with(s, c)[0] == s[0],
{
    let pred = |x: T| tied(x, c);
    assert(s =~= seq![s[0]] + s.drop_first());
    Seq::filter_distributes_over_add(seq![s[0]], s.drop_first(), pred);
    assert(seq![s[0]].filter(pred) =~= seq![s[0]]) by {
        reveal_with_fuel(Seq::filter, 2);
        assert(seq![s[0]].drop_last() =~= Seq::<T>::empty());
    }
}

proof fn lemma_head_is_tied<T: Ranked>(s: Seq<T>)
    requires
        s.len() > 0,
    ensures
        tied_with(s, s[0]).len() > 0,
        tied_with(s, s[0])[0] == s[0],
{
    T::before_irreflexive(s[0]);
    lemma_first_tied(s, s[0]);
}

/// The head of one sequence does not come before the head of another in which it has a tied
/// element.
proof fn lemma_head_not_after<T: Ranked>(a: Seq<T>, b: Seq<T>)
    requires
        a.len() > 0,
        b.len() > 0,
        in_order(b),
        tied_with(a, a[0]) == tied_with(b, a[0]),
        tied_with(a, a[0]).len() > 0,
    ensures
        !a[0].before(b[0]),
{
    let pred = |x: T| tied(x, a[0]);
    if forall|j: int| 0 <= j < b.len() ==> !pred(#[trigger] b[j]) {
        b.lemma_all_neg_filter_empty(pred);
    }
    let j = choose|j: int| 0 <= j < b.len() && pred(#[trigger] b[j]);
    if j > 0 {
        assert(!b[j].before(b[0]));
        T::not_before_transitive(a[0], b[j], b[0]);
    }
}

/// Sorting what is sorted changes nothing.
pub proof fn law_sorting_is_idempotent<T: Ranked>(s: Seq<T>)
    ensures
        sorted_seq(sorted_seq(s)) == sorted_seq(s),
{
    let once = sorted_seq(s);
    law_sorted_seq_sorts(s);
    law_sorted_seq_sorts(once);
    law_sorting_is_unique(once, sorted_seq(once), once);
}

/// Sorting keeps the elements: as many, and the same ones.
pub proof fn lemma_sorted_seq_contains<T: Ranked>(s: Seq<T>)
    ensures
        sorted_seq(s).len() == s.len(),
        forall|x: T| #[trigger] sorted_seq(s).contains(x) <==> s.contains(x),
{
    law_sorted_seq_sorts(s);
    let t = sorted_seq(s);
    vstd::seq_lib::to_multiset_len(s);
    vstd::seq_lib::to_multiset_len(t);
    assert forall|x: T| #[trigger] t.contains(x) <==> s.contains(x) by {
        vstd::seq_lib::to_multiset_contains(s, x);
        vstd::seq_lib::to_multiset_contains(t, x);
    }
}

/// A filtered sequence holds the elements that pass the filter.
pub proof fn lemma_filter_contains<A>(s: Seq<A>, pred: spec_fn(A) -> bool)
    ensures
        forall|x: A| #[trigger] s.filter(pred).contains(x) <==> s.contains(x) && pred(x),
    decreases s.len(),
{
    reveal_with_fuel(Seq::filter, 1);
    if s.len() > 0 {
        let front = s.drop_last();
        lemma_filter_contains(front, pred);
        assert forall|x: A| #[trigger] s.filter(pred).contains(x) <==> s.contains(x) && pred(x) by {
            assert(s.contains(x) <==> front.contains(x) || x == s.last()) by {
                if front.contains(x) {
                    assert(s[front.index_of(x)] == x);
                }
                if s.contains(x) && x != s.last() {
                    assert(front[s.index_of(x)] == x);
                }
                assert(s[s.len() - 1] == s.last());
            }
            let kept = front.filter(pred);
            if pred(s.last()) {
                assert(s.filter(pred) == kept.push(s.last()));
                assert(s.filter(pred)[kept.len() as int] == s.last());
                if kept.contains(x) {
                    assert(s.filter(pred)[kept.index_of(x)] == x);
                }
                if s.filter(pred).contains(x) && x != s.last() {
                    assert(kept[s.filter(pred).index_of(x)] == x);
                }
            }
        }
    }
}

/// Sorting gives back the values that it was given, as often as each occurs; no value stands
/// behind one that it comes before; and the values tied with any one keep their order.
pub proof fn law_sorted_values_are_in_order<T: Ranked>(s: Seq<T>, c: T)
    ensures
        sorted_seq(s).len() == s.len(),
        sorted_seq(s).to_multiset() == s.to_multiset(),
        forall|i: int, j: int|
            0 <= i < j < s.len() ==> !(#[trigger] sorted_seq(s)[j]).before(
                #[trigger] sorted_seq(s)[i],
            ),
        sorted_seq(s).filter(|x: T| !x.before(c) && !c.before(x)) == s.filter(
            |x: T| !x.before(c) && !c.before(x),
        ),
{
    law_sorted_seq_sorts(s);
    s.to_multiset_ensures();
    sorted_seq(s).to_multiset_ensures();
    assert(sorted_seq(s).len() == s.len());
    assert(tied_with(sorted_seq(s), c) == tied_with(s, c));
    let near = |x: T| !x.before(c) && !c.before(x);
    let tie = |x: T| tied(x, c);
    assert(near =~= tie);
}

/// The places at which a filter finds what it keeps.
pub proof fn lemma_filter_places<A>(s: Seq<A>, pred: spec_fn(A) -> bool) -> (places: Seq<int>)
    ensures
        places.len() == s.filter(pred).len(),
        forall|k: int|
            0 <= k < places.len() ==> 0 <= #[trigger] places[k] < s.len() && s.filter(pred)[k]
                == s[places[k]],
        forall|k: int, l: int|
            0 <= k < l < places.len() ==> #[trigger] places[k] < #[trigger] places[l],
        forall|j: int| 0 <= j < s.len() ==> (#[trigger] places.contains(j) <==> pred(s[j])),
    decreases s.len(),
{
    reveal_with_fuel(Seq::filter, 1);
    if s.len() == 0 {
        Seq::empty()
    } else {
        let front = s.drop_last();
        let rest = lemma_filter_places(front, pred);
        let n = front.len() as int;
        let places = if pred(s.last()) {
            rest.push(n)
        } else {
            rest
        };
        assert forall|j: int| 0 <= j < s.len() implies (#[trigger] places.contains(j) <==> pred(
            s[j],
        )) by {
            if j < n {
                assert(rest.contains(j) <==> pred(front[j]));
                if rest.contains(j) {
                    assert(places[rest.index_of(j)] == j);
                }
                if places.contains(j) {
                    assert(rest[places.index_of(j)] == j);
                }
            } else if pred(s.last()) {
                assert(places[rest.len() as int] == n);
            }
        }
        places
    }
}

} // verus!
