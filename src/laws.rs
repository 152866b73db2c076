use vstd::prelude::*;

use crate::model::{popped_back, popped_front, pushed_back, pushed_front};

verus! {

/// One call that changes a list.
pub enum Op<T> {
    PushFront(T),
    PushBack(T),
    PopFront,
    PopBack,
}

/// The list reached from `s` by `op`, and whether `op` removed an element.
pub open spec fn step<T>(s: Seq<T>, op: Op<T>) -> (Seq<T>, bool) {
    match op {
        Op::PushFront(x) => (pushed_front(s, x), false),
        Op::PushBack(x) => (pushed_back(s, x), false),
        Op::PopFront => (popped_front(s).0, popped_front(s).1 is Some),
        Op::PopBack => (popped_back(s).0, popped_back(s).1 is Some),
    }
}

/// The list that `ops`, applied in turn, make out of an empty one.
pub open spec fn replay<T>(ops: Seq<Op<T>>) -> Seq<T>
    decreases ops.len(),
{
    if ops.len() == 0 {
        Seq::empty()
    } else {
        step(replay(ops.drop_last()), ops.last()).0
    }
}

/// How many of `ops` are pushes.
pub open spec fn pushes<T>(ops: Seq<Op<T>>) -> nat
    decreases ops.len(),
{
    if ops.len() == 0 {
        0
    } else {
        pushes(ops.drop_last()) + match ops.last() {
            Op::PushFront(_) | Op::PushBack(_) => 1nat,
            _ => 0nat,
        }
    }
}

/// How many of `ops`, applied in turn to an empty list, removed an element.
pub open spec fn removals<T>(ops: Seq<Op<T>>) -> nat
    decreases ops.len(),
{
    if ops.len() == 0 {
        0
    } else {
        removals(ops.drop_last()) + if step(replay(ops.drop_last()), ops.last()).1 {
            1nat
        } else {
            0nat
        }
    }
}

/// The list after each of `xs`, in turn, is pushed at the front of `s`.
pub open spec fn pushed_all_front<T>(s: Seq<T>, xs: Seq<T>) -> Seq<T>
    decreases xs.len(),
{
    if xs.len() == 0 {
        s
    } else {
        pushed_front(pushed_all_front(s, xs.drop_last()), xs.last())
    }
}

/// The list after each of `xs`, in turn, is pushed at the back of `s`.
pub open spec fn pushed_all_back<T>(s: Seq<T>, xs: Seq<T>) -> Seq<T>
    decreases xs.len(),
{
    if xs.len() == 0 {
        s
    } else {
        pushed_back(pushed_all_back(s, xs.drop_last()), xs.last())
    }
}

/// The list left by `n` removals from the front of `s`, and what each returned.
pub open spec fn drained_front<T>(s: Seq<T>, n: nat) -> (Seq<T>, Seq<Option<T>>)
    decreases n,
{
    if n == 0 {
        (s, Seq::empty())
    } else {
        let rest = drained_front(popped_front(s).0, (n - 1) as nat);
        (rest.0, seq![popped_front(s).1] + rest.1)
    }
}

/// The list left by `n` removals from the back of `s`, and what each returned.
pub open spec fn drained_back<T>(s: Seq<T>, n: nat) -> (Seq<T>, Seq<Option<T>>)
    decreases n,
{
    if n == 0 {
        (s, Seq::empty())
    } else {
        let rest = drained_back(popped_back(s).0, (n - 1) as nat);
        (rest.0, seq![popped_back(s).1] + rest.1)
    }
}

/// Each of `s`, as a present result.
pub open spec fn all_some<T>(s: Seq<T>) -> Seq<Option<T>> {
    s.map_values(|x: T| Some(x))
}

/// After any run of pushes and removals, the length of the list is the
/// number of pushes less the number of removals that returned an element.
pub proof fn lemma_len_counts<T>(ops: Seq<Op<T>>)
    ensures
        replay(ops).len() + removals(ops) == pushes(ops),
    decreases ops.len(),
{
    if ops.len() > 0 {
        lemma_len_counts(ops.drop_last());
    }
}

/// Pushing at the front lays the pushed elements out in reverse, before `s`.
proof fn lemma_pushed_all_front<T>(s: Seq<T>, xs: Seq<T>)
    ensures
        pushed_all_front(s, xs) == xs.reverse() + s,
    decreases xs.len(),
{
    if xs.len() > 0 {
        lemma_pushed_all_front(s, xs.drop_last());
        assert(pushed_all_front(s, xs) =~= xs.reverse() + s);
    } else {
        assert(xs.reverse() + s =~= s);
    }
}

/// Pushing at the back lays the pushed elements out in order, after `s`.
proof fn lemma_pushed_all_back<T>(s: Seq<T>, xs: Seq<T>)
    ensures
        pushed_all_back(s, xs) == s + xs,
    decreases xs.len(),
{
    if xs.len() > 0 {
        lemma_pushed_all_back(s, xs.drop_last());
        assert(pushed_all_back(s, xs) =~= s + xs);
    } else {
        assert(s + xs =~= s);
    }
}

/// Removing the front `xs.len()` times from `xs + t` returns `xs` in order
/// and leaves `t`.
proof fn lemma_drained_front<T>(xs: Seq<T>, t: Seq<T>)
    ensures
        drained_front(xs + t, xs.len()) == (t, all_some(xs)),
    decreases xs.len(),
{
    if xs.len() > 0 {
        assert((xs + t).drop_first() =~= xs.drop_first() + t);
        lemma_drained_front(xs.drop_first(), t);
        assert(seq![Some(xs[0])] + all_some(xs.drop_first()) =~= all_some(xs));
    } else {
        assert(xs + t =~= t);
        assert(all_some(xs) =~= Seq::empty());
    }
}

/// Removing the back `xs.len()` times from `t + xs` returns `xs` in reverse
/// and leaves `t`.
proof fn lemma_drained_back<T>(t: Seq<T>, xs: Seq<T>)
    ensures
        drained_back(t + xs, xs.len()) == (t, all_some(xs.reverse())),
    decreases xs.len(),
{
    if xs.len() > 0 {
        assert((t + xs).drop_last() =~= t + xs.drop_last());
        lemma_drained_back(t, xs.drop_last());
        assert(seq![Some(xs.last())] + all_some(xs.drop_last().reverse()) =~= all_some(xs.reverse()));
    } else {
        assert(t + xs =~= t);
        assert(all_some(xs.reverse()) =~= Seq::empty());
    }
}

/// Elements pushed at the front come off the front last-in first-out, and
/// the list is back as it was.
pub proof fn lemma_front_stack<T>(s: Seq<T>, xs: Seq<T>)
    ensures
        drained_front(pushed_all_front(s, xs), xs.len()) == (s, all_some(xs.reverse())),
{
    lemma_pushed_all_front(s, xs);
    lemma_drained_front(xs.reverse(), s);
}

/// Elements pushed at the back come off the back last-in first-out, and
/// the list is back as it was.
pub proof fn lemma_back_stack<T>(s: Seq<T>, xs: Seq<T>)
    ensures
        drained_back(pushed_all_back(s, xs), xs.len()) == (s, all_some(xs.reverse())),
{
    lemma_pushed_all_back(s, xs);
    lemma_drained_back(s, xs);
}

/// On a list filled from one end, removals from the other end return the
/// elements first-in first-out and leave the list empty.
pub proof fn lemma_queue<T>(xs: Seq<T>)
    ensures
        drained_back(pushed_all_front(Seq::empty(), xs), xs.len()) == (Seq::<T>::empty(), all_some(xs)),
        drained_front(pushed_all_back(Seq::empty(), xs), xs.len()) == (Seq::<T>::empty(), all_some(xs)),
{
    lemma_pushed_all_front(Seq::empty(), xs);
    lemma_pushed_all_back(Seq::empty(), xs);
    assert(xs.reverse() + Seq::<T>::empty() =~= Seq::<T>::empty() + xs.reverse());
    lemma_drained_back(Seq::<T>::empty(), xs.reverse());
    assert(xs.reverse().reverse() =~= xs);
    assert(Seq::<T>::empty() + xs =~= xs + Seq::<T>::empty());
    lemma_drained_front(xs, Seq::<T>::empty());
}

/// Any number of removals from an empty list, at either end, return nothing
/// and leave it empty.
pub proof fn lemma_empty_removals<T>(n: nat)
    ensures
        drained_front(Seq::<T>::empty(), n) == (Seq::<T>::empty(), Seq::new(n, |i: int| None::<T>)),
        drained_back(Seq::<T>::empty(), n) == (Seq::<T>::empty(), Seq::new(n, |i: int| None::<T>)),
    decreases n,
{
    if n > 0 {
        lemma_empty_removals::<T>((n - 1) as nat);
        assert(seq![None::<T>] + Seq::new((n - 1) as nat, |i: int| None::<T>) =~= Seq::new(n, |i: int| None::<T>));
    } else {
        assert(Seq::new(n, |i: int| None::<T>) =~= Seq::<Option<T>>::empty());
    }
}

} // verus!
