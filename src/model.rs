use vstd::prelude::*;

verus! {

/// The list after `x` is inserted at the front of `s`.
pub open spec fn pushed_front<T>(s: Seq<T>, x: T) -> Seq<T> {
    seq![x] + s
}

/// The list after `x` is inserted at the back of `s`.
pub open spec fn pushed_back<T>(s: Seq<T>, x: T) -> Seq<T> {
    s.push(x)
}

/// The list left after removing the front of `s`, and the element removed
/// (`None`, with `s` unchanged, when `s` is empty).
pub open spec fn popped_front<T>(s: Seq<T>) -> (Seq<T>, Option<T>) {
    if s.len() == 0 {
        (s, None)
    } else {
        (s.drop_first(), Some(s[0]))
    }
}

/// The list left after removing the back of `s`, and the element removed
/// (`None`, with `s` unchanged, when `s` is empty).
pub open spec fn popped_back<T>(s: Seq<T>) -> (Seq<T>, Option<T>) {
    if s.len() == 0 {
        (s, None)
    } else {
        (s.drop_last(), Some(s.last()))
    }
}

} // verus!
