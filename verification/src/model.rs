//! Views of sequences.
use vstd::prelude::*;

verus! {

/// The views of the elements of `s`, in order.
pub open spec fn views<T: View>(s: Seq<T>) -> Seq<T::V> {
    Seq::new(s.len(), |i: int| s[i]@)
}

/// The view of what `value` holds.
pub open spec fn opt_view<T: View>(value: Option<T>) -> Option<T::V> {
    match value {
        Some(v) => Some(v@),
        None => None,
    }
}

/// Views commute with appending an element.
pub broadcast proof fn views_push<T: View>(s: Seq<T>, value: T)
    ensures
        #[trigger] views(s.push(value)) == views(s).push(value@),
{
    assert(views(s.push(value)) =~= views(s).push(value@));
}

/// Views commute with concatenation.
pub broadcast proof fn views_add<T: View>(a: Seq<T>, b: Seq<T>)
    ensures
        #[trigger] views(a + b) == views(a) + views(b),
{
    assert(views(a + b) =~= views(a) + views(b));
}

/// Views commute with taking a part.
pub broadcast proof fn views_subrange<T: View>(s: Seq<T>, from: int, to: int)
    requires
        0 <= from <= to <= s.len(),
    ensures
        #[trigger] views(s.subrange(from, to)) == views(s).subrange(from, to),
{
    assert(views(s.subrange(from, to)) =~= views(s).subrange(from, to));
}

/// Views commute with replacing an element.
pub broadcast proof fn views_update<T: View>(s: Seq<T>, i: int, value: T)
    requires
        0 <= i < s.len(),
    ensures
        #[trigger] views(s.update(i, value)) == views(s).update(i, value@),
{
    assert(views(s.update(i, value)) =~= views(s).update(i, value@));
}

pub broadcast group group_views {
    views_push,
    views_add,
    views_subrange,
    views_update,
}

} // verus!
