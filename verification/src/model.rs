//! How executable results are held against what a specification gives.

use vstd::prelude::*;

verus! {

/// The views of a sequence of values.
pub open spec fn views<T: View>(s: Seq<T>) -> Seq<T::V> {
    Seq::new(s.len(), |i: int| s[i]@)
}

/// Whether an executable result is the one a specification gives, errors taken by view.
pub open spec fn same<T, E: View>(r: Result<T, E>, s: Result<T, E::V>) -> bool {
    match (r, s) {
        (Ok(a), Ok(b)) => a == b,
        (Err(e), Err(f)) => e@ == f,
        _ => false,
    }
}

/// As [`same`], the value taken by its view too.
pub open spec fn same_view<T: View, E: View>(r: Result<T, E>, s: Result<T::V, E::V>) -> bool {
    match (r, s) {
        (Ok(a), Ok(b)) => a@ == b,
        (Err(e), Err(f)) => e@ == f,
        _ => false,
    }
}

/// As [`same`], for a list of values taken by their views.
pub open spec fn same_views<T: View, E: View>(
    r: Result<Vec<T>, E>,
    s: Result<Seq<T::V>, E::V>,
) -> bool {
    match (r, s) {
        (Ok(a), Ok(b)) => views(a@) == b,
        (Err(e), Err(f)) => e@ == f,
        _ => false,
    }
}

/// As [`same`], for a value that may be missing, taken by its view.
pub open spec fn same_option<T: View, E: View>(
    r: Result<Option<T>, E>,
    s: Result<Option<T::V>, E::V>,
) -> bool {
    match (r, s) {
        (Ok(Some(a)), Ok(Some(b))) => a@ == b,
        (Ok(None), Ok(None)) => true,
        (Err(e), Err(f)) => e@ == f,
        _ => false,
    }
}

/// Adding one value adds its view.
pub proof fn lemma_views_push<T: View>(s: Seq<T>, x: T)
    ensures
        views(s.push(x)) == views(s).push(x@),
{
    assert(views(s.push(x)) =~= views(s).push(x@));
}

} // verus!
