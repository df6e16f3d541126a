//! Views of sequences and options whose items have views of their own.

use vstd::prelude::*;

verus! {

/// The views of the items of a sequence.
pub open spec fn seq_view<T: View>(items: Seq<T>) -> Seq<T::V> {
    items.map_values(|item: T| item@)
}

/// The view of the value that an option may hold.
pub open spec fn opt_view<T: View>(item: Option<T>) -> Option<T::V> {
    match item {
        Some(value) => Some(value@),
        None => None,
    }
}

/// The views of the options of a sequence.
pub open spec fn opts_view<T: View>(items: Seq<Option<T>>) -> Seq<Option<T::V>> {
    items.map_values(|item: Option<T>| opt_view(item))
}

/// A result whose failure is viewed and whose value is taken as it is.
pub open spec fn outcome_view<T, E: View>(outcome: Result<T, E>) -> Result<T, E::V> {
    match outcome {
        Ok(value) => Ok(value),
        Err(error) => Err(error@),
    }
}

/// A result whose value and failure are both viewed.
pub open spec fn result_view<T: View, E: View>(outcome: Result<T, E>) -> Result<T::V, E::V> {
    match outcome {
        Ok(value) => Ok(value@),
        Err(error) => Err(error@),
    }
}

/// A result that may hold a value, viewed.
pub open spec fn result_opt_view<T: View, E: View>(outcome: Result<Option<T>, E>) -> Result<
    Option<T::V>,
    E::V,
> {
    match outcome {
        Ok(value) => Ok(opt_view(value)),
        Err(error) => Err(error@),
    }
}

/// Sequences are viewed item by item, and options and results by what they hold.
pub proof fn views_are_of_what_is_held<T: View, E: View>(
    items: Seq<T>,
    options: Seq<Option<T>>,
    at: int,
    value: T,
    error: E,
)
    ensures
        seq_view(items).len() == items.len(),
        0 <= at < items.len() ==> seq_view(items)[at] == items[at]@,
        opts_view(options).len() == options.len(),
        0 <= at < options.len() ==> opts_view(options)[at] == opt_view(options[at]),
        opt_view(Some(value)) == Some(value@),
        opt_view(None::<T>) is None,
        outcome_view(Ok::<T, E>(value)) == Ok::<T, E::V>(value),
        outcome_view(Err::<T, E>(error)) == Err::<T, E::V>(error@),
        result_view(Ok::<T, E>(value)) == Ok::<T::V, E::V>(value@),
        result_view(Err::<T, E>(error)) == Err::<T::V, E::V>(error@),
        result_opt_view(Ok::<Option<T>, E>(Some(value))) == Ok::<Option<T::V>, E::V>(Some(value@)),
        result_opt_view(Ok::<Option<T>, E>(None)) == Ok::<Option<T::V>, E::V>(None),
        result_opt_view(Err::<Option<T>, E>(error)) == Err::<Option<T::V>, E::V>(error@),
{
}

} // verus!
