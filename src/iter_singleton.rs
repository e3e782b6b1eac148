use vstd::prelude::*;

verus! {

/// Why a sequence that should hold one item does not.
#[derive(Clone, Copy, Debug)]
pub enum SingletonError<T> {
    /// Expected one item, but found none.
    ZeroItems,
    /// Expected one item, but found at least two: the first two.
    MultipleItems([T; 2]),
}

/// The only item of `items`, or why there is not exactly one.
pub fn singleton<T: Copy>(items: &[T]) -> (r: Result<T, SingletonError<T>>)
    ensures
        items@.len() == 0 <==> r matches Err(SingletonError::ZeroItems),
        items@.len() == 1 <==> r.is_ok(),
        items@.len() == 1 ==> r == Ok::<T, SingletonError<T>>(items@[0]),
        items@.len() >= 2 ==> (r matches Err(SingletonError::MultipleItems(p)) && p@ == seq![
            items@[0],
            items@[1],
        ]),
{
    if items.len() == 0 {
        Err(SingletonError::ZeroItems)
    } else if items.len() == 1 {
        Ok(items[0])
    } else {
        let p = [items[0], items[1]];
        assert(p@ =~= seq![items@[0], items@[1]]);
        Err(SingletonError::MultipleItems(p))
    }
}

} // verus!
