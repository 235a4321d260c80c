//! What a store of one value per thread makes of the status codes of the thread library.
use vstd::prelude::*;

verus! {

/// A status code as a result: zero is success, anything else is the error of that number.
pub fn c_err_to_res(res: i32) -> (result: Result<(), i32>)
    ensures
        res == 0 ==> result == Ok::<(), i32>(()),
        res != 0 ==> result == Err::<(), i32>(res),
{
    if res == 0 {
        Ok(())
    } else {
        Err(res)
    }
}

/// What is to be released after the value of a thread was to be replaced, with status `res`: the
/// value `old` that was there before, if there was one. If replacing it failed, `old` is still in
/// place, and the error is returned.
pub fn displaced<P>(res: i32, old: Option<P>) -> (result: Result<Option<P>, i32>)
    ensures
        res == 0 ==> result == Ok::<Option<P>, i32>(old),
        res != 0 ==> result == Err::<Option<P>, i32>(res),
{
    match c_err_to_res(res) {
        Ok(()) => Ok(old),
        Err(error) => Err(error),
    }
}

} // verus!
