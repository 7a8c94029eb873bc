//! Checked integer conversions between the library's sizes and the native
//! layer's `c_int` counts and tags.

use conv::ValueInto;
use vstd::prelude::*;

verus! {

/// Relies on `conv::ValueInto<i32> for usize`: the value itself when it is at
/// most `i32::MAX`, an overflow error otherwise.
#[verifier::external_body]
fn usize_into_c_int(n: usize) -> (r: Option<i32>)
    ensures
        n <= i32::MAX ==> r == Some(n as i32),
        n > i32::MAX ==> r.is_none(),
{
    let v: Result<i32, _> = n.value_into();
    v.ok()
}

/// Relies on `conv::ValueInto<i32> for u16`: a widening that cannot fail.
#[verifier::external_body]
fn u16_into_c_int(n: u16) -> (r: i32)
    ensures
        r == n as i32,
{
    let v: Result<i32, _> = n.value_into();
    match v {
        Ok(x) => x,
        Err(e) => match e {},
    }
}

/// Relies on `conv::ValueInto<usize> for i32`: the value itself when it is
/// not negative, an error otherwise.
#[verifier::external_body]
fn c_int_into_usize(n: i32) -> (r: Option<usize>)
    ensures
        n >= 0 ==> r == Some(n as usize),
        n < 0 ==> r.is_none(),
{
    let v: Result<usize, _> = n.value_into();
    v.ok()
}

/// The request count handed to a batch completion call, or `None` when the
/// count does not fit the native signed 32-bit argument.
pub fn request_count(n: usize) -> (r: Option<i32>)
    ensures
        r == (if n <= i32::MAX { Some(n as i32) } else { None::<i32> }),
{
    usize_into_c_int(n)
}

/// The native tag for a caller-visible 16-bit tag.  Every `u16` lies under
/// the smallest tag bound that the messaging layer guarantees, so the
/// conversion never fails.
pub fn native_tag(tag: u16) -> (r: i32)
    ensures
        r == tag as i32,
        0 <= r <= 0xFFFF,
{
    u16_into_c_int(tag)
}

/// The element count that a probe status reports, as a buffer length; `None`
/// for a negative (undefined) count.
pub fn element_count(count: i32) -> (r: Option<usize>)
    ensures
        r == (if count >= 0 { Some(count as usize) } else { None::<usize> }),
{
    c_int_into_usize(count)
}

} // verus!
