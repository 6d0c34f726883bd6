//! Vectors that only grow.

use vstd::prelude::*;

verus! {

/// `Vec::capacity`: the number of elements that the vector has room for, which is never
/// less than its length. How much more room there is depends on the allocator and is left
/// unsaid.
#[verifier::external_body]
fn vec_capacity<T>(vec: &Vec<T>) -> (r: usize)
    ensures
        r >= vec@.len(),
{
    vec.capacity()
}

/// `Vec::reserve_exact`: makes room without touching the elements. It panics when the
/// vector would take more than `isize::MAX` bytes, or have more elements than can be counted.
/// How much room there is afterwards is not part of the vector's value and is left unsaid.
#[verifier::external_body]
fn vec_reserve_exact<T>(vec: &mut Vec<T>, additional: usize)
    requires
        fits(old(vec)@.len(), additional as nat, vstd::layout::size_of::<T>()),
    ensures
        final(vec)@ == old(vec)@,
{
    vec.reserve_exact(additional)
}

/// By how much to grow a vector of `len` elements of `elem_size` bytes that needs room for
/// `additional` more: an eighth of its length, but at least 64 KiB and what is asked for.
pub open spec fn growth_step(len: nat, elem_size: nat, additional: nat) -> nat {
    let eighth = len / 8;
    let page = 0x10000nat / elem_size;
    let step = if eighth >= page {
        eighth
    } else {
        page
    };
    if step >= additional {
        step
    } else {
        additional
    }
}

/// Whether `step` more elements fit in memory behind `len` of them: they can be counted, and all
/// of them together take at most `isize::MAX` bytes.
pub open spec fn fits(len: nat, step: nat, elem_size: nat) -> bool {
    len + step <= usize::MAX && (len + step) * elem_size <= isize::MAX
}

/// The room that is asked for in a table that only grows and has room for `capacity` elements,
/// before `additional` more are added.
pub open spec fn append_only_request(
    len: nat,
    capacity: nat,
    elem_size: nat,
    additional: nat,
) -> Option<usize> {
    let step = growth_step(len, elem_size, additional);
    if elem_size > 0 && capacity - len < additional && fits(len, step, elem_size) {
        Some(step as usize)
    } else {
        None
    }
}

/// The room that is asked for in a table that grows by `step` elements at a time and has room for
/// `capacity` elements, before one more is added.
pub open spec fn fixed_request(len: nat, capacity: nat, elem_size: nat, step: nat) -> Option<usize> {
    if len == capacity && fits(len, step, elem_size) {
        Some(step as usize)
    } else {
        None
    }
}

/// How many elements to make room for in a table that only grows, given its length and the
/// number of elements that it has room for, before `additional` more are added. None if there is
/// room enough.
pub fn append_only_growth(len: usize, capacity: usize, elem_size: usize, additional: usize) -> (r:
    Option<usize>)
    requires
        len <= capacity,
        elem_size > 0,
    ensures
        match r {
            Some(step) => capacity - len < additional && step == growth_step(
                len as nat,
                elem_size as nat,
                additional as nat,
            ),
            None => capacity - len >= additional,
        },
{
    if capacity - len >= additional {
        return None;
    }
    let eighth: usize = len / 8;
    let page: usize = 0x10000 / elem_size;
    let step: usize = if eighth >= page {
        eighth
    } else {
        page
    };
    if step >= additional {
        Some(step)
    } else {
        Some(additional)
    }
}

/// How many elements to make room for in a table that grows by `step` elements at a time, before
/// one more is added. None if there is room for it.
pub fn fixed_growth(len: usize, capacity: usize, step: usize) -> (r: Option<usize>)
    ensures
        r == if len == capacity {
            Some(step)
        } else {
            None
        },
{
    if len == capacity {
        Some(step)
    } else {
        None
    }
}

/// Make room for `step` more elements, unless that would be more than fits in memory. Returns
/// whether that room was asked for.
fn reserve_step<T>(vec: &mut Vec<T>, step: usize) -> (r: bool)
    ensures
        r == fits(old(vec)@.len(), step as nat, vstd::layout::size_of::<T>()),
        final(vec)@ == old(vec)@,
{
    let elem_size: usize = core::mem::size_of::<T>();
    let len: usize = vec.len();
    if let Some(total) = len.checked_add(step) {
        if let Some(bytes) = total.checked_mul(elem_size) {
            if bytes <= isize::MAX as usize {
                vec_reserve_exact(vec, step);
                return true;
            }
        }
    }
    false
}

/// Reserve room for `additional` more elements in a table that only grows. Doubling would
/// leave up to as much unused as used, so grow by an eighth instead; the extra copying only
/// happens while compiling.
///
/// Returns how many elements room was asked for, which depends on the room that there was. How
/// much room the allocator gives is not part of the vector's value.
pub fn reserve_append_only<T>(vec: &mut Vec<T>, additional: usize) -> (r: Option<usize>)
    ensures
        final(vec)@ == old(vec)@,
        exists|capacity: usize|
            capacity >= old(vec)@.len() && r == #[trigger] append_only_request(
                old(vec)@.len(),
                capacity as nat,
                vstd::layout::size_of::<T>(),
                additional as nat,
            ),
{
    let elem_size: usize = core::mem::size_of::<T>();
    let len: usize = vec.len();
    let capacity: usize = vec_capacity(vec);
    let ghost request = append_only_request(
        len as nat,
        capacity as nat,
        elem_size as nat,
        additional as nat,
    );
    if elem_size > 0 {
        if let Some(step) = append_only_growth(len, capacity, elem_size, additional) {
            if reserve_step(vec, step) {
                assert(request == Some(step));
                return Some(step);
            }
        }
    }
    assert(request is None);
    None
}

/// Reserve room for one more element in a table that only grows, `step` elements at a time.
///
/// Returns how many elements room was asked for, which depends on the room that there was. How
/// much room the allocator gives is not part of the vector's value.
pub fn reserve_fixed_step<T>(vec: &mut Vec<T>, step: usize) -> (r: Option<usize>)
    ensures
        final(vec)@ == old(vec)@,
        exists|capacity: usize|
            capacity >= old(vec)@.len() && r == #[trigger] fixed_request(
                old(vec)@.len(),
                capacity as nat,
                vstd::layout::size_of::<T>(),
                step as nat,
            ),
{
    let elem_size: usize = core::mem::size_of::<T>();
    let len: usize = vec.len();
    let capacity: usize = vec_capacity(vec);
    let ghost request = fixed_request(
        len as nat,
        capacity as nat,
        elem_size as nat,
        step as nat,
    );
    if let Some(room) = fixed_growth(len, capacity, step) {
        if reserve_step(vec, room) {
            assert(request == Some(room));
            return Some(room);
        }
    }
    assert(request is None);
    None
}

} // verus!
