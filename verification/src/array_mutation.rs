//! Element-wise arithmetic on arrays of `u32`, by value and in place.
use vstd::prelude::*;

verus! {

/// `v op m` stays within `u32` (and does not divide by zero).
pub open spec fn op_defined(v: u32, op: char, m: u32) -> bool {
    if op == '+' {
        v + m <= u32::MAX
    } else if op == '-' {
        v >= m
    } else if op == '*' {
        v * m <= u32::MAX
    } else if op == '/' {
        m != 0
    } else {
        true
    }
}

/// `v op m`, or `other` for an operator that is none of `+ - * /`.
pub open spec fn op_result(v: u32, op: char, m: u32, other: u32) -> u32 {
    if op == '+' {
        (v + m) as u32
    } else if op == '-' {
        (v - m) as u32
    } else if op == '*' {
        (v * m) as u32
    } else if op == '/' {
        v / m
    } else {
        other
    }
}

fn apply_op(v: u32, op: char, m: u32, other: u32) -> (r: u32)
    requires
        op_defined(v, op, m),
    ensures
        r == op_result(v, op, m, other),
{
    match op {
        '+' => v + m,
        '-' => v - m,
        '*' => v * m,
        '/' => v / m,
        _ => other,
    }
}

/// A new array: each element combined with `other_member`; an unknown
/// operator gives zeros.
pub fn array_mut_ownership(array: [u32; 5], operation: char, other_member: u32) -> (r: [u32; 5])
    requires
        forall|i: int| 0 <= i < 5 ==> op_defined(#[trigger] array@[i], operation, other_member),
    ensures
        forall|i: int| 0 <= i < 5 ==> #[trigger] r@[i] == op_result(array@[i], operation, other_member, 0),
{
    let mut new_array: [u32; 5] = [0, 0, 0, 0, 0];
    let mut i: usize = 0;
    while i < 5
        invariant
            i <= 5,
            forall|j: int| 0 <= j < 5 ==> op_defined(#[trigger] array@[j], operation, other_member),
            forall|j: int| 0 <= j < i ==> #[trigger] new_array@[j] == op_result(array@[j], operation, other_member, 0),
            forall|j: int| i <= j < 5 ==> #[trigger] new_array@[j] == 0,
        decreases 5 - i,
    {
        new_array[i] = apply_op(array[i], operation, other_member, 0);
        i = i + 1;
    }
    new_array
}

/// Each element combined with `other_member`, in place; an unknown
/// operator leaves the elements as they are.
pub fn array_mut_mut(array: &mut [u32], operation: char, other_member: u32)
    requires
        forall|i: int| 0 <= i < old(array)@.len() ==> op_defined(#[trigger] old(array)@[i], operation, other_member),
    ensures
        final(array)@.len() == old(array)@.len(),
        forall|i: int|
            0 <= i < old(array)@.len() ==> #[trigger] final(array)@[i] == op_result(
                old(array)@[i],
                operation,
                other_member,
                old(array)@[i],
            ),
{
    let n = array.len();
    let mut i: usize = 0;
    while i < n
        invariant
            n == array@.len() == old(array)@.len(),
            i <= n,
            forall|j: int| 0 <= j < n ==> op_defined(#[trigger] old(array)@[j], operation, other_member),
            forall|j: int| 0 <= j < i ==> #[trigger] array@[j] == op_result(old(array)@[j], operation, other_member, old(array)@[j]),
            forall|j: int| i <= j < n ==> #[trigger] array@[j] == old(array)@[j],
        decreases n - i,
    {
        let v = array[i];
        array[i] = apply_op(v, operation, other_member, v);
        i = i + 1;
    }
}

} // verus!
