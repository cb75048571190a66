//! Buffers that are written in place.

use vstd::prelude::*;

verus! {

/// A buffer of `n` equal values.
pub open spec fn constant<T>(n: nat, value: T) -> Seq<T> {
    Seq::new(n, |i: int| value)
}

/// A buffer of `n` equal values.
pub fn filled<T: Copy>(n: usize, value: T) -> (v: Vec<T>)
    ensures
        v@ == constant(n as nat, value),
{
    let mut v: Vec<T> = Vec::with_capacity(n);
    let mut i: usize = 0;
    while i < n
        invariant
            i <= n,
            v@ == constant(i as nat, value),
        decreases n - i,
    {
        v.push(value);
        i = i + 1;
    }
    v
}

/// Set every value of a buffer.
pub fn fill<T: Copy>(buf: &mut Vec<T>, value: T)
    ensures
        final(buf)@ == constant(old(buf)@.len(), value),
{
    let n: usize = buf.len();
    let mut i: usize = 0;
    while i < n
        invariant
            i <= n,
            n == buf@.len(),
            forall|k: int| 0 <= k < i ==> buf@[k] == value,
        decreases n - i,
    {
        buf[i] = value;
        i = i + 1;
    }
    assert(buf@ =~= constant(n as nat, value));
}

/// Copy values into a buffer of the same length.
pub fn copy_into<T: Copy>(buf: &mut Vec<T>, values: &[T])
    requires
        old(buf)@.len() == values@.len(),
    ensures
        final(buf)@ == values@,
{
    let n: usize = values.len();
    let mut i: usize = 0;
    while i < n
        invariant
            i <= n,
            n == values@.len(),
            n == buf@.len(),
            forall|k: int| 0 <= k < i ==> buf@[k] == values@[k],
        decreases n - i,
    {
        buf[i] = values[i];
        i = i + 1;
    }
    assert(buf@ =~= values@);
}

/// A buffer of equal values has as many as asked, and they are equal.
pub proof fn lemma_constant<T>(n: nat, value: T, i: int)
    requires
        0 <= i < n,
    ensures
        constant(n, value).len() == n,
        constant(n, value)[i] == value,
{
}

} // verus!
