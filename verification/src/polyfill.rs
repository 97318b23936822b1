//! Byte-buffer primitives: the memory-move and memory-set operations the
//! kernel needs before any runtime exists, stated and proved over a byte
//! buffer.

use vstd::prelude::*;

verus! {

/// Set the first `n` bytes of `buf` to `c`.
pub fn set_bytes(buf: &mut Vec<u8>, c: u8, n: usize)
    requires
        n <= old(buf).len(),
    ensures
        final(buf).len() == old(buf).len(),
        forall|i: int| 0 <= i < n ==> final(buf)[i] == c,
        forall|i: int| n <= i < old(buf).len() ==> final(buf)[i] == old(buf)[i],
{
    let mut i: usize = 0;
    while i < n
        invariant
            i <= n <= buf.len(),
            buf.len() == old(buf).len(),
            forall|j: int| 0 <= j < i ==> buf[j] == c,
            forall|j: int| i <= j < buf.len() ==> buf[j] == old(buf)[j],
        decreases n - i,
    {
        buf.set(i, c);
        i += 1;
    }
}

/// Copy `n` bytes within `buf` from `src..src + n` to `dest..dest + n`,
/// walking forward. Correct when the destination does not cut the source
/// from above: `dest <= src` or the ranges are disjoint.
#[verifier::loop_isolation(false)]
pub fn copy_forward(buf: &mut Vec<u8>, dest: usize, src: usize, n: usize)
    requires
        src + n <= old(buf).len(),
        dest + n <= old(buf).len(),
        dest <= src || src + n <= dest,
    ensures
        final(buf).len() == old(buf).len(),
        forall|i: int|
            dest <= i < dest + n ==> #[trigger] final(buf)[i] == old(buf)[i - dest + src],
        forall|i: int|
            0 <= i < old(buf).len() && !(dest <= i < dest + n) ==> #[trigger] final(buf)[i]
                == old(buf)[i],
{
    let mut i: usize = 0;
    while i < n
        invariant
            i <= n,
            buf.len() == old(buf).len(),
            forall|j: int| dest <= j < dest + i ==> #[trigger] buf[j] == old(buf)[j - dest + src],
            forall|j: int|
                0 <= j < buf.len() && !(dest <= j < dest + i) ==> #[trigger] buf[j] == old(buf)[j],
        decreases n - i,
    {
        let v = buf[src + i];
        buf.set(dest + i, v);
        i += 1;
    }
}

/// Copy `n` bytes within `buf` from `src..src + n` to `dest..dest + n`,
/// walking backward. Correct when the destination does not cut the source
/// from below: `dest >= src` or the ranges are disjoint.
#[verifier::loop_isolation(false)]
pub fn copy_backward(buf: &mut Vec<u8>, dest: usize, src: usize, n: usize)
    requires
        src + n <= old(buf).len(),
        dest + n <= old(buf).len(),
        src <= dest || dest + n <= src,
    ensures
        final(buf).len() == old(buf).len(),
        forall|i: int|
            dest <= i < dest + n ==> #[trigger] final(buf)[i] == old(buf)[i - dest + src],
        forall|i: int|
            0 <= i < old(buf).len() && !(dest <= i < dest + n) ==> #[trigger] final(buf)[i]
                == old(buf)[i],
{
    let mut i: usize = n;
    while i > 0
        invariant
            i <= n,
            buf.len() == old(buf).len(),
            forall|j: int|
                dest + i <= j < dest + n ==> #[trigger] buf[j] == old(buf)[j - dest + src],
            forall|j: int|
                0 <= j < buf.len() && !(dest + i <= j < dest + n) ==> #[trigger] buf[j] == old(
                    buf,
                )[j],
        decreases i,
    {
        i -= 1;
        let v = buf[src + i];
        buf.set(dest + i, v);
    }
}

/// Copy `n` bytes within `buf` from `src..src + n` to `dest..dest + n`,
/// choosing the walk direction so that any overlap is handled, and return
/// the destination offset.
pub fn memmove(buf: &mut Vec<u8>, dest: usize, src: usize, n: usize) -> (r: usize)
    requires
        src + n <= old(buf).len(),
        dest + n <= old(buf).len(),
    ensures
        r == dest,
        final(buf).len() == old(buf).len(),
        forall|i: int|
            dest <= i < dest + n ==> #[trigger] final(buf)[i] == old(buf)[i - dest + src],
        forall|i: int|
            0 <= i < old(buf).len() && !(dest <= i < dest + n) ==> #[trigger] final(buf)[i]
                == old(buf)[i],
{
    if dest < src || src + n <= dest {
        // dest is below src, or the ranges are disjoint: forward is safe.
        copy_forward(buf, dest, src, n);
    } else {
        copy_backward(buf, dest, src, n);
    }
    dest
}

/// Set the first `n` bytes of `buf` to the low byte of `c`.
pub fn memset(buf: &mut Vec<u8>, c: i32, n: usize)
    requires
        n <= old(buf).len(),
    ensures
        final(buf).len() == old(buf).len(),
        forall|i: int| 0 <= i < n ==> final(buf)[i] == c as u8,
        forall|i: int| n <= i < old(buf).len() ==> final(buf)[i] == old(buf)[i],
{
    let b: u8 = #[verifier::truncate] (c as u8);
    set_bytes(buf, b, n);
}

} // verus!
