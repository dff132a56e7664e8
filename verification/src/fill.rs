//! Filling a buffer from a stream that may deliver its bytes piecemeal.

use vstd::prelude::*;
use crate::stream::{ByteSource, IoFault, overlaid, unread};

verus! {

/// Fills `buf` from `file` as far as the stream allows and returns the number
/// of bytes placed at the front of `buf`.
///
/// Short reads are retried, so the count is the capacity of `buf` unless the
/// stream ends first, in which case it is the number of bytes that were left.
/// Bytes of `buf` beyond the count keep their value. A fault reported by the
/// stream is passed on at once.
pub fn fill_buf<T: ByteSource>(file: &mut T, buf: &mut Vec<u8>) -> (r: Result<usize, IoFault>)
    ensures
        final(file).content() == old(file).content(),
        final(file).reliable() == old(file).reliable(),
        final(buf).len() == old(buf).len(),
        match r {
            Ok(n) => {
                &&& n <= old(buf).len()
                &&& n <= unread(old(file).content(), old(file).cursor()).len()
                &&& n == old(buf).len() || n == unread(old(file).content(), old(file).cursor()).len()
                &&& final(file).cursor() == old(file).cursor() + n
                &&& n > 0 ==> old(file).cursor() + n <= u64::MAX
                &&& final(buf)@ == overlaid(
                    old(buf)@,
                    0,
                    unread(old(file).content(), old(file).cursor()).take(n as int),
                )
            },
            Err(_) => !old(file).reliable(),
        },
{
    let capacity = buf.len();
    let mut filled: usize = 0;
    let ghost pending = unread(old(file).content(), old(file).cursor());
    while filled < capacity
        invariant
            capacity == buf.len() == old(buf).len(),
            filled <= capacity,
            filled <= pending.len(),
            pending == unread(old(file).content(), old(file).cursor()),
            file.content() == old(file).content(),
            file.reliable() == old(file).reliable(),
            file.cursor() == old(file).cursor() + filled,
            filled > 0 ==> file.cursor() <= u64::MAX,
            buf@ == overlaid(old(buf)@, 0, pending.take(filled as int)),
        ensures
            filled == capacity || filled == pending.len(),
        decreases capacity - filled,
    {
        let ghost before = buf@;
        let ghost rest = unread(file.content(), file.cursor());
        let got = file.read_into(buf, filled)?;
        if got == 0 {
            assert(buf@ == before);
            break;
        }
        proof {
            assert(rest == pending.skip(filled as int));
            assert(buf@ =~= overlaid(old(buf)@, 0, pending.take(filled + got)));
        }
        filled = filled + got;
    }
    Ok(filled)
}

} // verus!
