//! Writing into a growable byte buffer at a position.

use vstd::prelude::*;

verus! {

/// The buffer after `bytes` were written at `pos`: bytes within the buffer
/// are replaced, bytes past its end lengthen it, and a gap between its end
/// and `pos` is filled with zeros. Writing nothing changes nothing.
pub open spec fn write_at(buf: Seq<u8>, pos: int, bytes: Seq<u8>) -> Seq<u8> {
    if bytes.len() == 0 {
        buf
    } else {
        let end = pos + bytes.len();
        Seq::new(
            if buf.len() >= end {
                buf.len()
            } else {
                end as nat
            },
            |i: int|
                if pos <= i < end {
                    bytes[i - pos]
                } else if i < buf.len() {
                    buf[i]
                } else {
                    0u8
                },
        )
    }
}

/// Writes `bytes` into `buf` at `pos`.
pub fn write_bytes(buf: &mut Vec<u8>, pos: usize, bytes: &[u8])
    requires
        pos + bytes@.len() <= usize::MAX,
    ensures
        final(buf)@ == write_at(old(buf)@, pos as int, bytes@),
{
    if bytes.len() == 0 {
        return ;
    }
    while buf.len() < pos
        invariant
            old(buf)@.len() <= buf@.len() <= pos || buf@ == old(buf)@,
            forall|i: int| 0 <= i < old(buf)@.len() ==> buf@[i] == old(buf)@[i],
            forall|i: int| old(buf)@.len() <= i < buf@.len() ==> buf@[i] == 0u8,
        decreases pos - buf@.len(),
    {
        buf.push(0);
    }
    let ghost padded = buf@;
    let mut i: usize = 0;
    while i < bytes.len()
        invariant
            i <= bytes@.len(),
            pos + bytes@.len() <= usize::MAX,
            pos <= padded.len(),
            buf@.len() == if padded.len() >= pos + i {
                padded.len()
            } else {
                (pos + i) as nat
            },
            forall|j: int| pos <= j < pos + i ==> buf@[j] == bytes@[j - pos],
            forall|j: int|
                0 <= j < padded.len() && !(pos <= j < pos + i) ==> buf@[j] == padded[j],
        decreases bytes@.len() - i,
    {
        if pos + i < buf.len() {
            buf[pos + i] = bytes[i];
        } else {
            buf.push(bytes[i]);
        }
        i = i + 1;
    }
    proof {
        let want = write_at(old(buf)@, pos as int, bytes@);
        assert(buf@.len() == want.len());
        assert forall|j: int| 0 <= j < want.len() implies buf@[j] == want[j] by {
            if pos <= j < pos + bytes@.len() {
            } else {
                assert(j < padded.len());
                assert(buf@[j] == padded[j]);
            }
        }
        assert(buf@ =~= want);
    }
}

/// Appends `bytes` to `out`.
pub fn append_bytes(out: &mut Vec<u8>, bytes: &[u8])
    ensures
        final(out)@ == old(out)@ + bytes@,
{
    let mut i: usize = 0;
    while i < bytes.len()
        invariant
            i <= bytes@.len(),
            out@ == old(out)@ + bytes@.subrange(0, i as int),
        decreases bytes@.len() - i,
    {
        out.push(bytes[i]);
        i = i + 1;
        assert(out@ =~= old(out)@ + bytes@.subrange(0, i as int));
    }
    assert(bytes@.subrange(0, i as int) =~= bytes@);
}

} // verus!
