//! Making a patch from two assemblies of the same source.
//!
//! The source is assembled once over an image of zeros and once over an image
//! of `0xff`. Where the two results agree, the assembler has written: those
//! bytes, gathered into runs, are the hunks of the patch.

use vstd::prelude::*;

use crate::error::NeutopiaError;
use crate::patch::{hunk_views, Hunk};
use crate::writer::append_bytes;

verus! {

/// The largest offset that a patch record can hold, and one more.
pub const OFFSET_SPAN: usize = 0x1000000;

/// The largest number of bytes that a patch record can hold, and one more.
pub const PAYLOAD_SPAN: usize = 0x10000;

/// The runs of positions below `k` at which two images agree, each as its
/// first position and the bytes there.
pub open spec fn agreed_runs(zeros: Seq<u8>, effs: Seq<u8>, k: nat) -> Seq<(int, Seq<u8>)>
    decreases k,
{
    if k == 0 {
        Seq::empty()
    } else {
        let before = agreed_runs(zeros, effs, (k - 1) as nat);
        let at = k - 1;
        if zeros[at] != effs[at] {
            before
        } else if at > 0 && zeros[at - 1] == effs[at - 1] {
            before.drop_last().push((before.last().0, before.last().1.push(zeros[at])))
        } else {
            before.push((at, seq![zeros[at]]))
        }
    }
}

/// Where two images agree at a position, a run has been found.
pub proof fn lemma_agreed_runs_nonempty(zeros: Seq<u8>, effs: Seq<u8>, k: nat)
    requires
        0 < k <= zeros.len(),
        zeros.len() == effs.len(),
        zeros[k - 1] == effs[k - 1],
    ensures
        agreed_runs(zeros, effs, k).len() > 0,
{
}

/// Gathers the bytes at which two images agree into hunks.
///
/// Fails with `LengthMismatch` where the images differ in length.
pub fn diff_images(zeros: &[u8], effs: &[u8]) -> (r: Result<Vec<Hunk>, NeutopiaError>)
    ensures
        zeros@.len() != effs@.len() ==> r == Err::<Vec<Hunk>, NeutopiaError>(
            NeutopiaError::LengthMismatch,
        ),
        zeros@.len() == effs@.len() ==> r is Ok && hunk_views(r->Ok_0@) == agreed_runs(
            zeros@,
            effs@,
            zeros@.len(),
        ),
{
    if zeros.len() != effs.len() {
        return Err(NeutopiaError::LengthMismatch);
    }
    let mut hunks: Vec<Hunk> = Vec::new();
    let mut offset: usize = 0;
    assert(hunk_views(hunks@) =~= agreed_runs(zeros@, effs@, 0));
    while offset < zeros.len()
        invariant
            offset <= zeros@.len(),
            zeros@.len() == effs@.len(),
            hunk_views(hunks@) == agreed_runs(zeros@, effs@, offset as nat),
        decreases zeros@.len() - offset,
    {
        let a: u8 = zeros[offset];
        if a == effs[offset] {
            if offset > 0 && zeros[offset - 1] == effs[offset - 1] {
                proof {
                    lemma_agreed_runs_nonempty(zeros@, effs@, offset as nat);
                }
                let ghost before = hunk_views(hunks@);
                let mut hunk = hunks.pop().unwrap();
                hunk.payload.push(a);
                proof {
                    assert(hunk_views(hunks@.push(hunk)) =~= before.drop_last().push(
                        (before.last().0, before.last().1.push(a)),
                    ));
                }
                hunks.push(hunk);
            } else {
                let mut payload: Vec<u8> = Vec::new();
                payload.push(a);
                let hunk = Hunk { offset, payload };
                proof {
                    assert(payload@ =~= seq![a]);
                    assert(hunk_views(hunks@.push(hunk)) =~= hunk_views(hunks@).push(
                        (offset as int, seq![a]),
                    ));
                    if offset > 0 {
                        assert(zeros@[offset - 1] != effs@[offset - 1]);
                    }
                }
                hunks.push(hunk);
            }
        }
        offset = offset + 1;
    }
    Ok(hunks)
}

/// The three bytes of an offset, highest first.
pub open spec fn offset_bytes(offset: int) -> Seq<u8> {
    seq![(offset / 0x10000) as u8, ((offset / 0x100) % 0x100) as u8, (offset % 0x100) as u8]
}

/// The two bytes of a length, higher first.
pub open spec fn length_bytes(len: int) -> Seq<u8> {
    seq![(len / 0x100) as u8, (len % 0x100) as u8]
}

/// The records of the first `k` hunks: for each its offset, the length of
/// its bytes, and its bytes.
pub open spec fn patch_records(hunks: Seq<(int, Seq<u8>)>, k: nat) -> Seq<u8>
    decreases k,
{
    if k == 0 {
        Seq::empty()
    } else {
        patch_records(hunks, (k - 1) as nat) + offset_bytes(hunks[k - 1].0) + length_bytes(
            hunks[k - 1].1.len() as int,
        ) + hunks[k - 1].1
    }
}

/// The bytes of a patch: the word `PATCH`, the records, the word `EOF`.
pub open spec fn patch_bytes(hunks: Seq<(int, Seq<u8>)>) -> Seq<u8> {
    seq![0x50u8, 0x41, 0x54, 0x43, 0x48] + patch_records(hunks, hunks.len()) + seq![
        0x45u8,
        0x4f,
        0x46,
    ]
}

/// Whether every hunk fits the fields of a record.
pub open spec fn recordable(hunks: Seq<(int, Seq<u8>)>) -> bool {
    forall|k: int|
        0 <= k < hunks.len() ==> 0 <= (#[trigger] hunks[k]).0 < OFFSET_SPAN && hunks[k].1.len()
            < PAYLOAD_SPAN
}

/// Writes hunks as a patch.
pub fn write_ips(hunks: &Vec<Hunk>) -> (out: Vec<u8>)
    requires
        recordable(hunk_views(hunks@)),
    ensures
        out@ == patch_bytes(hunk_views(hunks@)),
{
    let mut out: Vec<u8> = Vec::new();
    out.push(0x50);
    out.push(0x41);
    out.push(0x54);
    out.push(0x43);
    out.push(0x48);
    let ghost head = out@;
    let mut k: usize = 0;
    assert(out@ =~= head + patch_records(hunk_views(hunks@), 0));
    while k < hunks.len()
        invariant
            k <= hunks@.len(),
            recordable(hunk_views(hunks@)),
            out@ == head + patch_records(hunk_views(hunks@), k as nat),
        decreases hunks@.len() - k,
    {
        let hunk = &hunks[k];
        assert(hunk_views(hunks@)[k as int] == (hunk.offset as int, hunk.payload@));
        let offset: usize = hunk.offset;
        let len: usize = hunk.payload.len();
        let ghost before = out@;
        out.push((offset / 0x10000) as u8);
        out.push(((offset / 0x100) % 0x100) as u8);
        out.push((offset % 0x100) as u8);
        out.push((len / 0x100) as u8);
        out.push((len % 0x100) as u8);
        append_bytes(&mut out, hunk.payload.as_slice());
        assert(out@ =~= before + offset_bytes(offset as int) + length_bytes(len as int)
            + hunk.payload@);
        k = k + 1;
    }
    out.push(0x45);
    out.push(0x4f);
    out.push(0x46);
    assert(out@ =~= patch_bytes(hunk_views(hunks@)));
    out
}

} // verus!
