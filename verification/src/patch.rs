//! Application of IPS patches to an image.
//!
//! A patch is a list of hunks, each an offset and the bytes to write there.
//! The image keeps its size: a hunk that reaches past its end is cut there
//! and ends the patching with an error.

use vstd::prelude::*;

use crate::error::NeutopiaError;

verus! {

/// One record of a patch: bytes to write at an offset.
#[derive(Clone, Debug)]
pub struct Hunk {
    pub offset: usize,
    pub payload: Vec<u8>,
}

/// The mathematical content of a list of hunks.
pub open spec fn hunk_views(hunks: Seq<Hunk>) -> Seq<(int, Seq<u8>)> {
    hunks.map_values(|h: Hunk| (h.offset as int, h.payload@))
}

/// The error that `ips::Patch::parse` gives for bytes that are no patch.
#[verifier::external_type_specification]
#[verifier::external_body]
pub struct ExIpsError(ips::Error);

/// The hunks that a patch holds, each as its offset and its bytes, or
/// `None` for bytes that are no patch.
pub uninterp spec fn ips_hunks(data: Seq<u8>) -> Option<Seq<(int, Seq<u8>)>>;

/// Parses a patch with `ips::Patch::parse` and hands out its hunks. The
/// contract names what the parser finds `ips_hunks(data)`: the hunks are a
/// function of the bytes alone.
#[verifier::external_body]
fn parse_patch(data: &[u8]) -> (r: Result<Vec<Hunk>, ips::Error>)
    ensures
        match r {
            Ok(hunks) => ips_hunks(data@) == Some(hunk_views(hunks@)),
            Err(_) => ips_hunks(data@) is None,
        },
{
    let patch = ips::Patch::parse(data)?;
    Ok(
        patch.hunks().iter().map(
            |h| Hunk { offset: h.offset(), payload: h.payload().to_vec() },
        ).collect(),
    )
}

/// Whether a hunk lies within a buffer of `len` bytes. A hunk without bytes
/// lies within any buffer.
pub open spec fn hunk_fits(len: nat, offset: int, payload: Seq<u8>) -> bool {
    payload.len() == 0 || offset + payload.len() <= len
}

/// The buffer after a hunk was written: the bytes of the hunk that lie
/// within the buffer replace what was there.
pub open spec fn overwritten(buf: Seq<u8>, offset: int, payload: Seq<u8>) -> Seq<u8> {
    Seq::new(
        buf.len(),
        |i: int|
            if offset <= i < offset + payload.len() {
                payload[i - offset]
            } else {
                buf[i]
            },
    )
}

/// The buffer after the first `k` hunks were applied in order, and whether
/// all of them lay within it. At the first hunk that does not, what lies
/// within the buffer is still written, and the patching stops.
pub open spec fn hunks_applied(buf: Seq<u8>, hunks: Seq<(int, Seq<u8>)>, k: nat) -> (Seq<u8>, bool)
    decreases k,
{
    if k == 0 {
        (buf, true)
    } else {
        let (before, ok) = hunks_applied(buf, hunks, (k - 1) as nat);
        if !ok {
            (before, false)
        } else {
            let (offset, payload) = hunks[k - 1];
            (overwritten(before, offset, payload), hunk_fits(before.len(), offset, payload))
        }
    }
}

/// Once a hunk has failed, nothing more is applied.
pub proof fn lemma_hunks_applied_stops(buf: Seq<u8>, hunks: Seq<(int, Seq<u8>)>, k: nat, n: nat)
    requires
        k <= n,
        !hunks_applied(buf, hunks, k).1,
    ensures
        hunks_applied(buf, hunks, n) == hunks_applied(buf, hunks, k),
    decreases n,
{
    if k < n {
        lemma_hunks_applied_stops(buf, hunks, k, (n - 1) as nat);
    }
}

/// Patching keeps the size of the buffer.
pub proof fn lemma_hunks_applied_len(buf: Seq<u8>, hunks: Seq<(int, Seq<u8>)>, k: nat)
    ensures
        hunks_applied(buf, hunks, k).0.len() == buf.len(),
    decreases k,
{
    if k > 0 {
        lemma_hunks_applied_len(buf, hunks, (k - 1) as nat);
    }
}

/// Writes one hunk into `buf` and says whether it lay within it.
fn apply_hunk(buf: &mut Vec<u8>, hunk: &Hunk) -> (fits: bool)
    ensures
        final(buf)@ == overwritten(old(buf)@, hunk.offset as int, hunk.payload@),
        fits == hunk_fits(old(buf)@.len(), hunk.offset as int, hunk.payload@),
{
    let mut i: usize = 0;
    while i < hunk.payload.len() && i < buf.len() && hunk.offset < buf.len() - i
        invariant
            i <= hunk.payload@.len(),
            buf@.len() == old(buf)@.len(),
            i > 0 ==> hunk.offset + i <= buf@.len(),
            forall|j: int|
                hunk.offset <= j < hunk.offset + i ==> buf@[j] == hunk.payload@[j - hunk.offset],
            forall|j: int|
                0 <= j < buf@.len() && !(hunk.offset <= j < hunk.offset + i) ==> buf@[j] == old(
                    buf,
                )@[j],
        decreases hunk.payload@.len() - i,
    {
        buf[hunk.offset + i] = hunk.payload[i];
        i = i + 1;
    }
    assert(buf@ =~= overwritten(old(buf)@, hunk.offset as int, hunk.payload@));
    i == hunk.payload.len()
}

/// Applies hunks to `buf` in order.
///
/// Fails with `PatchOutOfBounds` at the first hunk that reaches past the
/// end of `buf`; the hunks before it have been applied, and so has the part
/// of it that lies within `buf`.
pub fn apply_hunks(buf: &mut Vec<u8>, hunks: &Vec<Hunk>) -> (r: Result<(), NeutopiaError>)
    ensures
        final(buf)@ == hunks_applied(old(buf)@, hunk_views(hunks@), hunks@.len()).0,
        hunks_applied(old(buf)@, hunk_views(hunks@), hunks@.len()).1 ==> r is Ok,
        !hunks_applied(old(buf)@, hunk_views(hunks@), hunks@.len()).1 ==> r == Err::<
            (),
            NeutopiaError,
        >(NeutopiaError::PatchOutOfBounds),
{
    let mut k: usize = 0;
    while k < hunks.len()
        invariant
            k <= hunks@.len(),
            hunks_applied(old(buf)@, hunk_views(hunks@), k as nat) == (buf@, true),
        decreases hunks@.len() - k,
    {
        let fits = apply_hunk(buf, &hunks[k]);
        assert(hunk_views(hunks@)[k as int] == (
            hunks@[k as int].offset as int,
            hunks@[k as int].payload@,
        ));
        if !fits {
            proof {
                lemma_hunks_applied_stops(
                    old(buf)@,
                    hunk_views(hunks@),
                    (k + 1) as nat,
                    hunks@.len(),
                );
            }
            return Err(NeutopiaError::PatchOutOfBounds);
        }
        k = k + 1;
    }
    Ok(())
}

/// The buffer after a patch was applied, and how the patching ended.
pub open spec fn patch_applied(buf: Seq<u8>, patch: Seq<u8>) -> (
    Seq<u8>,
    Result<(), NeutopiaError>,
) {
    match ips_hunks(patch) {
        None => (buf, Err(NeutopiaError::InvalidPatch)),
        Some(hunks) => {
            let (after, ok) = hunks_applied(buf, hunks, hunks.len());
            (
                after,
                if ok {
                    Ok(())
                } else {
                    Err(NeutopiaError::PatchOutOfBounds)
                },
            )
        },
    }
}

/// Applies a patch to `buf`.
///
/// Fails with `InvalidPatch`, and changes nothing, where `patch_data` is no
/// patch; fails as `apply_hunks` does where a hunk does not fit.
pub fn apply_patch(buf: &mut Vec<u8>, patch_data: &[u8]) -> (r: Result<(), NeutopiaError>)
    ensures
        final(buf)@ == patch_applied(old(buf)@, patch_data@).0,
        r == patch_applied(old(buf)@, patch_data@).1,
{
    match parse_patch(patch_data) {
        Ok(hunks) => {
            assert(hunk_views(hunks@).len() == hunks@.len());
            match apply_hunks(buf, &hunks) {
                Ok(()) => Ok(()),
                Err(e) => Err(e),
            }
        },
        Err(_) => Err(NeutopiaError::InvalidPatch),
    }
}

/// The buffer after the first `k` patches were applied in order, and how
/// the patching ended: at the first patch that fails, it stops.
pub open spec fn patches_applied(buf: Seq<u8>, patches: Seq<Seq<u8>>, k: nat) -> (
    Seq<u8>,
    Result<(), NeutopiaError>,
)
    decreases k,
{
    if k == 0 {
        (buf, Ok(()))
    } else {
        let (before, r) = patches_applied(buf, patches, (k - 1) as nat);
        if r is Err {
            (before, r)
        } else {
            patch_applied(before, patches[k - 1])
        }
    }
}

/// Once a patch has failed, nothing more is applied.
pub proof fn lemma_patches_applied_stops(buf: Seq<u8>, patches: Seq<Seq<u8>>, k: nat, n: nat)
    requires
        k <= n,
        patches_applied(buf, patches, k).1 is Err,
    ensures
        patches_applied(buf, patches, n) == patches_applied(buf, patches, k),
    decreases n,
{
    if k < n {
        lemma_patches_applied_stops(buf, patches, k, (n - 1) as nat);
    }
}

/// Patching keeps the size of the buffer.
pub proof fn lemma_patches_applied_len(buf: Seq<u8>, patches: Seq<Seq<u8>>, k: nat)
    ensures
        patches_applied(buf, patches, k).0.len() == buf.len(),
    decreases k,
{
    if k > 0 {
        lemma_patches_applied_len(buf, patches, (k - 1) as nat);
        let before = patches_applied(buf, patches, (k - 1) as nat).0;
        match ips_hunks(patches[k - 1]) {
            Some(hunks) => lemma_hunks_applied_len(before, hunks, hunks.len()),
            None => {},
        }
    }
}

/// The byte sequences of a list of patches.
pub open spec fn patch_views(patches: Seq<Vec<u8>>) -> Seq<Seq<u8>> {
    patches.map_values(|p: Vec<u8>| p@)
}

/// Applies patches to `data` in order, and stops at the first that fails.
pub fn apply_patches(data: &mut Vec<u8>, patches: &Vec<Vec<u8>>) -> (r: Result<(), NeutopiaError>)
    ensures
        final(data)@ == patches_applied(old(data)@, patch_views(patches@), patches@.len()).0,
        r == patches_applied(old(data)@, patch_views(patches@), patches@.len()).1,
        final(data)@.len() == old(data)@.len(),
{
    let mut k: usize = 0;
    while k < patches.len()
        invariant
            k <= patches@.len(),
            patches_applied(old(data)@, patch_views(patches@), k as nat) == (
                data@,
                Ok::<(), NeutopiaError>(()),
            ),
        decreases patches@.len() - k,
    {
        assert(patch_views(patches@)[k as int] == patches@[k as int]@);
        match apply_patch(data, patches[k].as_slice()) {
            Ok(()) => {},
            Err(e) => {
                proof {
                    lemma_patches_applied_stops(
                        old(data)@,
                        patch_views(patches@),
                        (k + 1) as nat,
                        patches@.len(),
                    );
                    lemma_patches_applied_len(
                        old(data)@,
                        patch_views(patches@),
                        patches@.len(),
                    );
                }
                return Err(e);
            },
        }
        k = k + 1;
    }
    proof {
        lemma_patches_applied_len(old(data)@, patch_views(patches@), patches@.len());
    }
    Ok(())
}

} // verus!
