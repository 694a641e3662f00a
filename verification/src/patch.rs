//! The binary diff/patch engine.  A patch is an ordered sequence of
//! overwrite instructions; applying a patch starts from a copy of the
//! source bytes, grows the buffer with zero fill where an instruction
//! reaches past its end, and overwrites each instructed range.  The diff
//! side scans the target left to right, emitting one instruction per
//! changed region, where a region ends at the next run of four positions
//! on which source and target agree.

use vstd::prelude::*;

verus! {

pub struct PatchEntry {
    pub offset: usize,
    pub length: usize,
    pub data: Vec<u8>,
}

/// The mathematical value of a patch entry.
pub struct PatchEntryV {
    pub offset: int,
    pub length: int,
    pub data: Seq<u8>,
}

impl View for PatchEntry {
    type V = PatchEntryV;

    open spec fn view(&self) -> PatchEntryV {
        PatchEntryV { offset: self.offset as int, length: self.length as int, data: self.data@ }
    }
}

pub open spec fn patch_view(s: Seq<PatchEntry>) -> Seq<PatchEntryV> {
    s.map_values(|e: PatchEntry| e@)
}

/// One overwrite instruction applied to a buffer: the buffer grows with
/// zero fill to cover `offset + length` if needed, then the instruction's
/// bytes land at `offset`, clipped to the buffer.
pub open spec fn apply_entry(acc: Seq<u8>, e: PatchEntryV) -> Seq<u8> {
    let m = if acc.len() >= e.offset + e.length {
        acc.len() as int
    } else {
        e.offset + e.length
    };
    Seq::new(
        m as nat,
        |i: int|
            if e.offset <= i < e.offset + e.data.len() {
                e.data[i - e.offset]
            } else if i < acc.len() {
                acc[i]
            } else {
                0u8
            },
    )
}

/// A whole patch applied to `orig`, instruction by instruction, in order.
pub open spec fn apply_patch(orig: Seq<u8>, es: Seq<PatchEntryV>) -> Seq<u8>
    decreases es.len(),
{
    if es.len() == 0 {
        orig
    } else {
        apply_patch(apply_entry(orig, es[0]), es.drop_first())
    }
}

pub proof fn lemma_apply_patch_snoc(orig: Seq<u8>, es: Seq<PatchEntryV>, e: PatchEntryV)
    ensures
        apply_patch(orig, es.push(e)) == apply_entry(apply_patch(orig, es), e),
    decreases es.len(),
{
    if es.len() == 0 {
        assert(es.push(e).drop_first() =~= Seq::<PatchEntryV>::empty());
        assert(es.push(e)[0] == e);
        assert(apply_patch(apply_entry(orig, e), Seq::<PatchEntryV>::empty()) == apply_entry(
            orig,
            e,
        ));
        assert(apply_patch(orig, es) == orig);
    } else {
        assert(es.push(e).drop_first() =~= es.drop_first().push(e));
        assert(es.push(e)[0] == es[0]);
        lemma_apply_patch_snoc(apply_entry(orig, es[0]), es.drop_first(), e);
    }
}

/// A patch entry is well formed for a target of length `n` when its region
/// lies inside the target and carries exactly the region's bytes.
pub open spec fn entry_wf(e: PatchEntryV, n: int) -> bool {
    &&& 0 <= e.offset
    &&& 0 <= e.length
    &&& e.offset + e.length <= n
    &&& e.data.len() == e.length
}

/// What reconstruction from `a` towards `b` looks like when the first `k`
/// target positions are settled: the target's prefix, then whatever of the
/// source lies beyond `k`.
pub open spec fn mix(a: Seq<u8>, b: Seq<u8>, k: int) -> Seq<u8> {
    b.take(k) + if k <= a.len() {
        a.skip(k)
    } else {
        Seq::empty()
    }
}

/// Settling positions on which source and target already agree does not
/// change the reconstruction.
proof fn lemma_mix_range(a: Seq<u8>, b: Seq<u8>, k: int, k2: int)
    requires
        0 <= k <= k2 <= b.len(),
        k < k2 ==> k2 <= a.len(),
        forall|j: int| k <= j < k2 ==> a[j] == b[j],
    ensures
        mix(a, b, k) == mix(a, b, k2),
{
    if k < k2 {
        assert(mix(a, b, k) =~= mix(a, b, k2));
    }
}

/// Overwriting the region `[ds, de)` with the target's bytes advances the
/// reconstruction point from `ds` to `de`.
proof fn lemma_mix_entry(a: Seq<u8>, b: Seq<u8>, ds: int, de: int)
    requires
        0 <= ds < de <= b.len(),
    ensures
        apply_entry(
            mix(a, b, ds),
            PatchEntryV { offset: ds, length: de - ds, data: b.subrange(ds, de) },
        ) == mix(a, b, de),
{
    let e = PatchEntryV { offset: ds, length: de - ds, data: b.subrange(ds, de) };
    assert(apply_entry(mix(a, b, ds), e) =~= mix(a, b, de));
}

/// Apply a patch to `original`: start from a copy, and run every
/// instruction in order.  The bound in `requires` keeps the grown buffer
/// addressable; reconstruction itself is exact.
pub fn apply(original: &[u8], entries: &Vec<PatchEntry>) -> (r: Vec<u8>)
    requires
        forall|i: int|
            0 <= i < entries@.len() ==> (#[trigger] entries@[i])@.offset + entries@[i]@.length
                <= usize::MAX && entries@[i]@.offset + entries@[i]@.data.len() <= usize::MAX,
    ensures
        r@ == apply_patch(original@, patch_view(entries@)),
{
    let mut out: Vec<u8> = vstd::slice::slice_to_vec(original);
    let n = entries.len();
    let mut k: usize = 0;
    while k < n
        invariant
            n == entries@.len(),
            forall|i: int|
                0 <= i < entries@.len() ==> (#[trigger] entries@[i])@.offset + entries@[i]@.length
                    <= usize::MAX && entries@[i]@.offset + entries@[i]@.data.len() <= usize::MAX,
            0 <= k <= n,
            out@ == apply_patch(original@, patch_view(entries@).take(k as int)),
        decreases n - k,
    {
        let ghost pre = out@;
        let e = &entries[k];
        let need = e.offset + e.length;
        while out.len() < need
            invariant
                need <= usize::MAX,
                pre.len() <= out@.len(),
                out@.len() <= need || out@.len() == pre.len(),
                forall|i: int| 0 <= i < pre.len() ==> out@[i] == pre[i],
                forall|i: int| pre.len() <= i < out@.len() ==> out@[i] == 0u8,
            decreases need - out@.len(),
        {
            out.push(0u8);
        }
        let dn = e.data.len();
        let mut j: usize = 0;
        let ghost grown = out@;
        assert(grown.len() >= pre.len() && grown.len() >= e@.offset + e@.length);
        assert(grown.len() == (if pre.len() >= e@.offset + e@.length {
            pre.len() as int
        } else {
            e@.offset + e@.length
        }));
        assert(forall|i: int|
            0 <= i < grown.len() ==> grown[i] == (if i < pre.len() {
                pre[i]
            } else {
                0u8
            }));
        while j < dn
            invariant
                dn == e.data@.len(),
                e.offset + dn <= usize::MAX,
                0 <= j <= dn,
                out@.len() == grown.len(),
                forall|i: int|
                    0 <= i < out@.len() ==> out@[i] == (if e@.offset <= i < e@.offset + j {
                        e.data@[i - e@.offset]
                    } else {
                        grown[i]
                    }),
            decreases dn - j,
        {
            if e.offset + j < out.len() {
                let idx = e.offset + j;
                out[idx] = e.data[j];
            }
            j = j + 1;
        }
        proof {
            assert(out@ =~= apply_entry(pre, e@));
            assert(patch_view(entries@).take(k + 1) =~= patch_view(entries@).take(
                k as int,
            ).push(e@));
            lemma_apply_patch_snoc(original@, patch_view(entries@).take(k as int), e@);
        }
        k = k + 1;
    }
    assert(patch_view(entries@).take(n as int) =~= patch_view(entries@));
    out
}

/// Four consecutive positions starting at `i` exist in both sequences and
/// agree; such a run ends a changed region.
pub open spec fn match_run(a: Seq<u8>, b: Seq<u8>, i: int) -> bool {
    &&& i + 4 <= a.len()
    &&& i + 4 <= b.len()
    &&& a[i] == b[i]
    &&& a[i + 1] == b[i + 1]
    &&& a[i + 2] == b[i + 2]
    &&& a[i + 3] == b[i + 3]
}

fn match_run_at(a: &[u8], b: &[u8], i: usize) -> (r: bool)
    ensures
        r == match_run(a@, b@, i as int),
{
    let al = a.len();
    let bl = b.len();
    if al < 4 || bl < 4 || i > al - 4 || i > bl - 4 {
        return false;
    }
    a[i] == b[i] && a[i + 1] == b[i + 1] && a[i + 2] == b[i + 2] && a[i + 3] == b[i + 3]
}

/// Compute the patch that rewrites `a` into `b`, scanning `b` left to
/// right.  The patch reconstructs `b` exactly wherever `b` is at least as
/// long as `a`; a shorter `b` leaves `a`'s tail in place, since patch
/// instructions only overwrite and never truncate.  Equal inputs yield the
/// empty patch.  Each instruction carries the target's own bytes over its
/// region, and regions come in strictly increasing, disjoint order.  How
/// the changed positions are segmented into regions (here: a region ends
/// at the next run of four agreeing positions) is deliberately left out
/// of the contract, so any delta algorithm can stand behind it.
pub fn diff(a: &[u8], b: &[u8]) -> (r: Vec<PatchEntry>)
    ensures
        apply_patch(a@, patch_view(r@)) == if a@.len() <= b@.len() {
            b@
        } else {
            b@ + a@.skip(b@.len() as int)
        },
        a@ == b@ ==> r@.len() == 0,
        forall|i: int| 0 <= i < r@.len() ==> entry_wf((#[trigger] r@[i])@, b@.len() as int),
        forall|i: int| 0 <= i < r@.len() ==> (#[trigger] r@[i])@.length >= 1,
        forall|i: int|
            0 <= i < r@.len() ==> (#[trigger] r@[i])@.data == b@.subrange(
                r@[i]@.offset,
                r@[i]@.offset + r@[i]@.length,
            ),
        forall|i: int, j: int|
            0 <= i < j < r@.len() ==> (#[trigger] r@[i])@.offset + r@[i]@.length <= (
            #[trigger] r@[j])@.offset,
{
    let alen = a.len();
    let blen = b.len();
    let mut entries: Vec<PatchEntry> = Vec::new();
    let mut offset: usize = 0;
    while offset < blen
        invariant
            alen == a@.len(),
            blen == b@.len(),
            0 <= offset <= blen,
            apply_patch(a@, patch_view(entries@)) == mix(a@, b@, offset as int),
            a@ == b@ ==> entries@.len() == 0,
            forall|i: int|
                0 <= i < entries@.len() ==> entry_wf((#[trigger] entries@[i])@, b@.len() as int),
            forall|i: int| 0 <= i < entries@.len() ==> (#[trigger] entries@[i])@.length >= 1,
            forall|i: int|
                0 <= i < entries@.len() ==> (#[trigger] entries@[i])@.data == b@.subrange(
                    entries@[i]@.offset,
                    entries@[i]@.offset + entries@[i]@.length,
                ),
            forall|i: int|
                0 <= i < entries@.len() ==> (#[trigger] entries@[i])@.offset + entries@[i]@.length
                    <= offset,
            forall|i: int, j: int|
                0 <= i < j < entries@.len() ==> (#[trigger] entries@[i])@.offset
                    + entries@[i]@.length <= (#[trigger] entries@[j])@.offset,
        decreases blen - offset,
    {
        // advance past positions where source and target agree
        let mut ds: usize = offset;
        while ds < blen && ds < alen && a[ds] == b[ds]
            invariant
                alen == a@.len(),
                blen == b@.len(),
                offset <= ds <= blen,
                offset < ds ==> ds <= alen,
                forall|j: int| offset <= j < ds ==> a@[j] == b@[j],
            decreases blen - ds,
        {
            ds = ds + 1;
        }
        proof {
            lemma_mix_range(a@, b@, offset as int, ds as int);
        }
        if ds >= blen {
            offset = ds;
        } else {
            // a changed region starts at ds; extend it to the next match run
            let mut de: usize = ds + 1;
            while de < blen && !(de < alen && a[de] == b[de] && match_run_at(a, b, de))
                invariant
                    alen == a@.len(),
                    blen == b@.len(),
                    ds < de <= blen,
                decreases blen - de,
            {
                de = de + 1;
            }
            let data = vstd::slice::slice_to_vec(vstd::slice::slice_subrange(b, ds, de));
            let entry = PatchEntry { offset: ds, length: de - ds, data };
            proof {
                assert(entry@ == (PatchEntryV {
                    offset: ds as int,
                    length: de - ds,
                    data: b@.subrange(ds as int, de as int),
                }));
                lemma_mix_entry(a@, b@, ds as int, de as int);
                lemma_apply_patch_snoc(a@, patch_view(entries@), entry@);
                assert(patch_view(entries@.push(entry)) =~= patch_view(entries@).push(entry@));
                if a@ == b@ {
                    assert(ds < blen && ds < alen && a@[ds as int] == b@[ds as int]);
                }
            }
            entries.push(entry);
            offset = de;
        }
    }
    proof {
        assert(mix(a@, b@, blen as int) =~= (if a@.len() <= b@.len() {
            b@
        } else {
            b@ + a@.skip(b@.len() as int)
        }));
    }
    entries
}

} // verus!

