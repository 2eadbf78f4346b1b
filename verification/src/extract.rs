//! The string extractor: scans configured physical byte ranges for
//! NUL-delimited byte runs.
//!
//! The scan is modelled as a left fold over the region's bytes carrying
//! the pending-string accumulator, so that feeding the bytes in chunks of
//! any size gives the same result as feeding them at once.

use vstd::prelude::*;

verus! {

/// Scan state and emitted strings: the pending accumulator plus the list
/// of finalized `(physical address, bytes)` pairs.
pub struct ScanState {
    /// Bytes of the string currently being accumulated.
    pub pending: Vec<u8>,
    /// Finalized strings, oldest first.
    pub found: Vec<(u32, Vec<u8>)>,
}

/// The spec view of the emitted list.
pub open spec fn found_view(v: Seq<(u32, Vec<u8>)>) -> Seq<(int, Seq<u8>)> {
    Seq::new(v.len(), |i: int| (v[i].0 as int, v[i].1@))
}

/// One scan step at position `pos`: a NUL byte finalizes a non-empty
/// accumulator at address `pos - len(acc)`; any other byte is appended.
pub open spec fn scan_step(acc: Seq<u8>, out: Seq<(int, Seq<u8>)>, b: u8, pos: int)
    -> (Seq<u8>, Seq<(int, Seq<u8>)>)
{
    if b == 0 {
        if acc.len() > 0 {
            (Seq::<u8>::empty(), out.push((pos - acc.len(), acc)))
        } else {
            (acc, out)
        }
    } else {
        (acc.push(b), out)
    }
}

/// The scan folded over `bytes`, whose first byte sits at `pos`.
pub open spec fn scan_fold(bytes: Seq<u8>, pos: int, acc: Seq<u8>, out: Seq<(int, Seq<u8>)>)
    -> (Seq<u8>, Seq<(int, Seq<u8>)>)
    decreases bytes.len(),
{
    if bytes.len() == 0 {
        (acc, out)
    } else {
        let st = scan_step(acc, out, bytes[0], pos);
        scan_fold(bytes.subrange(1, bytes.len() as int), pos + 1, st.0, st.1)
    }
}

/// Scanning a concatenation equals scanning the parts in order: chunk
/// boundaries cannot lose or duplicate bytes at the seam.
pub proof fn lemma_scan_fold_concat(a: Seq<u8>, b: Seq<u8>, pos: int, acc: Seq<u8>,
    out: Seq<(int, Seq<u8>)>)
    ensures
        scan_fold(a + b, pos, acc, out)
            == scan_fold(b, pos + a.len(), scan_fold(a, pos, acc, out).0,
                scan_fold(a, pos, acc, out).1),
    decreases a.len(),
{
    if a.len() == 0 {
        assert(a + b =~= b);
    } else {
        let st = scan_step(acc, out, a[0], pos);
        let a2 = a.subrange(1, a.len() as int);
        assert((a + b).subrange(1, (a + b).len() as int) =~= a2 + b);
        assert((a + b)[0] == a[0]);
        lemma_scan_fold_concat(a2, b, pos + 1, st.0, st.1);
    }
}

/// The emitted list only grows by appending: scanning with any starting
/// output equals the starting output followed by scanning from empty.
pub proof fn lemma_scan_fold_out(bytes: Seq<u8>, pos: int, acc: Seq<u8>,
    out: Seq<(int, Seq<u8>)>)
    ensures
        scan_fold(bytes, pos, acc, out).0
            == scan_fold(bytes, pos, acc, Seq::<(int, Seq<u8>)>::empty()).0,
        scan_fold(bytes, pos, acc, out).1
            == out + scan_fold(bytes, pos, acc, Seq::<(int, Seq<u8>)>::empty()).1,
    decreases bytes.len(),
{
    if bytes.len() == 0 {
        assert(out + Seq::<(int, Seq<u8>)>::empty() =~= out);
    } else {
        let b = bytes[0];
        let tail = bytes.subrange(1, bytes.len() as int);
        let st = scan_step(acc, out, b, pos);
        let st_e = scan_step(acc, Seq::<(int, Seq<u8>)>::empty(), b, pos);
        assert(st.0 == st_e.0);
        assert(st.1 =~= out + st_e.1);
        lemma_scan_fold_out(tail, pos + 1, st.0, st.1);
        lemma_scan_fold_out(tail, pos + 1, st_e.0, st_e.1);
        let g = scan_fold(tail, pos + 1, st.0, Seq::<(int, Seq<u8>)>::empty()).1;
        assert(scan_fold(bytes, pos, acc, out).1 =~= out + (st_e.1 + g));
    }
}

/// The accumulator never holds more bytes than it started with plus the
/// bytes scanned.
pub proof fn lemma_scan_fold_acc_len(bytes: Seq<u8>, pos: int, acc: Seq<u8>,
    out: Seq<(int, Seq<u8>)>)
    ensures
        scan_fold(bytes, pos, acc, out).0.len() <= acc.len() + bytes.len(),
    decreases bytes.len(),
{
    if bytes.len() > 0 {
        let st = scan_step(acc, out, bytes[0], pos);
        lemma_scan_fold_acc_len(bytes.subrange(1, bytes.len() as int), pos + 1, st.0, st.1);
    }
}

/// The result of scanning one whole region whose bytes start at `begin`:
/// the fold over the bytes, with a still-pending run finalized at
/// `end - len` when the region ends without a trailing NUL.
pub open spec fn spec_region_strings(bytes: Seq<u8>, begin: int) -> Seq<(int, Seq<u8>)> {
    let r = scan_fold(bytes, begin, Seq::<u8>::empty(), Seq::<(int, Seq<u8>)>::empty());
    if r.0.len() > 0 {
        r.1.push((begin + bytes.len() - r.0.len(), r.0))
    } else {
        r.1
    }
}

impl ScanState {
    /// A fresh scan: empty accumulator, nothing found.
    pub fn new() -> (s: ScanState)
        ensures s.pending@.len() == 0, s.found@.len() == 0,
    {
        ScanState { pending: Vec::new(), found: Vec::new() }
    }

    /// Feed one chunk of region bytes whose first byte sits at `pos`.
    pub fn process_chunk(&mut self, chunk: &[u8], pos: u32)
        requires
            old(self).pending@.len() <= pos,
            pos + chunk@.len() <= u32::MAX,
        ensures
            (final(self).pending@, found_view(final(self).found@))
                == scan_fold(chunk@, pos as int, old(self).pending@,
                    found_view(old(self).found@)),
            final(self).pending@.len() <= pos + chunk@.len(),
    {
        let n = chunk.len();
        proof {
            assert(chunk@.subrange(0, n as int) =~= chunk@);
        }
        let mut i: usize = 0;
        while i < n
            invariant
                n == chunk@.len(),
                i <= n,
                pos + n <= u32::MAX,
                self.pending@.len() <= pos + i,
                scan_fold(chunk@.subrange(i as int, n as int), pos + i, self.pending@,
                    found_view(self.found@))
                    == scan_fold(chunk@, pos as int, old(self).pending@,
                        found_view(old(self).found@)),
            decreases n - i,
        {
            let ghost rest = chunk@.subrange(i as int, n as int);
            let ghost pend0 = self.pending@;
            let ghost found0 = found_view(self.found@);
            let b = chunk[i];
            if b == 0 {
                if self.pending.len() > 0 {
                    let addr: u32 = pos + (i as u32) - (self.pending.len() as u32);
                    let mut taken: Vec<u8> = Vec::new();
                    core::mem::swap(&mut taken, &mut self.pending);
                    self.found.push((addr, taken));
                    proof {
                        assert(found_view(self.found@)
                            =~= found0.push((pos + i - pend0.len(), pend0)));
                    }
                }
            } else {
                self.pending.push(b);
            }
            proof {
                assert((self.pending@, found_view(self.found@))
                    == scan_step(pend0, found0, chunk@[i as int], pos + i));
                assert(rest.subrange(1, rest.len() as int)
                    =~= chunk@.subrange(i + 1, n as int));
                assert(rest[0] == chunk@[i as int]);
            }
            i = i + 1;
        }
        proof {
            assert(chunk@.subrange(n as int, n as int) =~= Seq::<u8>::empty());
        }
    }

    /// End of region at `end`: finalize a still-pending run at
    /// `end - len(pending)`.
    pub fn finish_region(&mut self, end: u32)
        requires
            old(self).pending@.len() <= end,
        ensures
            final(self).pending@.len() == 0,
            ({
                let prev = found_view(old(self).found@);
                if old(self).pending@.len() > 0 {
                    found_view(final(self).found@)
                        == prev.push((end - old(self).pending@.len(), old(self).pending@))
                } else {
                    found_view(final(self).found@) == prev
                }
            }),
    {
        if self.pending.len() > 0 {
            let addr: u32 = end - (self.pending.len() as u32);
            let mut taken: Vec<u8> = Vec::new();
            core::mem::swap(&mut taken, &mut self.pending);
            let ghost found0 = found_view(self.found@);
            let ghost pend0 = taken@;
            self.found.push((addr, taken));
            proof {
                assert(found_view(self.found@) =~= found0.push((end - pend0.len(), pend0)));
            }
        }
    }
}

/// Scan the region `data[begin .. end]` in bounded chunks, appending every
/// finalized string to `state.found`. The accumulator starts and ends empty.
pub fn scan_region(state: &mut ScanState, data: &[u8], begin: u32, end: u32)
    requires
        old(state).pending@.len() == 0,
        begin <= end,
        end <= data@.len(),
    ensures
        final(state).pending@.len() == 0,
        found_view(final(state).found@) == found_view(old(state).found@)
            + spec_region_strings(data@.subrange(begin as int, end as int), begin as int),
{
    let ghost region = data@.subrange(begin as int, end as int);
    let mut cur: u32 = begin;
    while cur < end
        invariant
            begin <= cur <= end,
            end <= data@.len(),
            region == data@.subrange(begin as int, end as int),
            state.pending@.len() <= cur - begin,
            (state.pending@, found_view(state.found@))
                == scan_fold(region.subrange(0, cur - begin), begin as int,
                    Seq::<u8>::empty(), found_view(old(state).found@)),
        decreases end - cur,
    {
        let remain: u32 = end - cur;
        let step: u32 = if remain < 4096 { remain } else { 4096 };
        let chunk: &[u8] = vstd::slice::slice_subrange(data, cur as usize,
            (cur + step) as usize);
        let ghost done = region.subrange(0, cur - begin);
        proof {
            lemma_scan_fold_concat(done, chunk@, begin as int,
                Seq::<u8>::empty(), found_view(old(state).found@));
            assert(done + chunk@ =~= region.subrange(0, cur + step - begin));
        }
        state.process_chunk(chunk, cur);
        proof {
            lemma_scan_fold_acc_len(region.subrange(0, cur + step - begin), begin as int,
                Seq::<u8>::empty(), found_view(old(state).found@));
        }
        cur = cur + step;
    }
    proof {
        assert(region.subrange(0, end - begin) =~= region);
        lemma_scan_fold_out(region, begin as int, Seq::<u8>::empty(),
            found_view(old(state).found@));
    }
    let ghost prev = found_view(old(state).found@);
    let ghost r = scan_fold(region, begin as int, Seq::<u8>::empty(),
        Seq::<(int, Seq<u8>)>::empty());
    state.finish_region(end);
    proof {
        if r.0.len() > 0 {
            assert(found_view(state.found@)
                =~= prev + r.1.push((begin + region.len() - r.0.len(), r.0)));
        } else {
            assert(found_view(state.found@) =~= prev + r.1);
        }
    }
}

/// Every string a scan emits sits inside the scanned range: its address
/// is at least `lo` and at most the final position.
pub proof fn lemma_scan_fold_addr_range(bytes: Seq<u8>, pos: int, acc: Seq<u8>,
    out: Seq<(int, Seq<u8>)>, lo: int)
    requires
        acc.len() <= pos - lo,
        forall|i: int| 0 <= i < out.len() ==> lo <= (#[trigger] out[i]).0 <= pos,
    ensures
        ({
            let r = scan_fold(bytes, pos, acc, out);
            &&& r.0.len() <= pos + bytes.len() - lo
            &&& forall|i: int| 0 <= i < r.1.len()
                ==> lo <= (#[trigger] r.1[i]).0 <= pos + bytes.len()
        }),
    decreases bytes.len(),
{
    if bytes.len() > 0 {
        let st = scan_step(acc, out, bytes[0], pos);
        assert(forall|i: int| 0 <= i < st.1.len() ==> lo <= (#[trigger] st.1[i]).0 <= pos + 1);
        lemma_scan_fold_addr_range(bytes.subrange(1, bytes.len() as int), pos + 1, st.0,
            st.1, lo);
    }
}

/// Every string extracted from a region has its address within the region.
pub proof fn lemma_region_addr_range(bytes: Seq<u8>, begin: int)
    ensures
        forall|i: int| 0 <= i < spec_region_strings(bytes, begin).len()
            ==> begin <= (#[trigger] spec_region_strings(bytes, begin)[i]).0
                <= begin + bytes.len(),
{
    lemma_scan_fold_addr_range(bytes, begin, Seq::<u8>::empty(),
        Seq::<(int, Seq<u8>)>::empty(), begin);
}

} // verus!
