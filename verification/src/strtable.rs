//! The string table: one record per extracted or translated string,
//! keyed by virtual address.

use vstd::prelude::*;

verus! {

/// One extracted or translated string: its raw bytes, its virtual and
/// physical addresses, and the physical addresses of the instructions
/// that reference it.
pub struct StringRef {
    pub str: Vec<u8>,
    pub addr_virt: u32,
    pub addr_phys: u32,
    pub xrefs: Vec<u32>,
}

/// A mapping from virtual address to string record. The virtual address
/// is the unique key; records keep their insertion position.
pub struct StringTable {
    pub entries: Vec<StringRef>,
}

/// The mathematical shadow of one record.
pub struct StringRefV {
    pub text: Seq<u8>,
    pub addr_virt: u32,
    pub addr_phys: u32,
    pub xrefs: Seq<u32>,
}

/// The mathematical shadow of a record value.
pub open spec fn view_of(r: StringRef) -> StringRefV {
    StringRefV { text: r.str@, addr_virt: r.addr_virt, addr_phys: r.addr_phys, xrefs: r.xrefs@ }
}

/// The mathematical shadow of the whole table.
pub open spec fn table_view(s: Seq<StringRef>) -> Seq<StringRefV> {
    Seq::new(s.len(), |i: int| view_of(s[i]))
}

/// Index of the first shadow record with key `k`, or -1.
pub open spec fn key_index_v(s: Seq<StringRefV>, k: u32) -> int
    decreases s.len(),
{
    if s.len() == 0 {
        -1
    } else if s[0].addr_virt == k {
        0
    } else {
        let t = key_index_v(s.subrange(1, s.len() as int), k);
        if t == -1 { -1 } else { t + 1 }
    }
}

/// Insertion at the shadow level: replace the record with the same key,
/// or append at the end.
pub open spec fn spec_insert_v(s: Seq<StringRefV>, r: StringRefV) -> Seq<StringRefV> {
    let i = key_index_v(s, r.addr_virt);
    if i >= 0 { s.update(i, r) } else { s.push(r) }
}

/// The shadow of an insertion is the shadow-level insertion.
pub proof fn lemma_insert_view(s: Seq<StringRef>, r: StringRef)
    ensures table_view(spec_insert(s, r)) == spec_insert_v(table_view(s), view_of(r)),
{
    lemma_key_index_view(s, r.addr_virt);
    let i = key_index(s, r.addr_virt);
    if i >= 0 {
        lemma_key_index_found(s, r.addr_virt);
        assert(table_view(s.update(i, r))
            =~= table_view(s).update(i, view_of(r)));
    } else {
        assert(table_view(s.push(r)) =~= table_view(s).push(view_of(r)));
    }
}

/// The key index agrees between a table and its shadow.
pub proof fn lemma_key_index_view(s: Seq<StringRef>, k: u32)
    ensures key_index_v(table_view(s), k) == key_index(s, k),
    decreases s.len(),
{
    if s.len() > 0 {
        let tail = s.subrange(1, s.len() as int);
        lemma_key_index_view(tail, k);
        assert(table_view(s).subrange(1, table_view(s).len() as int) =~= table_view(tail));
    }
}

/// No two records share a virtual address.
pub open spec fn keys_unique(s: Seq<StringRef>) -> bool {
    forall|i: int, j: int| 0 <= i < j < s.len() ==> s[i].addr_virt != s[j].addr_virt
}

/// Index of the first record with key `k`, or -1 if none.
pub open spec fn key_index(s: Seq<StringRef>, k: u32) -> int
    decreases s.len(),
{
    if s.len() == 0 {
        -1
    } else if s[0].addr_virt == k {
        0
    } else {
        let t = key_index(s.subrange(1, s.len() as int), k);
        if t == -1 { -1 } else { t + 1 }
    }
}

/// The spec-level effect of inserting a record: replace the record with
/// the same key, or append at the end.
pub open spec fn spec_insert(s: Seq<StringRef>, r: StringRef) -> Seq<StringRef> {
    let i = key_index(s, r.addr_virt);
    if i >= 0 { s.update(i, r) } else { s.push(r) }
}

/// If no record among the first `i` has key `k`, then the first match is
/// `i` when record `i` matches, and -1 when `i` is the whole length.
pub proof fn lemma_key_index_prefix(s: Seq<StringRef>, k: u32, i: int)
    requires
        0 <= i <= s.len(),
        forall|j: int| 0 <= j < i ==> s[j].addr_virt != k,
    ensures
        i < s.len() && s[i].addr_virt == k ==> key_index(s, k) == i,
        i == s.len() ==> key_index(s, k) == -1,
    decreases i + 1,
{
    if s.len() == 0 {
    } else if s[0].addr_virt == k {
    } else {
        let tail = s.subrange(1, s.len() as int);
        if i > 0 {
            assert(forall|j: int| 0 <= j < i - 1 ==> tail[j].addr_virt != k);
            lemma_key_index_prefix(tail, k, i - 1);
            if i < s.len() && s[i].addr_virt == k {
                assert(tail[i - 1].addr_virt == k);
            }
        }
    }
}

/// A found key index really carries the key, and is in range.
pub proof fn lemma_key_index_found(s: Seq<StringRef>, k: u32)
    ensures
        key_index(s, k) >= 0 ==> {
            &&& key_index(s, k) < s.len()
            &&& s[key_index(s, k)].addr_virt == k
        },
        key_index(s, k) == -1 ==> forall|j: int| 0 <= j < s.len() ==> s[j].addr_virt != k,
        key_index(s, k) >= -1,
    decreases s.len(),
{
    if s.len() == 0 {
    } else if s[0].addr_virt == k {
    } else {
        let tail = s.subrange(1, s.len() as int);
        lemma_key_index_found(tail, k);
        if key_index(s, k) == -1 {
            assert forall|j: int| 0 <= j < s.len() implies s[j].addr_virt != k by {
                if j > 0 {
                    assert(tail[j - 1] == s[j]);
                }
            }
        }
    }
}

/// Insertion keeps keys unique.
pub proof fn lemma_insert_keys_unique(s: Seq<StringRef>, r: StringRef)
    requires keys_unique(s),
    ensures keys_unique(spec_insert(s, r)),
{
    lemma_key_index_found(s, r.addr_virt);
    let i = key_index(s, r.addr_virt);
    if i >= 0 {
        let s2 = s.update(i, r);
        assert forall|p: int, q: int| 0 <= p < q < s2.len() implies
            s2[p].addr_virt != s2[q].addr_virt by {
            if p != i && q != i {
                assert(s2[p] == s[p] && s2[q] == s[q]);
            } else if p == i {
                assert(s2[q] == s[q]);
                assert(s[q].addr_virt != r.addr_virt) by {
                    if s[q].addr_virt == r.addr_virt {
                        assert(s[i].addr_virt == r.addr_virt);
                    }
                }
            } else {
                assert(s2[p] == s[p]);
                if s[p].addr_virt == r.addr_virt {
                    assert(s[i].addr_virt == r.addr_virt);
                }
            }
        }
    }
}

impl StringTable {
    /// An empty table.
    pub fn new() -> (t: StringTable)
        ensures t.entries@.len() == 0, t.wf(),
    {
        StringTable { entries: Vec::new() }
    }

    /// The table's structural invariant: unique virtual-address keys.
    pub open spec fn wf(&self) -> bool {
        keys_unique(self.entries@)
    }

    /// Number of records.
    pub fn len(&self) -> (n: usize)
        ensures n == self.entries@.len(),
    {
        self.entries.len()
    }

    /// Index of the record with virtual address `k`, if present.
    pub fn lookup(&self, k: u32) -> (r: Option<usize>)
        ensures
            match r {
                Some(i) => key_index(self.entries@, k) == i,
                None => key_index(self.entries@, k) == -1,
            },
    {
        let mut i: usize = 0;
        while i < self.entries.len()
            invariant
                i <= self.entries@.len(),
                forall|j: int| 0 <= j < i ==> self.entries@[j].addr_virt != k,
            decreases self.entries@.len() - i,
        {
            if self.entries[i].addr_virt == k {
                proof {
                    lemma_key_index_prefix(self.entries@, k, i as int);
                }
                return Some(i);
            }
            i = i + 1;
        }
        proof {
            lemma_key_index_prefix(self.entries@, k, self.entries@.len() as int);
        }
        None
    }

    /// Insert a record: the record with the same key is replaced in
    /// place, otherwise the record is appended. The later record wins.
    pub fn insert(&mut self, r: StringRef)
        requires old(self).wf(),
        ensures
            final(self).entries@ == spec_insert(old(self).entries@, r),
            final(self).wf(),
    {
        proof {
            lemma_insert_keys_unique(self.entries@, r);
        }
        let idx = self.lookup(r.addr_virt);
        match idx {
            Some(i) => {
                proof {
                    lemma_key_index_found(self.entries@, r.addr_virt);
                }
                self.entries[i] = r;
            }
            None => {
                self.entries.push(r);
            }
        }
    }

    /// Append one cross-reference address to the record at `i`.
    pub fn push_xref(&mut self, i: usize, addr: u32)
        requires i < old(self).entries@.len(),
        ensures
            final(self).entries@.len() == old(self).entries@.len(),
            final(self).entries@[i as int].str == old(self).entries@[i as int].str,
            final(self).entries@[i as int].addr_virt == old(self).entries@[i as int].addr_virt,
            final(self).entries@[i as int].addr_phys == old(self).entries@[i as int].addr_phys,
            final(self).entries@[i as int].xrefs@
                == old(self).entries@[i as int].xrefs@.push(addr),
            forall|j: int| 0 <= j < old(self).entries@.len() && j != i
                ==> final(self).entries@[j] == old(self).entries@[j],
            old(self).wf() ==> final(self).wf(),
    {
        self.entries[i].xrefs.push(addr);
    }
}

} // verus!
