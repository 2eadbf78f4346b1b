//! The manifest codec: renders the string table as editable text lines
//! and parses an edited manifest back into table form.
//!
//! A functional line has the shape
//! `[vvvvvvvv,pppppppp] {{replacement}}                {{original}} [x1,x2,...]`
//! with eight-digit lowercase hex addresses. When read back, a line is
//! skipped unless it starts with `[`, is at least 20 bytes long and, after
//! trailing whitespace is removed, carries the bracketed address pair,
//! a non-empty first brace group, a second brace group, and a bracketed
//! non-empty cross-reference list at the very end. The replacement text
//! ends at the first `}}` after it; the list is the last bracket pair.

use vstd::prelude::*;
use crate::hex::{hex8_of, is_hex_byte, parse_hex, push_hex8, parse_hex_bytes};
use crate::sjis::sjis_encode_of;
use crate::strtable::{StringRef, StringRefV, StringTable, spec_insert_v};

verus! {

/// Whitespace bytes that line trimming removes.
pub open spec fn is_ws(b: u8) -> bool {
    b == 0x20 || b == 0x09 || b == 0x0d
}

/// First index in `[p, end)` holding `b`, or `end`.
pub open spec fn find_in(s: Seq<u8>, p: int, end: int, b: u8) -> int
    decreases end - p,
        when p <= end
{
    if p >= end { end } else if s[p] == b { p } else { find_in(s, p + 1, end, b) }
}

/// First index `i` in `[p, end - 1)` with `s[i] == s[i+1] == '}'`, or `end`.
pub open spec fn find_close2_in(s: Seq<u8>, p: int, end: int) -> int
    decreases end - p,
        when p <= end
{
    if p + 2 > end { end } else if s[p] == 0x7d && s[p + 1] == 0x7d { p } else {
        find_close2_in(s, p + 1, end)
    }
}

/// First index in `[p, end)` holding a non-whitespace byte, or `end`.
pub open spec fn skip_ws_in(s: Seq<u8>, p: int, end: int) -> int
    decreases end - p,
        when p <= end
{
    if p >= end { end } else if !is_ws(s[p]) { p } else { skip_ws_in(s, p + 1, end) }
}

/// Largest index `<= p` holding `b`, or -1.
pub open spec fn rfind(s: Seq<u8>, p: int, b: u8) -> int
    decreases p + 1,
        when p < s.len()
{
    if p < 0 { -1 } else if s[p] == b { p } else { rfind(s, p - 1, b) }
}

/// Largest index `<= p` holding a non-whitespace byte, or -1.
pub open spec fn rskip_ws(s: Seq<u8>, p: int) -> int
    decreases p + 1,
        when p < s.len()
{
    if p < 0 { -1 } else if !is_ws(s[p]) { p } else { rskip_ws(s, p - 1) }
}

/// Length of `s[..end]` with trailing whitespace removed.
pub open spec fn trim_end_len(s: Seq<u8>, end: int) -> int
    decreases end,
        when end <= s.len()
{
    if end <= 0 { 0 } else if is_ws(s[end - 1]) { trim_end_len(s, end - 1) } else { end }
}

/// All bytes in `[a, b)` are lowercase hex digits.
pub open spec fn all_hex(s: Seq<u8>, a: int, b: int) -> bool {
    forall|i: int| a <= i < b ==> is_hex_byte(#[trigger] s[i])
}

/// The cross-reference list grammar on `[p, end)`: one or more groups of
/// exactly eight hex digits, each optionally followed by one comma.
pub open spec fn valid_hexlist(s: Seq<u8>, p: int, end: int) -> bool
    decreases end - p,
        when p <= end
{
    if p + 8 > end {
        false
    } else if !all_hex(s, p, p + 8) {
        false
    } else if p + 8 == end {
        true
    } else if s[p + 8] == 0x2c {
        p + 9 == end || valid_hexlist(s, p + 9, end)
    } else {
        valid_hexlist(s, p + 8, end)
    }
}

/// The values carried by the list on `[p, end)`: each comma-separated
/// chunk of exactly eight hex digits whose value is nonzero.
pub open spec fn hexlist_values(s: Seq<u8>, p: int, end: int) -> Seq<u32>
    decreases end - p,
        when p <= end
{
    if p >= end {
        Seq::empty()
    } else {
        let f = find_in(s, p, end, 0x2c);
        let e = if f < p { p } else if f > end { end } else { f };
        let head: Seq<u32> = if e - p == 8 && all_hex(s, p, e) && parse_hex(s.subrange(p, e))
            != 0 {
            seq![parse_hex(s.subrange(p, e))]
        } else {
            Seq::empty()
        };
        if e >= end { head } else { head + hexlist_values(s, e + 1, end) }
    }
}

/// The outcome of reading one manifest line: the parsed virtual address,
/// the replacement text in working (UTF-8) form, and the cross-reference
/// list. `None` means the line is skipped.
pub open spec fn parse_line_spec(line: Seq<u8>) -> Option<(u32, Seq<u8>, Seq<u32>)> {
    if line.len() < 20 || line[0] != 0x5b {
        None
    } else {
        let tl = trim_end_len(line, line.len() as int);
        if tl < 20 {
            None
        } else if !(all_hex(line, 1, 9) && line[9] == 0x2c && all_hex(line, 10, 18)
            && line[18] == 0x5d) {
            None
        } else {
            let j = skip_ws_in(line, 19, tl);
            if j == 19 || j + 2 > tl || line[j] != 0x7b || line[j + 1] != 0x7b {
                None
            } else {
                let e = find_close2_in(line, j + 2, tl);
                if e + 2 > tl || e == j + 2 {
                    None
                } else {
                    let m = skip_ws_in(line, e + 2, tl);
                    if m == e + 2 || m + 2 > tl || line[m] != 0x7b || line[m + 1] != 0x7b
                        || line[tl - 1] != 0x5d {
                        None
                    } else {
                        let q = rfind(line, tl - 2, 0x5b);
                        if q < m + 2 {
                            None
                        } else {
                            let r = rskip_ws(line, q - 1);
                            if r == q - 1 || r < m + 3 || line[r] != 0x7d
                                || line[r - 1] != 0x7d {
                                None
                            } else if !valid_hexlist(line, q + 1, tl - 1) {
                                None
                            } else {
                                Some((parse_hex(line.subrange(1, 9)),
                                    line.subrange(j + 2, e),
                                    hexlist_values(line, q + 1, tl - 1)))
                            }
                        }
                    }
                }
            }
        }
    }
}

/// The effect of one manifest line on the shadow table: a parsed line
/// inserts a record carrying the encoded replacement, the parsed virtual
/// address, no physical address and the parsed list; a skipped line
/// changes nothing.
pub open spec fn apply_line(tv: Seq<StringRefV>, line: Seq<u8>) -> Seq<StringRefV> {
    match parse_line_spec(line) {
        None => tv,
        Some(p) => spec_insert_v(tv, StringRefV {
            text: sjis_encode_of(p.1),
            addr_virt: p.0,
            addr_phys: 0,
            xrefs: p.2,
        }),
    }
}

/// The manifest text from position `p` on, applied line by line: lines
/// are split at newline bytes, each with one trailing carriage return
/// removed, and a final fragment without a newline is a line too.
pub open spec fn apply_lines_from(tv: Seq<StringRefV>, text: Seq<u8>, p: int)
    -> Seq<StringRefV>
    decreases text.len() - p,
        when 0 <= p
{
    if p >= text.len() {
        tv
    } else {
        let f = find_in(text, p, text.len() as int, 0x0a);
        let e = if f < p { p } else if f > text.len() { text.len() as int } else { f };
        let l0 = text.subrange(p, e);
        let line = if l0.len() > 0 && l0.last() == 0x0d { l0.drop_last() } else { l0 };
        let tv2 = apply_line(tv, line);
        if e >= text.len() { tv2 } else { apply_lines_from(tv2, text, e + 1) }
    }
}

// ------------------------------------------------------------------
// Executable search helpers, each mirroring its spec function.

pub fn find_in_exec(s: &[u8], p: usize, end: usize, b: u8) -> (r: usize)
    requires p <= end <= s@.len(),
    ensures r == find_in(s@, p as int, end as int, b), p <= r <= end,
{
    let mut i: usize = p;
    while i < end
        invariant
            p <= i <= end <= s@.len(),
            find_in(s@, p as int, end as int, b) == find_in(s@, i as int, end as int, b),
        decreases end - i,
    {
        if s[i] == b {
            return i;
        }
        i = i + 1;
    }
    i
}

pub fn find_close2_in_exec(s: &[u8], p: usize, end: usize) -> (r: usize)
    requires p <= end <= s@.len(),
    ensures
        r == find_close2_in(s@, p as int, end as int),
        p <= r <= end,
        r < end ==> r + 2 <= end,
{
    let mut i: usize = p;
    while i < end && end - i >= 2
        invariant
            p <= i <= end <= s@.len(),
            find_close2_in(s@, p as int, end as int)
                == find_close2_in(s@, i as int, end as int),
        decreases end - i,
    {
        if s[i] == 0x7d && s[i + 1] == 0x7d {
            return i;
        }
        i = i + 1;
    }
    end
}

pub fn skip_ws_in_exec(s: &[u8], p: usize, end: usize) -> (r: usize)
    requires p <= end <= s@.len(),
    ensures r == skip_ws_in(s@, p as int, end as int), p <= r <= end,
{
    let mut i: usize = p;
    while i < end
        invariant
            p <= i <= end <= s@.len(),
            skip_ws_in(s@, p as int, end as int) == skip_ws_in(s@, i as int, end as int),
        decreases end - i,
    {
        let b = s[i];
        if !(b == 0x20 || b == 0x09 || b == 0x0d) {
            return i;
        }
        i = i + 1;
    }
    i
}

/// Largest index `<= p` holding `b`, or `None`.
pub fn rfind_exec(s: &[u8], p: usize, b: u8) -> (r: Option<usize>)
    requires p < s@.len(),
    ensures
        match r {
            Some(i) => i == rfind(s@, p as int, b) && i <= p,
            None => rfind(s@, p as int, b) == -1,
        },
{
    let mut i: usize = p;
    loop
        invariant
            i <= p < s@.len(),
            rfind(s@, p as int, b) == rfind(s@, i as int, b),
        decreases i + 1,
    {
        if s[i] == b {
            return Some(i);
        }
        if i == 0 {
            proof {
                reveal_with_fuel(rfind, 2);
            }
            return None;
        }
        i = i - 1;
    }
}

/// Largest index `<= p` holding a non-whitespace byte, or `None`.
pub fn rskip_ws_exec(s: &[u8], p: usize) -> (r: Option<usize>)
    requires p < s@.len(),
    ensures
        match r {
            Some(i) => i == rskip_ws(s@, p as int) && i <= p,
            None => rskip_ws(s@, p as int) == -1,
        },
{
    let mut i: usize = p;
    loop
        invariant
            i <= p < s@.len(),
            rskip_ws(s@, p as int) == rskip_ws(s@, i as int),
        decreases i + 1,
    {
        let c = s[i];
        if !(c == 0x20 || c == 0x09 || c == 0x0d) {
            return Some(i);
        }
        if i == 0 {
            proof {
                reveal_with_fuel(rskip_ws, 2);
            }
            return None;
        }
        i = i - 1;
    }
}

pub fn trim_end_len_exec(s: &[u8]) -> (r: usize)
    ensures r == trim_end_len(s@, s@.len() as int), r <= s@.len(),
{
    let mut end: usize = s.len();
    while end > 0
        invariant
            end <= s@.len(),
            trim_end_len(s@, s@.len() as int) == trim_end_len(s@, end as int),
        decreases end,
    {
        let c = s[end - 1];
        if !(c == 0x20 || c == 0x09 || c == 0x0d) {
            return end;
        }
        end = end - 1;
    }
    0
}

/// All bytes of `[a, b)` are lowercase hex digits.
pub fn all_hex_exec(s: &[u8], a: usize, b: usize) -> (r: bool)
    requires a <= b <= s@.len(),
    ensures r == all_hex(s@, a as int, b as int),
{
    let mut i: usize = a;
    while i < b
        invariant
            a <= i <= b <= s@.len(),
            forall|j: int| a <= j < i ==> is_hex_byte(#[trigger] s@[j]),
        decreases b - i,
    {
        let c = s[i];
        if !((0x30 <= c && c <= 0x39) || (0x61 <= c && c <= 0x66)) {
            return false;
        }
        i = i + 1;
    }
    true
}

pub fn valid_hexlist_exec(s: &[u8], p: usize, end: usize) -> (r: bool)
    requires p <= end <= s@.len(),
    ensures r == valid_hexlist(s@, p as int, end as int),
{
    let mut i: usize = p;
    loop
        invariant
            p <= i <= end <= s@.len(),
            valid_hexlist(s@, p as int, end as int) == valid_hexlist(s@, i as int, end as int),
        decreases end - i,
    {
        if end - i < 8 {
            return false;
        }
        if !all_hex_exec(s, i, i + 8) {
            return false;
        }
        if end - i == 8 {
            return true;
        }
        if s[i + 8] == 0x2c {
            if end - i == 9 {
                return true;
            }
            i = i + 9;
        } else {
            i = i + 8;
        }
    }
}

pub fn hexlist_values_exec(s: &[u8], p: usize, end: usize) -> (r: Vec<u32>)
    requires p <= end <= s@.len(),
    ensures r@ == hexlist_values(s@, p as int, end as int),
{
    let mut out: Vec<u32> = Vec::new();
    let mut i: usize = p;
    while i < end
        invariant
            p <= i <= end <= s@.len(),
            hexlist_values(s@, p as int, end as int)
                == out@ + hexlist_values(s@, i as int, end as int),
        decreases end - i,
    {
        let e = find_in_exec(s, i, end, 0x2c);
        if e - i == 8 && all_hex_exec(s, i, e) {
            let v = parse_hex_bytes(s, i, e);
            if v != 0 {
                out.push(v);
            }
        }
        if e >= end {
            proof {
                assert(hexlist_values(s@, p as int, end as int) =~= out@);
            }
            i = end;
        } else {
            proof {
                assert(hexlist_values(s@, p as int, end as int)
                    =~= out@ + hexlist_values(s@, e + 1, end as int));
            }
            i = e + 1;
        }
    }
    proof {
        assert(hexlist_values(s@, p as int, end as int) =~= out@);
    }
    out
}

/// Copy `s[a .. b]` into a fresh vector.
pub fn copy_range(s: &[u8], a: usize, b: usize) -> (r: Vec<u8>)
    requires a <= b <= s@.len(),
    ensures r@ == s@.subrange(a as int, b as int),
{
    let mut out: Vec<u8> = Vec::new();
    let mut i: usize = a;
    while i < b
        invariant
            a <= i <= b <= s@.len(),
            out@ == s@.subrange(a as int, i as int),
        decreases b - i,
    {
        out.push(s[i]);
        proof {
            assert(out@ =~= s@.subrange(a as int, i + 1));
        }
        i = i + 1;
    }
    out
}

/// Read one manifest line, exactly as `parse_line_spec` says.
pub fn parse_line(line: &[u8]) -> (r: Option<(u32, Vec<u8>, Vec<u32>)>)
    ensures
        match (r, parse_line_spec(line@)) {
            (None, None) => true,
            (Some(a), Some(b)) => a.0 == b.0 && a.1@ == b.1 && a.2@ == b.2,
            _ => false,
        },
{
    if line.len() < 20 || line[0] != 0x5b {
        return None;
    }
    let tl = trim_end_len_exec(line);
    if tl < 20 {
        return None;
    }
    if !(all_hex_exec(line, 1, 9) && line[9] == 0x2c && all_hex_exec(line, 10, 18)
        && line[18] == 0x5d) {
        return None;
    }
    let j = skip_ws_in_exec(line, 19, tl);
    if j == 19 || tl - j < 2 || line[j] != 0x7b || line[j + 1] != 0x7b {
        return None;
    }
    let e = find_close2_in_exec(line, j + 2, tl);
    if tl - e < 2 || e == j + 2 {
        return None;
    }
    let m = skip_ws_in_exec(line, e + 2, tl);
    if m == e + 2 || tl - m < 2 || line[m] != 0x7b || line[m + 1] != 0x7b
        || line[tl - 1] != 0x5d {
        return None;
    }
    let q = match rfind_exec(line, tl - 2, 0x5b) {
        None => { return None; }
        Some(q) => q,
    };
    if q < m + 2 {
        return None;
    }
    let r = match rskip_ws_exec(line, q - 1) {
        None => { return None; }
        Some(r) => r,
    };
    let r_near = if r <= m { true } else { r - m < 3 };
    if r == q - 1 || r_near || line[r] != 0x7d || line[r - 1] != 0x7d {
        return None;
    }
    if !valid_hexlist_exec(line, q + 1, tl - 1) {
        return None;
    }
    let virt = parse_hex_bytes(line, 1, 9);
    let repl = copy_range(line, j + 2, e);
    let xrefs = hexlist_values_exec(line, q + 1, tl - 1);
    Some((virt, repl, xrefs))
}

// ------------------------------------------------------------------
// Rendering.

/// Sixteen space bytes, as the writer puts between the brace groups.
pub open spec fn spaces16() -> Seq<u8> {
    Seq::new(16, |i: int| 0x20u8)
}

/// The comma-joined hex rendering of the first `k` list entries.
pub open spec fn xref_list_prefix(xs: Seq<u32>, k: int) -> Seq<u8>
    decreases k,
        when k <= xs.len()
{
    if k <= 0 {
        Seq::empty()
    } else {
        xref_list_prefix(xs, k - 1) + (if k - 1 > 0 { seq![0x2cu8] } else { Seq::empty() })
            + hex8_of(xs[k - 1])
    }
}

/// One rendered manifest line, without its newline: the address pair,
/// the replacement group, sixteen spaces, the original group, and the
/// comma-joined cross-reference list.
pub open spec fn spec_line_of(v: u32, p: u32, repl: Seq<u8>, orig: Seq<u8>, xs: Seq<u32>)
    -> Seq<u8>
{
    seq![0x5bu8] + hex8_of(v) + seq![0x2cu8] + hex8_of(p) + seq![0x5du8, 0x20u8]
        + seq![0x7bu8, 0x7bu8] + repl + seq![0x7du8, 0x7du8] + spaces16()
        + seq![0x7bu8, 0x7bu8] + orig + seq![0x7du8, 0x7du8, 0x20u8, 0x5bu8]
        + xref_list_prefix(xs, xs.len() as int) + seq![0x5du8]
}

/// Append one rendered line and its newline for the given record, with
/// an empty replacement group.
#[verifier::rlimit(50)]
pub fn render_line(out: &mut Vec<u8>, e: &StringRef)
    ensures
        final(out)@ == old(out)@
            + spec_line_of(e.addr_virt, e.addr_phys, Seq::empty(), e.str@, e.xrefs@)
            + seq![0x0au8],
{
    out.push(0x5b);
    push_hex8(out, e.addr_virt);
    out.push(0x2c);
    push_hex8(out, e.addr_phys);
    out.push(0x5d);
    out.push(0x20);
    out.push(0x7b);
    out.push(0x7b);
    out.push(0x7d);
    out.push(0x7d);
    let mut k: usize = 0;
    while k < 16
        invariant
            k <= 16,
            out@ == old(out)@ + seq![0x5bu8] + hex8_of(e.addr_virt) + seq![0x2cu8]
                + hex8_of(e.addr_phys) + seq![0x5du8, 0x20u8, 0x7bu8, 0x7bu8, 0x7du8, 0x7du8]
                + spaces16().subrange(0, k as int),
        decreases 16 - k,
    {
        out.push(0x20);
        proof {
            assert(out@ =~= old(out)@ + seq![0x5bu8] + hex8_of(e.addr_virt) + seq![0x2cu8]
                + hex8_of(e.addr_phys) + seq![0x5du8, 0x20u8, 0x7bu8, 0x7bu8, 0x7du8, 0x7du8]
                + spaces16().subrange(0, k + 1));
        }
        k = k + 1;
    }
    out.push(0x7b);
    out.push(0x7b);
    let ghost base1 = out@;
    let mut i: usize = 0;
    while i < e.str.len()
        invariant
            i <= e.str@.len(),
            out@ == base1 + e.str@.subrange(0, i as int),
        decreases e.str@.len() - i,
    {
        out.push(e.str[i]);
        proof {
            assert(out@ =~= base1 + e.str@.subrange(0, i + 1));
        }
        i = i + 1;
    }
    proof {
        assert(e.str@.subrange(0, e.str@.len() as int) =~= e.str@);
    }
    out.push(0x7d);
    out.push(0x7d);
    out.push(0x20);
    out.push(0x5b);
    let ghost base2 = out@;
    let mut k: usize = 0;
    while k < e.xrefs.len()
        invariant
            k <= e.xrefs@.len(),
            out@ == base2 + xref_list_prefix(e.xrefs@, k as int),
        decreases e.xrefs@.len() - k,
    {
        if k > 0 {
            out.push(0x2c);
        }
        push_hex8(out, e.xrefs[k]);
        k = k + 1;
    }
    out.push(0x5d);
    out.push(0x0a);
    proof {
        assert(out@ =~= old(out)@
            + spec_line_of(e.addr_virt, e.addr_phys, Seq::empty(), e.str@, e.xrefs@)
            + seq![0x0au8]);
    }
}

/// A permutation of table indices that is sorted by physical address.
pub open spec fn is_sorted_order(ord: Seq<int>, entries: Seq<StringRef>) -> bool {
    &&& ord.len() == entries.len()
    &&& forall|i: int| 0 <= i < ord.len() ==> 0 <= #[trigger] ord[i] < entries.len()
    &&& forall|i: int, j: int| 0 <= i < j < ord.len() ==> ord[i] != ord[j]
    &&& forall|i: int, j: int| 0 <= i < j < ord.len()
        ==> entries[ord[i]].addr_phys <= entries[ord[j]].addr_phys
}

/// The rendered lines of the records in the order `ord[k..]`.
pub open spec fn lines_concat(entries: Seq<StringRef>, ord: Seq<int>, k: int) -> Seq<u8>
    decreases ord.len() - k,
        when 0 <= k <= ord.len()
{
    if k >= ord.len() {
        Seq::empty()
    } else if 0 <= ord[k] < entries.len() {
        let e = entries[ord[k]];
        spec_line_of(e.addr_virt, e.addr_phys, Seq::empty(), e.str@, e.xrefs@)
            + seq![0x0au8] + lines_concat(entries, ord, k + 1)
    } else {
        Seq::empty()
    }
}

/// Render the whole table: one line per record, sorted by ascending
/// physical address, ties in either order.
pub fn render_manifest(table: &StringTable) -> (r: Vec<u8>)
    ensures
        exists|ord: Seq<int>| {
            &&& #[trigger] is_sorted_order(ord, table.entries@)
            &&& r@ == lines_concat(table.entries@, ord, 0)
        },
{
    let n = table.entries.len();
    let mut idx: Vec<usize> = Vec::new();
    let mut i: usize = 0;
    while i < n
        invariant
            i <= n,
            idx@.len() == i,
            forall|a: int| 0 <= a < i ==> idx@[a] == a,
        decreases n - i,
    {
        idx.push(i);
        i = i + 1;
    }
    let mut i: usize = 0;
    while i < n
        invariant
            i <= n == table.entries@.len(),
            idx@.len() == n,
            forall|a: int| 0 <= a < n ==> idx@[a] < n,
            forall|a: int, b: int| 0 <= a < b < n ==> idx@[a] != idx@[b],
            forall|a: int, b: int| 0 <= a < b < i
                ==> table.entries@[idx@[a] as int].addr_phys
                    <= table.entries@[idx@[b] as int].addr_phys,
            forall|a: int, b: int| 0 <= a < i <= b < n
                ==> table.entries@[idx@[a] as int].addr_phys
                    <= table.entries@[idx@[b] as int].addr_phys,
        decreases n - i,
    {
        let mut m: usize = i;
        let mut j: usize = i + 1;
        while j < n
            invariant
                i <= m < j <= n == table.entries@.len(),
                idx@.len() == n,
                forall|a: int| 0 <= a < n ==> idx@[a] < n,
                forall|t: int| i <= t < j
                    ==> table.entries@[idx@[m as int] as int].addr_phys
                        <= table.entries@[idx@[t] as int].addr_phys,
            decreases n - j,
        {
            if table.entries[idx[j]].addr_phys < table.entries[idx[m]].addr_phys {
                m = j;
            }
            j = j + 1;
        }
        let a = idx[i];
        let b = idx[m];
        idx.set(i, b);
        idx.set(m, a);
        i = i + 1;
    }
    let ghost ord: Seq<int> = Seq::new(n as nat, |k: int| idx@[k] as int);
    proof {
        assert(is_sorted_order(ord, table.entries@));
    }
    let mut out: Vec<u8> = Vec::new();
    let mut k: usize = 0;
    while k < n
        invariant
            k <= n == table.entries@.len(),
            idx@.len() == n,
            ord.len() == n,
            forall|a: int| 0 <= a < n ==> 0 <= #[trigger] ord[a] < n && idx@[a] == ord[a],
            out@ + lines_concat(table.entries@, ord, k as int)
                == lines_concat(table.entries@, ord, 0),
        decreases n - k,
    {
        render_line(&mut out, &table.entries[idx[k]]);
        proof {
            assert(out@ + lines_concat(table.entries@, ord, k + 1)
                =~= lines_concat(table.entries@, ord, 0));
        }
        k = k + 1;
    }
    proof {
        assert(out@ =~= lines_concat(table.entries@, ord, 0));
        assert(is_sorted_order(ord, table.entries@));
    }
    out
}


// ------------------------------------------------------------------
// Round trip: a rendered line with a filled replacement reads back.

proof fn lemma_skip_ws_at(s: Seq<u8>, p: int, end: int, t: int)
    requires
        p <= t < end <= s.len(),
        forall|i: int| p <= i < t ==> is_ws(#[trigger] s[i]),
        !is_ws(s[t]),
    ensures skip_ws_in(s, p, end) == t,
    decreases t - p,
{
    if p < t {
        lemma_skip_ws_at(s, p + 1, end, t);
    }
}

proof fn lemma_find_close2_at(s: Seq<u8>, p: int, end: int, t: int)
    requires
        p <= t,
        t + 2 <= end <= s.len(),
        s[t] == 0x7d,
        s[t + 1] == 0x7d,
        forall|i: int| p <= i < t ==> !(#[trigger] s[i] == 0x7d && s[i + 1] == 0x7d),
    ensures find_close2_in(s, p, end) == t,
    decreases t - p,
{
    if p < t {
        lemma_find_close2_at(s, p + 1, end, t);
    }
}

proof fn lemma_rfind_at(s: Seq<u8>, p: int, b: u8, t: int)
    requires
        0 <= t <= p < s.len(),
        s[t] == b,
        forall|i: int| t < i <= p ==> #[trigger] s[i] != b,
    ensures rfind(s, p, b) == t,
    decreases p - t,
{
    if t < p {
        lemma_rfind_at(s, p - 1, b, t);
    }
}

proof fn lemma_rskip_at(s: Seq<u8>, p: int, t: int)
    requires
        0 <= t <= p < s.len(),
        !is_ws(s[t]),
        forall|i: int| t < i <= p ==> is_ws(#[trigger] s[i]),
    ensures rskip_ws(s, p) == t,
    decreases p - t,
{
    if t < p {
        lemma_rskip_at(s, p - 1, t);
    }
}

proof fn lemma_find_in_absent(s: Seq<u8>, p: int, end: int, b: u8)
    requires
        0 <= p <= end <= s.len(),
        forall|i: int| p <= i < end ==> #[trigger] s[i] != b,
    ensures find_in(s, p, end, b) == end,
    decreases end - p,
{
    if p < end {
        lemma_find_in_absent(s, p + 1, end, b);
    }
}

/// Shape of the rendered cross-reference list: item `t` occupies digits
/// at `9 t .. 9 t + 8`, with one comma before each item after the first.
proof fn lemma_list_prefix_shape(xs: Seq<u32>, k: int)
    requires 1 <= k <= xs.len(),
    ensures
        xref_list_prefix(xs, k).len() == 9 * k - 1,
        forall|t: int, d: int| 0 <= t < k && 0 <= d < 8
            ==> #[trigger] xref_list_prefix(xs, k)[9 * t + d] == hex8_of(xs[t])[d],
        forall|t: int| 1 <= t < k ==> #[trigger] xref_list_prefix(xs, k)[9 * t - 1] == 0x2c,
    decreases k,
{
    crate::hex::lemma_hex8_roundtrip(xs[k - 1]);
    if k == 1 {
        reveal_with_fuel(xref_list_prefix, 3);
        assert(xref_list_prefix(xs, 1) =~= hex8_of(xs[0]));
    } else {
        lemma_list_prefix_shape(xs, k - 1);
        assert forall|t: int, d: int| 0 <= t < k && 0 <= d < 8
            implies #[trigger] xref_list_prefix(xs, k)[9 * t + d] == hex8_of(xs[t])[d] by {
            if t < k - 1 {
                assert(xref_list_prefix(xs, k)[9 * t + d]
                    == xref_list_prefix(xs, k - 1)[9 * t + d]);
            }
        }
    }
}

/// A byte span holding comma-joined eight-digit groups validates and
/// parses back to exactly the nonzero values it renders.
proof fn lemma_hexlist_span(line: Seq<u8>, a: int, xs: Seq<u32>)
    requires
        xs.len() >= 1,
        0 <= a,
        a + 9 * xs.len() - 1 <= line.len(),
        forall|t: int, d: int| 0 <= t < xs.len() && 0 <= d < 8
            ==> #[trigger] line[a + 9 * t + d] == hex8_of(xs[t])[d],
        forall|t: int| 1 <= t < xs.len() ==> #[trigger] line[a + 9 * t - 1] == 0x2c,
        forall|t: int| 0 <= t < xs.len() ==> #[trigger] xs[t] != 0,
    ensures
        valid_hexlist(line, a, a + 9 * xs.len() - 1),
        hexlist_values(line, a, a + 9 * xs.len() - 1) == xs,
    decreases xs.len(),
{
    let b = a + 9 * xs.len() - 1;
    crate::hex::lemma_hex8_roundtrip(xs[0]);
    assert forall|i: int| a <= i < a + 8
        implies is_hex_byte(#[trigger] line[i]) && line[i] == hex8_of(xs[0])[i - a] by {
        let d = i - a;
        assert(line[a + 9 * 0 + d] == hex8_of(xs[0])[d]);
        assert(a + 9 * 0 + d == i);
    }
    assert(line.subrange(a, a + 8) =~= hex8_of(xs[0]));
    if xs.len() == 1 {
        lemma_find_in_absent(line, a, b, 0x2c);
        assert(hexlist_values(line, a, b) =~= xs);
    } else {
        let tail = xs.subrange(1, xs.len() as int);
        assert(line[a + 9 * 1 - 1] == 0x2c);
        assert(a + 9 * 1 - 1 == a + 8);
        assert forall|t: int, d: int| 0 <= t < tail.len() && 0 <= d < 8
            implies #[trigger] line[(a + 9) + 9 * t + d] == hex8_of(tail[t])[d] by {
            assert(tail[t] == xs[t + 1]);
            assert((a + 9) + 9 * t + d == a + 9 * (t + 1) + d);
        }
        assert forall|t: int| 1 <= t < tail.len()
            implies #[trigger] line[(a + 9) + 9 * t - 1] == 0x2c by {
            assert((a + 9) + 9 * t - 1 == a + 9 * (t + 1) - 1);
        }
        lemma_hexlist_span(line, a + 9, tail);
        assert(valid_hexlist(line, a, b)) by {
            assert(a + 8 < b && line[a + 8] == 0x2c);
            assert(a + 9 != b);
            assert(valid_hexlist(line, a + 9, b));
        }
        assert(hexlist_values(line, a, b) == xs) by {
            lemma_find_in_at(line, a, b, 0x2c, a + 8);
            assert(hexlist_values(line, a + 9, b) == tail);
            assert(parse_hex(line.subrange(a, a + 8)) == xs[0]);
            assert(hexlist_values(line, a, b) =~= seq![xs[0]] + tail);
            assert(seq![xs[0]] + tail =~= xs);
        }
    }
}

proof fn lemma_find_in_at(s: Seq<u8>, p: int, end: int, b: u8, t: int)
    requires
        0 <= p <= t < end <= s.len(),
        s[t] == b,
        forall|i: int| p <= i < t ==> #[trigger] s[i] != b,
    ensures find_in(s, p, end, b) == t,
    decreases t - p,
{
    if p < t {
        lemma_find_in_at(s, p + 1, end, b, t);
    }
}

/// Writing one manifest line and reading it back with a filled-in
/// replacement yields the same virtual address, the same replacement
/// text and the same cross-reference list. The replacement must be
/// non-empty and free of closing-brace bytes; the list must be non-empty
/// with every entry nonzero, since a line whose list is empty is skipped
/// and zero entries are filtered on reading.
pub proof fn lemma_line_roundtrip(v: u32, ph: u32, repl: Seq<u8>, orig: Seq<u8>,
    xs: Seq<u32>)
    requires
        repl.len() > 0,
        forall|i: int| 0 <= i < repl.len() ==> #[trigger] repl[i] != 0x7d,
        xs.len() > 0,
        forall|t: int| 0 <= t < xs.len() ==> #[trigger] xs[t] != 0,
    ensures
        parse_line_spec(spec_line_of(v, ph, repl, orig, xs))
            == Some((v, repl, xs)),
{
    let line = spec_line_of(v, ph, repl, orig, xs);
    let rn = repl.len() as int;
    let gn = orig.len() as int;
    let cnt = xs.len() as int;
    let e0 = 22 + rn;
    let m0 = 40 + rn;
    let x_lb = 45 + rn + gn;
    let a = x_lb + 1;
    let tl = a + 9 * cnt;
    crate::hex::lemma_hex8_roundtrip(v);
    crate::hex::lemma_hex8_roundtrip(ph);
    lemma_list_prefix_shape(xs, cnt);
    assert(line.len() == tl);
    assert(line[0] == 0x5b);
    assert forall|i: int| 1 <= i < 9 implies is_hex_byte(#[trigger] line[i]) by {
        assert(line[i] == hex8_of(v)[i - 1]);
    }
    assert(line[9] == 0x2c);
    assert forall|i: int| 10 <= i < 18 implies is_hex_byte(#[trigger] line[i]) by {
        assert(line[i] == hex8_of(ph)[i - 10]);
    }
    assert(line[18] == 0x5d);
    assert(line[19] == 0x20);
    assert(line[20] == 0x7b && line[21] == 0x7b);
    assert forall|i: int| 22 <= i < e0 implies #[trigger] line[i] == repl[i - 22] by {}
    assert(line[e0] == 0x7d && line[e0 + 1] == 0x7d);
    assert forall|i: int| e0 + 2 <= i < m0 implies is_ws(#[trigger] line[i]) by {
        assert(line[i] == spaces16()[i - (e0 + 2)]);
    }
    assert(line[m0] == 0x7b && line[m0 + 1] == 0x7b);
    assert(line[x_lb - 3] == 0x7d && line[x_lb - 2] == 0x7d);
    assert(line[x_lb - 1] == 0x20);
    assert(line[x_lb] == 0x5b);
    assert forall|i: int| a <= i < tl - 1
        implies #[trigger] line[i] == xref_list_prefix(xs, cnt)[i - a] by {}
    assert forall|t: int, d: int| 0 <= t < cnt && 0 <= d < 8
        implies #[trigger] line[a + 9 * t + d] == hex8_of(xs[t])[d] by {
        assert(line[a + 9 * t + d] == xref_list_prefix(xs, cnt)[9 * t + d]);
    }
    assert forall|t: int| 1 <= t < cnt implies #[trigger] line[a + 9 * t - 1] == 0x2c by {
        assert(line[a + 9 * t - 1] == xref_list_prefix(xs, cnt)[9 * t - 1]);
    }
    assert(line[tl - 1] == 0x5d);

    assert(trim_end_len(line, tl) == tl);
    assert(all_hex(line, 1, 9));
    assert(all_hex(line, 10, 18));
    lemma_skip_ws_at(line, 19, tl, 20);
    assert forall|i: int| 22 <= i < e0
        implies !(#[trigger] line[i] == 0x7d && line[i + 1] == 0x7d) by {
        assert(line[i] == repl[i - 22]);
    }
    lemma_find_close2_at(line, 22, tl, e0);
    lemma_skip_ws_at(line, e0 + 2, tl, m0);
    assert forall|i: int| x_lb < i <= tl - 2 implies #[trigger] line[i] != 0x5b by {
        let j = i - a;
        let t = j / 9;
        let d = j % 9;
        assert(j == 9 * t + d);
        assert(0 <= t < cnt && 0 <= d < 9) by (nonlinear_arith)
            requires 0 <= j < 9 * cnt - 1, t == j / 9, d == j % 9, j == 9 * t + d;
        if d == 8 {
            assert(line[a + 9 * (t + 1) - 1] == 0x2c);
        } else {
            assert(is_hex_byte(hex8_of(xs[t])[d])) by {
                crate::hex::lemma_hex8_roundtrip(xs[t]);
            }
            assert(line[a + 9 * t + d] == hex8_of(xs[t])[d]);
        }
    }
    lemma_rfind_at(line, tl - 2, 0x5b, x_lb);
    lemma_rskip_at(line, x_lb - 1, x_lb - 2);
    lemma_hexlist_span(line, a, xs);
    assert(line.subrange(1, 9) =~= hex8_of(v));
    assert(line.subrange(22, e0) =~= repl);
    assert(parse_line_spec(line) == Some((v, repl, xs)));
}


/// The rendered lines of `entries` in the order `ord`, with the
/// replacement field of line `k` filled with `repls[k]`.
pub open spec fn filled_lines(entries: Seq<StringRef>, ord: Seq<int>, repls: Seq<Seq<u8>>,
    k: int) -> Seq<u8>
    decreases ord.len() - k,
        when 0 <= k <= ord.len() && ord.len() <= repls.len()
{
    if k >= ord.len() {
        Seq::empty()
    } else if 0 <= ord[k] < entries.len() {
        let e = entries[ord[k]];
        spec_line_of(e.addr_virt, e.addr_phys, repls[k], e.str@, e.xrefs@)
            + seq![0x0au8] + filled_lines(entries, ord, repls, k + 1)
    } else {
        Seq::empty()
    }
}

/// A rendered line holds no newline byte when its replacement and
/// original text hold none.
proof fn lemma_line_no_newline(v: u32, ph: u32, repl: Seq<u8>, orig: Seq<u8>, xs: Seq<u32>)
    requires
        forall|i: int| 0 <= i < repl.len() ==> #[trigger] repl[i] != 0x0a,
        forall|i: int| 0 <= i < orig.len() ==> #[trigger] orig[i] != 0x0a,
        xs.len() > 0,
    ensures
        forall|i: int| 0 <= i < spec_line_of(v, ph, repl, orig, xs).len()
            ==> #[trigger] spec_line_of(v, ph, repl, orig, xs)[i] != 0x0a,
{
    let line = spec_line_of(v, ph, repl, orig, xs);
    let rn = repl.len() as int;
    let gn = orig.len() as int;
    let cnt = xs.len() as int;
    let e0 = 22 + rn;
    let m0 = 40 + rn;
    let x_lb = 45 + rn + gn;
    let a = x_lb + 1;
    crate::hex::lemma_hex8_roundtrip(v);
    crate::hex::lemma_hex8_roundtrip(ph);
    lemma_list_prefix_shape(xs, cnt);
    assert forall|i: int| a <= i < line.len() - 1
        implies #[trigger] line[i] == xref_list_prefix(xs, cnt)[i - a] by {}
    assert forall|t: int| 1 <= t < cnt implies #[trigger] line[a + 9 * t - 1] == 0x2c by {
        assert(line[a + 9 * t - 1] == xref_list_prefix(xs, cnt)[9 * t - 1]);
    }
    assert forall|i: int| 0 <= i < line.len() implies #[trigger] line[i] != 0x0a by {
        if 1 <= i < 9 {
            assert(line[i] == hex8_of(v)[i - 1]);
            assert(is_hex_byte(line[i]));
        } else if 10 <= i < 18 {
            assert(line[i] == hex8_of(ph)[i - 10]);
            assert(is_hex_byte(line[i]));
        } else if 22 <= i < e0 {
            assert(line[i] == repl[i - 22]);
        } else if e0 + 2 <= i < m0 {
            assert(line[i] == spaces16()[i - (e0 + 2)]);
        } else if m0 + 2 <= i < m0 + 2 + gn {
            assert(line[i] == orig[i - (m0 + 2)]);
        } else if a <= i < line.len() - 1 {
            let j = i - a;
            let t = j / 9;
            let d = j % 9;
            assert(j == 9 * t + d);
            assert(0 <= t < cnt && 0 <= d < 9) by (nonlinear_arith)
                requires 0 <= j < 9 * cnt - 1, t == j / 9, d == j % 9, j == 9 * t + d;
            if d == 8 {
                assert(t + 1 < cnt) by (nonlinear_arith)
                    requires j == 9 * t + 8, j < 9 * cnt - 1;
                assert(line[a + 9 * (t + 1) - 1] == 0x2c);
            } else {
                assert(is_hex_byte(hex8_of(xs[t])[d])) by {
                    crate::hex::lemma_hex8_roundtrip(xs[t]);
                }
                assert(line[a + 9 * t + d]
                    == xref_list_prefix(xs, cnt)[9 * t + d]);
                assert(xref_list_prefix(xs, cnt)[9 * t + d] == hex8_of(xs[t])[d]);
            }
        }
    }
}

/// Reading back a filled rendering, line by line: each line inserts its
/// record in order. The conditions are those of one line's round trip,
/// plus newline-free texts so that line splitting inverts line joining.
pub proof fn lemma_manifest_roundtrip(entries: Seq<StringRef>, ord: Seq<int>,
    repls: Seq<Seq<u8>>, tv: Seq<StringRefV>, k: int)
    requires
        0 <= k <= ord.len() <= repls.len(),
        forall|t: int| 0 <= t < ord.len() ==> 0 <= #[trigger] ord[t] < entries.len(),
        forall|t: int| 0 <= t < ord.len() ==> {
            &&& (#[trigger] repls[t]).len() > 0
            &&& forall|i: int| 0 <= i < repls[t].len()
                ==> #[trigger] repls[t][i] != 0x7d && repls[t][i] != 0x0a
        },
        forall|t: int| 0 <= t < entries.len() ==> {
            &&& (#[trigger] entries[t]).xrefs@.len() > 0
            &&& forall|i: int| 0 <= i < entries[t].xrefs@.len()
                ==> #[trigger] entries[t].xrefs@[i] != 0
            &&& forall|i: int| 0 <= i < entries[t].str@.len()
                ==> #[trigger] entries[t].str@[i] != 0x0a
        },
    ensures
        apply_lines_from(tv, filled_lines(entries, ord, repls, k), 0)
            == fold_filled_inserts(entries, ord, repls, tv, k),
    decreases ord.len() - k,
{
    let text = filled_lines(entries, ord, repls, k);
    if k >= ord.len() {
    } else {
        let e = entries[ord[k]];
        let line = spec_line_of(e.addr_virt, e.addr_phys, repls[k], e.str@, e.xrefs@);
        let rest = filled_lines(entries, ord, repls, k + 1);
        lemma_line_no_newline(e.addr_virt, e.addr_phys, repls[k], e.str@, e.xrefs@);
        lemma_line_roundtrip(e.addr_virt, e.addr_phys, repls[k], e.str@, e.xrefs@);
        assert(text =~= line + (seq![0x0au8] + rest));
        assert forall|i: int| 0 <= i < line.len() implies #[trigger] text[i] != 0x0a by {
            assert(text[i] == line[i]);
        }
        assert(text[line.len() as int] == 0x0a);
        lemma_find_in_at(text, 0, text.len() as int, 0x0a, line.len() as int);
        assert(text.subrange(0, line.len() as int) =~= line);
        assert(line.len() > 0 && line.last() == 0x5d);
        let tv2 = apply_line(tv, line);
        lemma_manifest_roundtrip(entries, ord, repls, tv2, k + 1);
        assert(text.subrange(line.len() as int + 1, text.len() as int) =~= rest);
        lemma_apply_lines_shift(tv2, text, line.len() as int + 1,
            text.subrange(line.len() as int + 1, text.len() as int));
        assert(apply_lines_from(tv, text, 0)
            == apply_lines_from(tv2, text, line.len() as int + 1));
    }
}

/// The per-line insertion fold that reading a filled rendering performs.
pub open spec fn fold_filled_inserts(entries: Seq<StringRef>, ord: Seq<int>,
    repls: Seq<Seq<u8>>, tv: Seq<StringRefV>, k: int) -> Seq<StringRefV>
    decreases ord.len() - k,
        when 0 <= k <= ord.len() && ord.len() <= repls.len()
{
    if k >= ord.len() {
        tv
    } else if 0 <= ord[k] < entries.len() {
        let e = entries[ord[k]];
        let tv2 = spec_insert_v(tv, StringRefV {
            text: sjis_encode_of(repls[k]),
            addr_virt: e.addr_virt,
            addr_phys: 0,
            xrefs: e.xrefs@,
        });
        fold_filled_inserts(entries, ord, repls, tv2, k + 1)
    } else {
        tv
    }
}

/// Applying lines from a position equals applying the suffix from zero.
proof fn lemma_apply_lines_shift(tv: Seq<StringRefV>, text: Seq<u8>, p: int, rest: Seq<u8>)
    requires
        0 <= p <= text.len(),
        rest == text.subrange(p, text.len() as int),
    ensures
        apply_lines_from(tv, text, p) == apply_lines_from(tv, rest, 0),
    decreases text.len() - p,
{
    if p < text.len() {
        let f = find_in(text, p, text.len() as int, 0x0a);
        lemma_find_in_shift(text, p, text.len() as int, 0x0a, p);
        let e = if f < p { p } else if f > text.len() { text.len() as int } else { f };
        let f2 = find_in(rest, 0, rest.len() as int, 0x0a);
        assert(f2 == f - p);
        assert(text.subrange(p, e) =~= rest.subrange(0, e - p));
        let l0 = text.subrange(p, e);
        let line = if l0.len() > 0 && l0.last() == 0x0d { l0.drop_last() } else { l0 };
        let tv2 = apply_line(tv, line);
        if e < text.len() {
            lemma_apply_lines_shift(tv2, text, e + 1,
                text.subrange(e + 1, text.len() as int));
            lemma_apply_lines_shift(tv2, rest, e - p + 1,
                rest.subrange(e - p + 1, rest.len() as int));
            assert(text.subrange(e + 1, text.len() as int)
                =~= rest.subrange(e - p + 1, rest.len() as int));
        }
    }
}

/// A search inside a suffix sees the same bytes.
proof fn lemma_find_in_shift(s: Seq<u8>, p: int, end: int, b: u8, base: int)
    requires 0 <= base <= p <= end <= s.len(),
    ensures
        find_in(s.subrange(base, s.len() as int), p - base, end - base, b)
            == find_in(s, p, end, b) - base,
    decreases end - p,
{
    if p < end {
        assert(s.subrange(base, s.len() as int)[p - base] == s[p]);
        if s[p] != b {
            lemma_find_in_shift(s, p + 1, end, b, base);
        }
    }
}


/// The record one filled line contributes.
pub open spec fn filled_record(entries: Seq<StringRef>, ord: Seq<int>, repls: Seq<Seq<u8>>,
    t: int) -> StringRefV
    recommends 0 <= t < ord.len(), 0 <= ord[t] < entries.len(), ord.len() <= repls.len(),
{
    StringRefV {
        text: sjis_encode_of(repls[t]),
        addr_virt: entries[ord[t]].addr_virt,
        addr_phys: 0,
        xrefs: entries[ord[t]].xrefs@,
    }
}

/// If no record holds the key, the key is not found.
proof fn lemma_key_index_v_absent(s: Seq<StringRefV>, k: u32)
    requires forall|j: int| 0 <= j < s.len() ==> (#[trigger] s[j]).addr_virt != k,
    ensures crate::strtable::key_index_v(s, k) == -1,
    decreases s.len(),
{
    if s.len() > 0 {
        let tail = s.subrange(1, s.len() as int);
        assert forall|j: int| 0 <= j < tail.len()
            implies (#[trigger] tail[j]).addr_virt != k by {
            assert(tail[j] == s[j + 1]);
        }
        lemma_key_index_v_absent(tail, k);
    }
}

/// With unique keys, reading back a filled rendering starting from an
/// empty table yields exactly one record per line, in line order: the
/// same virtual addresses and the same cross-reference lists.
pub proof fn lemma_fold_filled_unique(entries: Seq<StringRef>, ord: Seq<int>,
    repls: Seq<Seq<u8>>, acc: Seq<StringRefV>, k: int)
    requires
        0 <= k <= ord.len() <= repls.len(),
        forall|t: int| 0 <= t < ord.len() ==> 0 <= #[trigger] ord[t] < entries.len(),
        forall|t1: int, t2: int| 0 <= t1 < t2 < ord.len()
            ==> entries[ord[t1]].addr_virt != entries[ord[t2]].addr_virt,
        forall|t: int, j: int| k <= t < ord.len() && 0 <= j < acc.len()
            ==> (#[trigger] acc[j]).addr_virt != entries[#[trigger] ord[t]].addr_virt,
    ensures
        fold_filled_inserts(entries, ord, repls, acc, k)
            == acc + Seq::new((ord.len() - k) as nat,
                |i: int| filled_record(entries, ord, repls, k + i)),
    decreases ord.len() - k,
{
    let recs = Seq::new((ord.len() - k) as nat,
        |i: int| filled_record(entries, ord, repls, k + i));
    if k >= ord.len() {
        assert(fold_filled_inserts(entries, ord, repls, acc, k) =~= acc + recs);
    } else {
        let r = filled_record(entries, ord, repls, k);
        assert forall|j: int| 0 <= j < acc.len()
            implies (#[trigger] acc[j]).addr_virt != r.addr_virt by {
            assert(acc[j].addr_virt != entries[ord[k]].addr_virt);
        }
        lemma_key_index_v_absent(acc, r.addr_virt);
        let acc2 = acc.push(r);
        assert(crate::strtable::spec_insert_v(acc, r) == acc2);
        assert forall|t: int, j: int| k + 1 <= t < ord.len() && 0 <= j < acc2.len()
            implies (#[trigger] acc2[j]).addr_virt
                != entries[#[trigger] ord[t]].addr_virt by {
            if j < acc.len() {
                assert(acc2[j] == acc[j]);
            } else {
                assert(acc2[j] == r);
            }
        }
        lemma_fold_filled_unique(entries, ord, repls, acc2, k + 1);
        assert(acc2 + Seq::new((ord.len() - (k + 1)) as nat,
            |i: int| filled_record(entries, ord, repls, k + 1 + i)) =~= acc + recs);
    }
}

} // verus!
