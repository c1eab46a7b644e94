use vstd::prelude::*;
use vstd::bytes::{
    spec_u16_from_le_bytes, spec_u32_from_le_bytes, spec_u64_from_le_bytes, u16_from_le_bytes,
    u32_from_le_bytes, u64_from_le_bytes,
};
use vstd::slice::slice_subrange;
use vstd::utf8::{decode_utf8, valid_utf8};
use crate::outside::utf8_to_string;

verus! {

// ── Reading the file image ───────────────────────────────────────────────

/// The bytes `[off, off + len)` of the file `d`, cut short at its end (as
/// reading at an offset returns them).
pub open spec fn read_at(d: Seq<u8>, off: int, len: int) -> Seq<u8> {
    let a = if off < d.len() { off } else { d.len() as int };
    let b = if off + len < d.len() { off + len } else { d.len() as int };
    d.subrange(a, b)
}

fn read_range(d: &[u8], off: u64, len: u64) -> (r: &[u8])
    ensures
        r@ == read_at(d@, off as int, len as int),
{
    let n = d.len() as u64;
    if off >= n {
        return slice_subrange(d, d.len(), d.len());
    }
    let rest = n - off;
    let take = if len < rest {
        len
    } else {
        rest
    };
    slice_subrange(d, off as usize, (off + take) as usize)
}

pub open spec fn sat(x: int) -> u64 {
    if x > u64::MAX {
        u64::MAX
    } else {
        x as u64
    }
}

fn sat_add(a: u64, b: u64) -> (r: u64)
    ensures
        r == sat(a + b),
{
    if a > u64::MAX - b {
        u64::MAX
    } else {
        a + b
    }
}

fn sat_mul(a: u64, b: u64) -> (r: u64)
    ensures
        r == sat(a * b),
{
    match a.checked_mul(b) {
        Some(v) => v,
        None => u64::MAX,
    }
}

pub open spec fn u16_at(s: Seq<u8>, i: int) -> u16 {
    spec_u16_from_le_bytes(s.subrange(i, i + 2))
}

pub open spec fn u32_at(s: Seq<u8>, i: int) -> u32 {
    spec_u32_from_le_bytes(s.subrange(i, i + 4))
}

pub open spec fn u64_at(s: Seq<u8>, i: int) -> u64 {
    spec_u64_from_le_bytes(s.subrange(i, i + 8))
}

fn get_u16(s: &[u8], i: usize) -> (r: u16)
    requires
        i + 2 <= s.len(),
    ensures
        r == u16_at(s@, i as int),
{
    u16_from_le_bytes(slice_subrange(s, i, i + 2))
}

fn get_u32(s: &[u8], i: usize) -> (r: u32)
    requires
        i + 4 <= s.len(),
    ensures
        r == u32_at(s@, i as int),
{
    u32_from_le_bytes(slice_subrange(s, i, i + 4))
}

fn get_u64(s: &[u8], i: usize) -> (r: u64)
    requires
        i + 8 <= s.len(),
    ensures
        r == u64_at(s@, i as int),
{
    u64_from_le_bytes(slice_subrange(s, i, i + 8))
}

// ── The ELF64 header and program headers ─────────────────────────────────

pub open spec fn header(d: Seq<u8>) -> Seq<u8> {
    read_at(d, 0, 64)
}

/// A little-endian ELF64 file (`\x7fELF`, class 2) with a full header.
pub open spec fn is_elf64(d: Seq<u8>) -> bool {
    let h = header(d);
    &&& h.len() == 64
    &&& h[0] == 0x7f && h[1] == 0x45 && h[2] == 0x4c && h[3] == 0x46
    &&& h[4] == 2
}

pub open spec fn ph_off(d: Seq<u8>) -> u64 {
    u64_at(header(d), 32)
}

pub open spec fn ph_entsize(d: Seq<u8>) -> u16 {
    u16_at(header(d), 54)
}

pub open spec fn ph_num(d: Seq<u8>) -> u16 {
    u16_at(header(d), 56)
}

/// The 56 bytes of program header `i` (fewer when the file ends first).
pub open spec fn ph_at(d: Seq<u8>, i: int) -> Seq<u8> {
    read_at(d, sat(ph_off(d) + sat(i * ph_entsize(d))) as int, 56)
}

/// The number of program headers read: they are read in order until
/// `e_phnum` of them or until one is cut short by the end of the file.
pub open spec fn ph_stop(d: Seq<u8>, i: int) -> int
    decreases ph_num(d) - i,
{
    if i >= ph_num(d) {
        i
    } else if ph_at(d, i).len() < 56 {
        i
    } else {
        ph_stop(d, i + 1)
    }
}

/// A segment as `(p_offset, p_vaddr, p_filesz, p_memsz)`.
pub open spec fn segment_of(ph: Seq<u8>) -> (u64, u64, u64, u64) {
    (u64_at(ph, 8), u64_at(ph, 16), u64_at(ph, 32), u64_at(ph, 40))
}

pub open spec fn segments(d: Seq<u8>) -> Seq<(u64, u64, u64, u64)> {
    Seq::new(ph_stop(d, 0) as nat, |k: int| segment_of(ph_at(d, k)))
}

/// `(p_vaddr, p_filesz)` of the last `PT_DYNAMIC` header among the first `n`.
pub open spec fn last_dynamic(d: Seq<u8>, n: int) -> Option<(u64, u64)>
    decreases n,
{
    if n <= 0 {
        None
    } else if u32_at(ph_at(d, n - 1), 0) == 2 {
        Some((u64_at(ph_at(d, n - 1), 16), u64_at(ph_at(d, n - 1), 32)))
    } else {
        last_dynamic(d, n - 1)
    }
}

/// The file offset of `vaddr`: through the first segment whose memory image
/// holds it.
pub open spec fn file_offset(segs: Seq<(u64, u64, u64, u64)>, vaddr: u64) -> Option<u64>
    decreases segs.len(),
{
    if segs.len() == 0 {
        None
    } else if segs[0].1 <= vaddr < sat(segs[0].1 + segs[0].3) {
        Some(sat(segs[0].0 + (vaddr - segs[0].1)))
    } else {
        file_offset(segs.drop_first(), vaddr)
    }
}

/// Translate a virtual address into a file offset through the first segment
/// whose memory image `[p_vaddr, p_vaddr + p_memsz)` holds it.
pub fn vaddr_to_file_offset(segments: &Vec<(u64, u64, u64, u64)>, vaddr: u64) -> (r: Option<u64>)
    ensures
        r == file_offset(segments@, vaddr),
{
    let mut i: usize = 0;
    assert(segments@.skip(0) =~= segments@);
    while i < segments.len()
        invariant
            i <= segments.len(),
            file_offset(segments@, vaddr) == file_offset(segments@.skip(i as int), vaddr),
        decreases segments.len() - i,
    {
        let (p_offset, p_vaddr, _p_filesz, p_memsz) = segments[i];
        assert(segments@.skip(i as int)[0] == segments@[i as int]);
        assert(segments@.skip(i as int).drop_first() =~= segments@.skip(i + 1));
        if vaddr >= p_vaddr && vaddr < sat_add(p_vaddr, p_memsz) {
            return Some(sat_add(p_offset, vaddr - p_vaddr));
        }
        i = i + 1;
    }
    assert(segments@.skip(i as int) =~= Seq::<(u64, u64, u64, u64)>::empty());
    None
}

// ── The dynamic section ──────────────────────────────────────────────────

pub open spec fn dyn_tag(b: Seq<u8>, j: int) -> u64 {
    u64_at(b, 16 * j)
}

pub open spec fn dyn_val(b: Seq<u8>, j: int) -> u64 {
    u64_at(b, 16 * j + 8)
}

/// The number of dynamic entries read: up to a `DT_NULL` entry or to the
/// last whole 16-byte entry.
pub open spec fn dyn_stop(b: Seq<u8>, j: int) -> int
    decreases b.len() - 16 * j,
{
    if j < 0 || 16 * j + 16 > b.len() {
        j
    } else if dyn_tag(b, j) == 0 {
        j
    } else {
        dyn_stop(b, j + 1)
    }
}

/// The `DT_NEEDED` string offsets among the first `m` entries, in order.
pub open spec fn needed_offsets(b: Seq<u8>, m: int) -> Seq<u64>
    decreases m,
{
    if m <= 0 {
        Seq::empty()
    } else if dyn_tag(b, m - 1) == 1 {
        needed_offsets(b, m - 1).push(dyn_val(b, m - 1))
    } else {
        needed_offsets(b, m - 1)
    }
}

/// The value of the last entry tagged `tag` among the first `m` entries.
pub open spec fn last_tagged(b: Seq<u8>, tag: u64, m: int) -> Option<u64>
    decreases m,
{
    if m <= 0 {
        None
    } else if dyn_tag(b, m - 1) == tag {
        Some(dyn_val(b, m - 1))
    } else {
        last_tagged(b, tag, m - 1)
    }
}

/// The name starting at `off` in the string table: up to its NUL (or the
/// table's end), kept when it has at least 4 bytes and is valid UTF-8.
pub open spec fn name_at(strtab: Seq<u8>, off: u64) -> Option<Seq<char>> {
    if off >= strtab.len() {
        None
    } else {
        let rest = strtab.skip(off as int);
        let end = if exists|e: int| 0 <= e < rest.len() && rest[e] == 0 {
            choose|e: int| 0 <= e < rest.len() && rest[e] == 0 && forall|f: int| 0 <= f < e ==> rest[f] != 0
        } else {
            rest.len() as int
        };
        let bytes = rest.take(end);
        if end >= 4 && valid_utf8(bytes) {
            Some(decode_utf8(bytes))
        } else {
            None
        }
    }
}

pub open spec fn names_at(strtab: Seq<u8>, offs: Seq<u64>) -> Seq<Seq<char>>
    decreases offs.len(),
{
    if offs.len() == 0 {
        Seq::empty()
    } else {
        let prev = names_at(strtab, offs.drop_last());
        match name_at(strtab, offs.last()) {
            Some(n) => prev.push(n),
            None => prev,
        }
    }
}

/// The `DT_NEEDED` library names of an ELF64 file image: empty for files
/// that are not little-endian ELF64, that have no program or dynamic
/// headers, or whose dynamic section or string table cannot be located.
pub open spec fn elf_needed(d: Seq<u8>) -> Seq<Seq<char>> {
    if !is_elf64(d) || ph_entsize(d) == 0 || ph_num(d) == 0 {
        Seq::empty()
    } else {
        match last_dynamic(d, ph_stop(d, 0)) {
            None => Seq::empty(),
            Some((dyn_vaddr, dyn_size)) => match file_offset(segments(d), dyn_vaddr) {
                None => Seq::empty(),
                Some(dyn_off) => {
                    let b = read_at(d, dyn_off as int, dyn_size as int);
                    let m = dyn_stop(b, 0);
                    match (last_tagged(b, 5, m), last_tagged(b, 10, m)) {
                        (Some(str_vaddr), Some(str_size)) => match file_offset(segments(d), str_vaddr) {
                            None => Seq::empty(),
                            Some(str_off) => names_at(
                                read_at(d, str_off as int, str_size as int),
                                needed_offsets(b, m),
                            ),
                        },
                        _ => Seq::empty(),
                    }
                },
            },
        }
    }
}

/// An address is translated through the first segment whose memory image
/// `[p_vaddr, p_vaddr + p_memsz)` holds it: to that segment's `p_offset`
/// plus the distance from its `p_vaddr`; an address no segment holds has
/// no file offset.
pub proof fn law_file_offset_first_holding_segment(segs: Seq<(u64, u64, u64, u64)>, v: u64, k: int)
    requires
        0 <= k < segs.len(),
        segs[k].1 <= v < sat(segs[k].1 + segs[k].3),
        forall|j: int| 0 <= j < k ==> !(#[trigger] segs[j].1 <= v < sat(segs[j].1 + segs[j].3)),
    ensures
        file_offset(segs, v) == Some(sat(segs[k].0 + (v - segs[k].1))),
    decreases k,
{
    if k > 0 {
        let t = segs.drop_first();
        assert(!(segs[0].1 <= v < sat(segs[0].1 + segs[0].3)));
        assert forall|j: int| 0 <= j < k - 1 implies !(#[trigger] t[j].1 <= v < sat(t[j].1 + t[j].3)) by {
            assert(t[j] == segs[j + 1]);
        }
        assert(t[k - 1] == segs[k]);
        law_file_offset_first_holding_segment(t, v, k - 1);
    }
}

/// An address that no segment's memory image holds has no file offset.
pub proof fn law_file_offset_unmapped(segs: Seq<(u64, u64, u64, u64)>, v: u64)
    requires
        forall|j: int| 0 <= j < segs.len() ==> !(#[trigger] segs[j].1 <= v < sat(segs[j].1 + segs[j].3)),
    ensures
        file_offset(segs, v) is None,
    decreases segs.len(),
{
    if segs.len() > 0 {
        let t = segs.drop_first();
        assert(!(segs[0].1 <= v < sat(segs[0].1 + segs[0].3)));
        assert forall|j: int| 0 <= j < t.len() implies !(#[trigger] t[j].1 <= v < sat(t[j].1 + t[j].3)) by {
            assert(t[j] == segs[j + 1]);
        }
        law_file_offset_unmapped(t, v);
    }
}

// ── Which bytes the reader depends on ────────────────────────────────────

/// The file range `(offset, length)` of the dynamic section: where the
/// segment table maps the last `PT_DYNAMIC` header's `p_vaddr`.
pub open spec fn dynamic_range(d: Seq<u8>) -> Option<(int, int)> {
    match last_dynamic(d, ph_stop(d, 0)) {
        Some((v, sz)) => match file_offset(segments(d), v) {
            Some(off) => Some((off as int, sz as int)),
            None => None,
        },
        None => None,
    }
}

/// The file range `(offset, length)` of the string table: where the segment
/// table maps the `DT_STRTAB` address that the dynamic section gives, with
/// its `DT_STRSZ` length.
pub open spec fn strtab_range(d: Seq<u8>) -> Option<(int, int)> {
    match dynamic_range(d) {
        Some((off, sz)) => {
            let b = read_at(d, off, sz);
            let m = dyn_stop(b, 0);
            match (last_tagged(b, 5, m), last_tagged(b, 10, m)) {
                (Some(sv), Some(ss)) => match file_offset(segments(d), sv) {
                    Some(so) => Some((so as int, ss as int)),
                    None => None,
                },
                _ => None,
            }
        },
        None => None,
    }
}

pub open spec fn in_range(p: int, r: Option<(int, int)>) -> bool {
    match r {
        Some((o, n)) => o <= p < o + n,
        None => false,
    }
}

/// Byte `p` of the file is one the reader looks at: in the ELF header, in
/// one of the program headers, in the dynamic section at its file offset,
/// or in the string table at its file offset.
pub open spec fn elf_read_byte(d: Seq<u8>, p: int) -> bool {
    ||| p < 64
    ||| exists|i: int|
        0 <= i < ph_num(d) && #[trigger] sat(ph_off(d) + sat(i * ph_entsize(d))) <= p < sat(
            ph_off(d) + sat(i * ph_entsize(d)),
        ) + 56
    ||| in_range(p, dynamic_range(d))
    ||| in_range(p, strtab_range(d))
}

proof fn lemma_read_at_frame(d: Seq<u8>, p: int, x: u8, off: int, len: int)
    requires
        0 <= p < d.len(),
        0 <= off,
        0 <= len,
        !(off <= p < off + len),
    ensures
        read_at(d.update(p, x), off, len) == read_at(d, off, len),
{
    assert(read_at(d.update(p, x), off, len) =~= read_at(d, off, len));
}

proof fn lemma_ph_stop_bound(d: Seq<u8>, i: int)
    requires
        0 <= i <= ph_num(d),
    ensures
        i <= ph_stop(d, i) <= ph_num(d),
    decreases ph_num(d) - i,
{
    if i < ph_num(d) && ph_at(d, i).len() >= 56 {
        lemma_ph_stop_bound(d, i + 1);
    }
}

proof fn lemma_ph_stop_same(d: Seq<u8>, e: Seq<u8>, i: int)
    requires
        0 <= i,
        ph_num(d) == ph_num(e),
        forall|k: int| 0 <= k < ph_num(d) ==> #[trigger] ph_at(d, k) == ph_at(e, k),
    ensures
        ph_stop(d, i) == ph_stop(e, i),
    decreases ph_num(d) - i,
{
    if i < ph_num(d) && ph_at(d, i).len() >= 56 {
        lemma_ph_stop_same(d, e, i + 1);
    }
}

proof fn lemma_last_dynamic_same(d: Seq<u8>, e: Seq<u8>, n: int)
    requires
        n <= ph_num(d),
        forall|k: int| 0 <= k < ph_num(d) ==> #[trigger] ph_at(d, k) == ph_at(e, k),
    ensures
        last_dynamic(d, n) == last_dynamic(e, n),
    decreases n,
{
    if n > 0 {
        assert(ph_at(d, n - 1) == ph_at(e, n - 1));
        lemma_last_dynamic_same(d, e, n - 1);
    }
}

/// The reader finds the dynamic section through the segment table: its
/// result depends only on the ELF header, the program headers, the bytes of
/// the dynamic section at the file offset that the `PT_LOAD` segments give
/// for `PT_DYNAMIC`'s `p_vaddr`, and the string table at the file offset
/// they give for `DT_STRTAB`. Changing any other byte of the file changes
/// nothing.
pub proof fn law_elf_needed_reads_mapped_bytes(d: Seq<u8>, p: int, x: u8)
    requires
        0 <= p < d.len(),
        !elf_read_byte(d, p),
    ensures
        elf_needed(d.update(p, x)) == elf_needed(d),
{
    let e = d.update(p, x);
    assert(header(e) =~= header(d));
    assert forall|k: int| 0 <= k < ph_num(d) implies #[trigger] ph_at(d, k) == ph_at(e, k) by {
        let st = sat(ph_off(d) + sat(k * ph_entsize(d)));
        assert(!(st <= p < st + 56));
        lemma_read_at_frame(d, p, x, st as int, 56);
    }
    lemma_ph_stop_same(d, e, 0);
    lemma_ph_stop_bound(d, 0);
    assert(segments(e) =~= segments(d));
    lemma_last_dynamic_same(d, e, ph_stop(d, 0));
    match dynamic_range(d) {
        Some((off, sz)) => {
            lemma_read_at_frame(d, p, x, off, sz);
            match strtab_range(d) {
                Some((so, ss)) => {
                    lemma_read_at_frame(d, p, x, so, ss);
                },
                None => {},
            }
        },
        None => {},
    }
}

/// What the reader returns for an ELF64 file with program headers: when
/// the segment table locates both the dynamic section and the string
/// table, the names found in that string table at the offsets of the
/// dynamic section's `DT_NEEDED` entries, in order; otherwise nothing.
pub proof fn law_elf_needed_from_mapped_sections(d: Seq<u8>)
    requires
        is_elf64(d),
        ph_entsize(d) != 0,
        ph_num(d) != 0,
    ensures
        match (dynamic_range(d), strtab_range(d)) {
            (Some((off, sz)), Some((so, ss))) => {
                let b = read_at(d, off, sz);
                elf_needed(d) == names_at(read_at(d, so, ss), needed_offsets(b, dyn_stop(b, 0)))
            },
            _ => elf_needed(d) == Seq::<Seq<char>>::empty(),
        },
{
}

pub open spec fn strings_view(v: Seq<String>) -> Seq<Seq<char>> {
    v.map_values(|s: String| s@)
}

fn name_from(strtab: &[u8], off: u64) -> (r: Option<String>)
    ensures
        match r {
            Some(s) => name_at(strtab@, off) == Some(s@),
            None => name_at(strtab@, off) is None,
        },
{
    if off >= strtab.len() as u64 {
        return None;
    }
    let o = off as usize;
    let rest = slice_subrange(strtab, o, strtab.len());
    assert(rest@ =~= strtab@.skip(off as int));
    let mut e: usize = 0;
    while e < rest.len() && rest[e] != 0
        invariant
            e <= rest.len(),
            forall|f: int| 0 <= f < e ==> rest@[f] != 0,
        decreases rest.len() - e,
    {
        e = e + 1;
    }
    proof {
        if exists|x: int| 0 <= x < rest@.len() && rest@[x] == 0 {
            let c = choose|x: int| 0 <= x < rest@.len() && rest@[x] == 0 && forall|f: int| 0 <= f < x ==> rest@[f] != 0;
            assert(e < rest.len()) by {
                if e == rest.len() {
                    let w = choose|x: int| 0 <= x < rest@.len() && rest@[x] == 0;
                    assert(rest@[w] != 0);
                }
            }
            assert(c == e) by {
                if c < e {
                    assert(rest@[c] != 0);
                } else if e < c {
                    assert(rest@[e as int] != 0);
                }
            }
        } else {
            assert(e == rest.len());
        }
    }
    if e < 4 {
        return None;
    }
    let bytes = slice_subrange(rest, 0, e);
    assert(bytes@ =~= rest@.take(e as int));
    utf8_to_string(bytes)
}

/// Read the `DT_NEEDED` library list of an ELF64 file from its contents.
/// Returns an empty list for non-ELF, non-ELFCLASS64 or statically linked
/// files.
pub fn read_elf_needed(d: &[u8]) -> (r: Vec<String>)
    ensures
        strings_view(r@) == elf_needed(d@),
{
    let h = read_range(d, 0, 64);
    if h.len() < 64 || h[0] != 0x7f || h[1] != 0x45 || h[2] != 0x4c || h[3] != 0x46 || h[4] != 2 {
        return Vec::new();
    }
    let phoff = get_u64(h, 32);
    let phentsize = get_u16(h, 54);
    let phnum = get_u16(h, 56);
    if phentsize == 0 || phnum == 0 {
        return Vec::new();
    }
    let mut segs: Vec<(u64, u64, u64, u64)> = Vec::new();
    let mut dynamic: Option<(u64, u64)> = None;
    let mut i: u64 = 0;
    let mut short = false;
    while i < phnum as u64 && !short
        invariant
            is_elf64(d@),
            h@ == header(d@),
            phoff == ph_off(d@),
            phentsize == ph_entsize(d@),
            phnum == ph_num(d@),
            i <= phnum,
            short ==> ph_at(d@, i as int).len() < 56 && i < phnum,
            ph_stop(d@, 0) == ph_stop(d@, i as int),
            segs@ == Seq::new(i as nat, |k: int| segment_of(ph_at(d@, k))),
            dynamic == last_dynamic(d@, i as int),
        decreases phnum - i + (if short { 0int } else { 1int }),
    {
        let ph = read_range(d, sat_add(phoff, sat_mul(i, phentsize as u64)), 56);
        assert(ph@ == ph_at(d@, i as int));
        if ph.len() < 56 {
            short = true;
        } else {
            let p_type = get_u32(ph, 0);
            let p_offset = get_u64(ph, 8);
            let p_vaddr = get_u64(ph, 16);
            let p_filesz = get_u64(ph, 32);
            let p_memsz = get_u64(ph, 40);
            segs.push((p_offset, p_vaddr, p_filesz, p_memsz));
            if p_type == 2 {
                dynamic = Some((p_vaddr, p_filesz));
            }
            i = i + 1;
            assert(segs@ =~= Seq::new(i as nat, |k: int| segment_of(ph_at(d@, k))));
        }
    }
    assert(ph_stop(d@, i as int) == i);
    assert(segs@ =~= segments(d@));
    let (dyn_vaddr, dyn_size) = match dynamic {
        Some(p) => p,
        None => {
            return Vec::new();
        },
    };
    let dyn_off = match vaddr_to_file_offset(&segs, dyn_vaddr) {
        Some(off) => off,
        None => {
            return Vec::new();
        },
    };
    let b = read_range(d, dyn_off, dyn_size);
    let mut needed: Vec<u64> = Vec::new();
    let mut strtab_vaddr: Option<u64> = None;
    let mut strtab_size: Option<u64> = None;
    let mut j: usize = 0;
    let mut done = false;
    while !done && b.len() - j >= 16
        invariant
            j <= b.len(),
            j % 16 == 0,
            done ==> dyn_tag(b@, (j / 16) as int) == 0 && j + 16 <= b.len(),
            dyn_stop(b@, 0) == dyn_stop(b@, (j / 16) as int),
            needed@ == needed_offsets(b@, (j / 16) as int),
            strtab_vaddr == last_tagged(b@, 5, (j / 16) as int),
            strtab_size == last_tagged(b@, 10, (j / 16) as int),
        decreases b.len() - j + (if done { 0int } else { 1int }),
    {
        let tag = get_u64(b, j);
        let val = get_u64(b, j + 8);
        assert(tag == dyn_tag(b@, (j / 16) as int));
        assert(val == dyn_val(b@, (j / 16) as int));
        if tag == 0 {
            done = true;
        } else {
            if tag == 1 {
                needed.push(val);
            } else if tag == 5 {
                strtab_vaddr = Some(val);
            } else if tag == 10 {
                strtab_size = Some(val);
            }
            j = j + 16;
            assert((j / 16) as int == (j - 16) / 16 + 1);
        }
    }
    let m = j / 16;
    assert(dyn_stop(b@, m as int) == m);
    let (str_vaddr, str_size) = match (strtab_vaddr, strtab_size) {
        (Some(v), Some(s)) => (v, s),
        _ => {
            return Vec::new();
        },
    };
    let str_off = match vaddr_to_file_offset(&segs, str_vaddr) {
        Some(off) => off,
        None => {
            return Vec::new();
        },
    };
    let strtab = read_range(d, str_off, str_size);
    let mut result: Vec<String> = Vec::new();
    let mut k: usize = 0;
    while k < needed.len()
        invariant
            k <= needed.len(),
            strings_view(result@) == names_at(strtab@, needed@.take(k as int)),
        decreases needed.len() - k,
    {
        let name = name_from(strtab, needed[k]);
        assert(needed@.take(k + 1).drop_last() =~= needed@.take(k as int));
        match name {
            Some(n) => {
                result.push(n);
                assert(strings_view(result@) =~= strings_view(result@.drop_last()).push(
                    result@.last()@,
                ));
            },
            None => {},
        }
        k = k + 1;
    }
    assert(needed@.take(needed.len() as int) =~= needed@);
    result
}

/// The first four bytes of a file are the ELF magic (`\x7fELF`).
pub fn is_elf(head: &[u8]) -> (r: bool)
    ensures
        r == (head@.len() >= 4 && head@[0] == 0x7fu8 && head@[1] == 0x45u8 && head@[2] == 0x4cu8 && head@[3] == 0x46u8),
{
    head.len() >= 4 && head[0] == 0x7fu8 && head[1] == 0x45u8 && head[2] == 0x4cu8 && head[3] == 0x46u8
}

} // verus!
