//! Patching of a 32-bit PE image so that it loads on older Windows:
//! little-endian field access, RVA translation through the section table,
//! export lookup, and the rewriting of delay-load import tables.
//!
//! A malformed image (a field or table that lies outside the file, an
//! address that overflows 32 bits) stops the patch: each function here
//! returns `Err(PeFault)` exactly there, and the spec functions return
//! `None` there.

use vstd::prelude::*;
use vstd::string::StringSliceAdditionalSpecFns;
use object::Object;

verus! {

/// The image is malformed in a way that makes the patcher abort.
#[derive(Debug, Clone, Copy, PartialEq, Eq)]
pub struct PeFault;

/// Little-endian 16-bit value at `off`.
pub open spec fn u16_le(d: Seq<u8>, off: int) -> int {
    d[off] as int + 256 * d[off + 1] as int
}

/// Little-endian 32-bit value at `off`.
pub open spec fn u32_le(d: Seq<u8>, off: int) -> int {
    d[off] as int + 256 * d[off + 1] as int + 65536 * d[off + 2] as int + 16777216 * d[off
        + 3] as int
}

/// `d` with the four little-endian bytes of `v` written at `off`.
pub open spec fn put_u32(d: Seq<u8>, off: int, v: u32) -> Seq<u8> {
    d.update(off, (v % 256) as u8).update(off + 1, ((v / 256) % 256) as u8).update(
        off + 2,
        ((v / 65536) % 256) as u8,
    ).update(off + 3, (v / 16777216) as u8)
}

/// Reads the little-endian `u32` at `off`.
pub fn read_u32(data: &[u8], off: usize) -> (r: u32)
    requires
        off + 4 <= data@.len(),
    ensures
        r == u32_le(data@, off as int),
{
    let b0 = data[off] as u32;
    let b1 = data[off + 1] as u32;
    let b2 = data[off + 2] as u32;
    let b3 = data[off + 3] as u32;
    b0 + 256 * b1 + 65536 * b2 + 16777216 * b3
}

/// Writes `val` as four little-endian bytes at `off`.
pub fn write_u32(data: &mut Vec<u8>, off: usize, val: u32)
    requires
        off + 4 <= old(data)@.len(),
    ensures
        final(data)@ == put_u32(old(data)@, off as int, val),
{
    let n = data.len();
    assert(off + 4 <= n);
    data.set(off, (val % 256) as u8);
    data.set(off + 1, ((val / 256) % 256) as u8);
    data.set(off + 2, ((val / 65536) % 256) as u8);
    data.set(off + 3, (val / 16777216) as u8);
}

/// Reading back a field that was just written gives the written value, and
/// every other byte is left as it was.
pub proof fn law_read_after_write(d: Seq<u8>, off: int, v: u32)
    requires
        0 <= off,
        off + 4 <= d.len(),
    ensures
        put_u32(d, off, v).len() == d.len(),
        u32_le(put_u32(d, off, v), off) == v,
        forall|i: int| 0 <= i < d.len() && !(off <= i < off + 4) ==> put_u32(d, off, v)[i] == d[i],
{
    let w = put_u32(d, off, v);
    assert(w[off] == (v % 256) as u8);
    assert(w[off + 1] == ((v / 256) % 256) as u8);
    assert(w[off + 2] == ((v / 65536) % 256) as u8);
    assert(w[off + 3] == (v / 16777216) as u8);
    assert((v % 256) as int + 256 * ((v / 256) % 256) as int + 65536 * ((v / 65536) % 256) as int
        + 16777216 * (v / 16777216) as int == v as int) by (nonlinear_arith);
}

// ── Checksum field ────────────────────────────────────────────────────────

/// Offset of the optional header's CheckSum field, if the image carries a PE
/// signature where its DOS header says.
pub open spec fn checksum_offset(d: Seq<u8>) -> Option<int> {
    if d.len() < 0x40 {
        None
    } else {
        let e = u32_le(d, 0x3C);
        if e + 4 <= d.len() && d.subrange(e, e + 4) == seq![0x50u8, 0x45u8, 0u8, 0u8] {
            Some(e + 88)
        } else {
            None
        }
    }
}

/// Returns the file offset of IMAGE_OPTIONAL_HEADER32.CheckSum: 88 bytes past
/// the PE signature that `e_lfanew` points to.
pub fn pe_checksum_offset(data: &[u8]) -> (r: Option<u64>)
    ensures
        r matches Some(o) ==> checksum_offset(data@) == Some(o as int),
        r is None ==> checksum_offset(data@) is None,
{
    if data.len() < 0x40 {
        return None;
    }
    let e = read_u32(data, 0x3C) as u64;
    if e + 4 > data.len() as u64 {
        return None;
    }
    let i = e as usize;
    if data[i] == 0x50 && data[i + 1] == 0x45 && data[i + 2] == 0 && data[i + 3] == 0 {
        assert(data@.subrange(e as int, e + 4) =~= seq![0x50u8, 0x45u8, 0u8, 0u8]);
        Some(e + 88)
    } else {
        assert(data@.subrange(e as int, e + 4) != seq![0x50u8, 0x45u8, 0u8, 0u8]) by {
            if data@.subrange(e as int, e + 4) == seq![0x50u8, 0x45u8, 0u8, 0u8] {
                assert(data@.subrange(e as int, e + 4)[0] == data@[e as int]);
                assert(data@.subrange(e as int, e + 4)[1] == data@[e + 1]);
                assert(data@.subrange(e as int, e + 4)[2] == data@[e + 2]);
                assert(data@.subrange(e as int, e + 4)[3] == data@[e + 3]);
            }
        }
        None
    }
}

// ── RVA translation ──────────────────────────────────────────────────────

/// The size a section covers: its VirtualSize (header offset 8), or its
/// SizeOfRawData (offset 16) where the VirtualSize is 0.
pub open spec fn section_size(d: Seq<u8>, sh: int) -> int {
    if u32_le(d, sh + 8) != 0 {
        u32_le(d, sh + 8)
    } else {
        u32_le(d, sh + 16)
    }
}

/// Scan of the section table from section `i` on: the first section whose
/// range `[VirtualAddress, VirtualAddress + size)` holds `rva` gives the
/// file offset `rva - VirtualAddress + PointerToRawData`. `None` where the
/// scan aborts, `Some(None)` where no section covers `rva`.
pub open spec fn section_scan(d: Seq<u8>, rva: int, sec_base: int, num_sec: int, i: int) -> Option<
    Option<int>,
>
    decreases num_sec - i,
{
    if i < 0 || i >= num_sec {
        Some(None)
    } else {
        let sh = sec_base + i * 40;
        if sh + 24 > d.len() {
            None
        } else {
            let va = u32_le(d, sh + 12);
            let vsz = section_size(d, sh);
            let raw = u32_le(d, sh + 20);
            if rva >= va {
                if va + vsz > u32::MAX {
                    None
                } else if rva < va + vsz {
                    if rva - va + raw > u32::MAX {
                        None
                    } else {
                        Some(Some(rva - va + raw))
                    }
                } else {
                    section_scan(d, rva, sec_base, num_sec, i + 1)
                }
            } else {
                section_scan(d, rva, sec_base, num_sec, i + 1)
            }
        }
    }
}

/// File offset of `rva` by the section table: `None` where the translation
/// aborts, `Some(None)` where no section covers it.
pub open spec fn rva_offset(d: Seq<u8>, rva: int) -> Option<Option<int>> {
    if d.len() < 0x40 {
        None
    } else {
        let e = u32_le(d, 0x3C);
        if e + 22 > d.len() {
            None
        } else {
            section_scan(d, rva, e + 24 + u16_le(d, e + 20), u16_le(d, e + 6), 0)
        }
    }
}

/// Reads the little-endian `u32` at `off`, failing where the read would run
/// past the end of the image.
pub fn read_u32_at(data: &[u8], off: u64) -> (r: Result<u32, PeFault>)
    ensures
        r matches Ok(v) ==> off + 4 <= data@.len() && v == u32_le(data@, off as int),
        r is Err ==> off + 4 > data@.len(),
{
    if off > data.len() as u64 || data.len() as u64 - off < 4 {
        return Err(PeFault);
    }
    Ok(read_u32(data, off as usize))
}

/// Reads the little-endian `u16` at `off`, failing where the read would run
/// past the end of the image.
pub fn read_u16_at(data: &[u8], off: u64) -> (r: Result<u16, PeFault>)
    ensures
        r matches Ok(v) ==> off + 2 <= data@.len() && v == u16_le(data@, off as int),
        r is Err ==> off + 2 > data@.len(),
{
    if off > data.len() as u64 || data.len() as u64 - off < 2 {
        return Err(PeFault);
    }
    let o = off as usize;
    Ok(data[o] as u16 + 256 * data[o + 1] as u16)
}

/// Converts an RVA to a file offset using the section table.
pub fn rva_to_off(data: &[u8], rva: u32) -> (r: Result<Option<u64>, PeFault>)
    ensures
        r matches Ok(o) ==> rva_offset(data@, rva as int) == Some(
            match o {
                Some(x) => Some(x as int),
                None => None::<int>,
            },
        ),
        r matches Ok(Some(x)) ==> x <= u32::MAX,
        r is Err ==> rva_offset(data@, rva as int) is None,
{
    let e = read_u32_at(data, 0x3C)? as u64;
    if e + 22 > data.len() as u64 {
        return Err(PeFault);
    }
    let opt_size = read_u16_at(data, e + 20)? as u64;
    let num_sec = read_u16_at(data, e + 6)? as u64;
    let sec_base = e + 4 + 20 + opt_size;
    let mut i: u64 = 0;
    while i < num_sec
        invariant
            num_sec == u16_le(data@, e + 6),
            sec_base == e + 24 + u16_le(data@, e + 20),
            e == u32_le(data@, 0x3C),
            e + 22 <= data@.len(),
            data@.len() >= 0x40,
            num_sec < 65536,
            opt_size < 65536,
            e < 0x1_0000_0000,
            i <= num_sec,
            rva_offset(data@, rva as int) == section_scan(
                data@,
                rva as int,
                sec_base as int,
                num_sec as int,
                i as int,
            ),
        decreases num_sec - i,
    {
        let sh = sec_base + i * 40;
        if sh + 24 > data.len() as u64 {
            return Err(PeFault);
        }
        let va = read_u32_at(data, sh + 12)?;
        let virtual_size = read_u32_at(data, sh + 8)?;
        let vsz = if virtual_size != 0 {
            virtual_size
        } else {
            read_u32_at(data, sh + 16)?
        };
        let raw = read_u32_at(data, sh + 20)?;
        if rva >= va {
            if va as u64 + vsz as u64 > u32::MAX as u64 {
                return Err(PeFault);
            }
            if rva < va + vsz {
                if (rva - va) as u64 + raw as u64 > u32::MAX as u64 {
                    return Err(PeFault);
                }
                return Ok(Some((rva - va + raw) as u64));
            }
        }
        i += 1;
    }
    Ok(None)
}

// ── Export lookup ─────────────────────────────────────────────────────────

/// `d` holds `target` followed by a NUL at `off`.
pub open spec fn nul_terminated_at(d: Seq<u8>, off: int, target: Seq<u8>) -> bool {
    off + target.len() + 1 <= d.len() && d.subrange(off, off + target.len()) == target && d[off
        + target.len()] == 0
}

/// Walk of the export name table from entry `i` on.
pub open spec fn export_scan(
    d: Seq<u8>,
    target: Seq<u8>,
    image_base: int,
    funcs_off: int,
    names_off: int,
    ords_off: int,
    num_names: int,
    i: int,
) -> Option<Option<u32>>
    decreases num_names - i,
{
    if i < 0 || i >= num_names {
        Some(None)
    } else if names_off + i * 4 + 4 > d.len() {
        None
    } else {
        match rva_offset(d, u32_le(d, names_off + i * 4)) {
            None => None,
            Some(None) => Some(None),
            Some(Some(name_off)) => {
                if name_off + target.len() + 1 > d.len() {
                    export_scan(d, target, image_base, funcs_off, names_off, ords_off, num_names, i + 1)
                } else if nul_terminated_at(d, name_off, target) {
                    if ords_off + i * 2 + 2 > d.len() {
                        None
                    } else {
                        let ord = u16_le(d, ords_off + i * 2);
                        if funcs_off + ord * 4 + 4 > d.len() {
                            None
                        } else if image_base + u32_le(d, funcs_off + ord * 4) > u32::MAX {
                            None
                        } else {
                            Some(Some((image_base + u32_le(d, funcs_off + ord * 4)) as u32))
                        }
                    }
                } else {
                    export_scan(d, target, image_base, funcs_off, names_off, ords_off, num_names, i + 1)
                }
            },
        }
    }
}

/// Offset of the field `rel` bytes past the start of the PE signature.
pub open spec fn pe_field(d: Seq<u8>, rel: int) -> int {
    u32_le(d, 0x3C) + rel
}

/// The export table lookup of `target`: image base plus the function's RVA.
pub open spec fn export_va(d: Seq<u8>, target: Seq<u8>) -> Option<Option<u32>> {
    if d.len() < 0x40 || pe_field(d, 124) > d.len() {
        None
    } else {
        let image_base = u32_le(d, pe_field(d, 52));
        let exp_rva = u32_le(d, pe_field(d, 120));
        if exp_rva == 0 {
            Some(None)
        } else {
            match rva_offset(d, exp_rva) {
                None => None,
                Some(None) => Some(None),
                Some(Some(exp_off)) => {
                    if exp_off + 28 > d.len() {
                        None
                    } else {
                        let num_names = u32_le(d, exp_off + 24);
                        if exp_off + 32 > d.len() {
                            None
                        } else {
                            match rva_offset(d, u32_le(d, exp_off + 28)) {
                                None => None,
                                Some(None) => Some(None),
                                Some(Some(funcs_off)) => {
                                    if exp_off + 36 > d.len() {
                                        None
                                    } else {
                                        match rva_offset(d, u32_le(d, exp_off + 32)) {
                                            None => None,
                                            Some(None) => Some(None),
                                            Some(Some(names_off)) => {
                                                if exp_off + 40 > d.len() {
                                                    None
                                                } else {
                                                    match rva_offset(d, u32_le(d, exp_off + 36)) {
                                                        None => None,
                                                        Some(None) => Some(None),
                                                        Some(Some(ords_off)) => export_scan(
                                                            d,
                                                            target,
                                                            image_base,
                                                            funcs_off,
                                                            names_off,
                                                            ords_off,
                                                            num_names,
                                                            0,
                                                        ),
                                                    }
                                                }
                                            },
                                        }
                                    }
                                },
                            }
                        }
                    }
                },
            }
        }
    }
}

/// The file offset an RVA field of the image points to, or -1 where the
/// section table maps it nowhere.
pub open spec fn mapped(d: Seq<u8>, rva: int) -> int {
    match rva_offset(d, rva) {
        Some(Some(o)) => o,
        _ => -1,
    }
}

/// The file offset of the export directory.
pub open spec fn export_dir(d: Seq<u8>) -> int {
    mapped(d, u32_le(d, pe_field(d, 120)))
}

/// The file offset of the export directory's table whose RVA stands `at`
/// bytes into the directory (28: addresses, 32: names, 36: ordinals).
pub open spec fn export_table(d: Seq<u8>, at: int) -> int {
    mapped(d, u32_le(d, export_dir(d) + at))
}

proof fn lemma_export_scan_va(
    d: Seq<u8>,
    target: Seq<u8>,
    image_base: int,
    funcs_off: int,
    names_off: int,
    ords_off: int,
    num_names: int,
    i: int,
    va: u32,
)
    requires
        export_scan(d, target, image_base, funcs_off, names_off, ords_off, num_names, i) == Some(Some(va)),
        0 <= image_base,
    ensures
        exists|k: int|
            i <= k < num_names && nul_terminated_at(d, mapped(d, u32_le(d, names_off + k * 4)), target) && va
                == image_base + u32_le(d, funcs_off + 4 * #[trigger] u16_le(d, ords_off + k * 2)),
    decreases num_names - i,
{
    if 0 <= i < num_names && names_off + i * 4 + 4 <= d.len() {
        match rva_offset(d, u32_le(d, names_off + i * 4)) {
            Some(Some(name_off)) => {
                if name_off + target.len() + 1 > d.len() || !nul_terminated_at(d, name_off, target) {
                    lemma_export_scan_va(d, target, image_base, funcs_off, names_off, ords_off, num_names, i + 1, va);
                } else {
                    let x = u32_le(d, funcs_off + u16_le(d, ords_off + i * 2) * 4);
                    assert(u16_le(d, ords_off + i * 2) * 4 == 4 * u16_le(d, ords_off + i * 2));
                    assert(0 <= x);
                    assert(va == image_base + x);
                    assert(mapped(d, u32_le(d, names_off + i * 4)) == name_off);
                    assert(i <= i < num_names && nul_terminated_at(d, mapped(d, u32_le(d, names_off + i * 4)), target)
                        && va == image_base + u32_le(d, funcs_off + 4 * u16_le(d, ords_off + i * 2)));
                }
            },
            _ => {},
        }
    }
}

/// An exported address is the image base (the optional header's ImageBase)
/// plus the address-table RVA at the ordinal listed beside a name-table entry
/// that names `target`.
pub proof fn law_export_va_is_base_plus_rva(d: Seq<u8>, target: Seq<u8>, va: u32)
    requires
        export_va(d, target) == Some(Some(va)),
    ensures
        exists|k: int|
            0 <= k < u32_le(d, export_dir(d) + 24) && nul_terminated_at(
                d,
                mapped(d, u32_le(d, export_table(d, 32) + k * 4)),
                target,
            ) && va == u32_le(d, pe_field(d, 52)) + u32_le(
                d,
                export_table(d, 28) + 4 * #[trigger] u16_le(d, export_table(d, 36) + k * 2),
            ),
{
    let eo = export_dir(d);
    let exp_rva = u32_le(d, pe_field(d, 120));
    assert(exp_rva != 0);
    assert(rva_offset(d, exp_rva) is Some && rva_offset(d, exp_rva)->0 is Some);
    assert(rva_offset(d, exp_rva) == Some(Some(eo)));
    assert(rva_offset(d, u32_le(d, eo + 28)) == Some(Some(export_table(d, 28))));
    assert(rva_offset(d, u32_le(d, eo + 32)) == Some(Some(export_table(d, 32))));
    assert(rva_offset(d, u32_le(d, eo + 36)) == Some(Some(export_table(d, 36))));
    assert(0 <= u32_le(d, pe_field(d, 52)));
    lemma_export_scan_va(
        d,
        target,
        u32_le(d, pe_field(d, 52)),
        export_table(d, 28),
        export_table(d, 32),
        export_table(d, 36),
        u32_le(d, eo + 24),
        0,
        va,
    );
}

/// `data` holds `target` at `off`.
pub fn bytes_eq_at(data: &[u8], off: u64, target: &[u8]) -> (r: bool)
    requires
        off + target@.len() <= data@.len(),
    ensures
        r == (data@.subrange(off as int, off + target@.len()) == target@),
{
    let n = data.len();
    let o = off as usize;
    let mut k: usize = 0;
    while k < target.len()
        invariant
            o == off,
            n == data@.len(),
            off + target@.len() <= data@.len(),
            k <= target@.len(),
            forall|t: int| 0 <= t < k ==> data@[off + t] == target@[t],
        decreases target.len() - k,
    {
        if data[o + k] != target[k] {
            assert(data@.subrange(off as int, off + target@.len())[k as int] != target@[k as int]);
            return false;
        }
        k += 1;
    }
    assert(data@.subrange(off as int, off + target@.len()) =~= target@);
    true
}

/// Reads the image's export table and returns the VA (image base + RVA) of
/// the function exported under `target`.
pub fn find_export_va(data: &[u8], target: &[u8]) -> (r: Result<Option<u32>, PeFault>)
    ensures
        r matches Ok(v) ==> export_va(data@, target@) == Some(v),
        r is Err ==> export_va(data@, target@) is None,
{
    let e = read_u32_at(data, 0x3C)? as u64;
    if e + 124 > data.len() as u64 {
        return Err(PeFault);
    }
    let image_base = read_u32_at(data, e + 24 + 28)?;
    let opt_off = e + 24;
    let exp_rva = read_u32_at(data, opt_off + 96)?;
    if exp_rva == 0 {
        return Ok(None);
    }
    let exp_off = match rva_to_off(data, exp_rva)? {
        Some(o) => o,
        None => return Ok(None),
    };
    let num_names = read_u32_at(data, exp_off + 24)? as u64;
    let funcs_rva = read_u32_at(data, exp_off + 28)?;
    let funcs_off = match rva_to_off(data, funcs_rva)? {
        Some(o) => o,
        None => return Ok(None),
    };
    let names_rva = read_u32_at(data, exp_off + 32)?;
    let names_off = match rva_to_off(data, names_rva)? {
        Some(o) => o,
        None => return Ok(None),
    };
    let ords_rva = read_u32_at(data, exp_off + 36)?;
    let ords_off = match rva_to_off(data, ords_rva)? {
        Some(o) => o,
        None => return Ok(None),
    };
    let mut i: u64 = 0;
    while i < num_names
        invariant
            i <= num_names,
            num_names <= u32::MAX,
            funcs_off <= u32::MAX,
            names_off <= u32::MAX,
            ords_off <= u32::MAX,
            export_va(data@, target@) == export_scan(
                data@,
                target@,
                image_base as int,
                funcs_off as int,
                names_off as int,
                ords_off as int,
                num_names as int,
                i as int,
            ),
        decreases num_names - i,
    {
        let name_rva = read_u32_at(data, names_off + i * 4)?;
        let name_off = match rva_to_off(data, name_rva)? {
            Some(o) => o,
            None => return Ok(None),
        };
        let len = target.len() as u64;
        if len >= data.len() as u64 || name_off > data.len() as u64 - len - 1 {
            i += 1;
            continue;
        }
        if bytes_eq_at(data, name_off, target) && data[(name_off + len) as usize] == 0 {
            let ord = read_u16_at(data, ords_off + i * 2)? as u64;
            let rva = read_u32_at(data, funcs_off + ord * 4)?;
            if image_base as u64 + rva as u64 > u32::MAX as u64 {
                return Err(PeFault);
            }
            return Ok(Some(image_base + rva));
        }
        i += 1;
    }
    Ok(None)
}

// ── Delay-load directory ──────────────────────────────────────────────────

/// ASCII lower-casing of one byte.
pub open spec fn ascii_lower(b: u8) -> u8 {
    if 65 <= b && b <= 90 {
        (b + 32) as u8
    } else {
        b
    }
}

/// `a` and `b` are equal up to ASCII case.
pub open spec fn eq_ignore_ascii_case(a: Seq<u8>, b: Seq<u8>) -> bool {
    a.len() == b.len() && forall|i: int| 0 <= i < a.len() ==> ascii_lower(a[i]) == ascii_lower(b[i])
}

/// `d` holds `name`, in any ASCII case, followed by a NUL at `off`.
pub open spec fn dll_name_at(d: Seq<u8>, off: int, name: Seq<u8>) -> bool {
    off + name.len() + 1 <= d.len() && eq_ignore_ascii_case(d.subrange(off, off + name.len()), name)
        && d[off + name.len()] == 0
}

/// The delay-import directory as (file offset, number of 32-byte
/// descriptors); `Some(None)` where the image has none or it is unmapped.
pub open spec fn delay_directory(d: Seq<u8>) -> Option<Option<(int, int)>> {
    if d.len() < 0x40 || pe_field(d, 232) > d.len() {
        None
    } else {
        let dir_rva = u32_le(d, pe_field(d, 224));
        let dir_size = u32_le(d, pe_field(d, 228));
        if dir_rva == 0 || dir_size == 0 {
            Some(None)
        } else {
            match rva_offset(d, dir_rva) {
                None => None,
                Some(None) => Some(None),
                Some(Some(off)) => Some(Some((off, dir_size / 32))),
            }
        }
    }
}

/// Index of the first API whose NUL-terminated name stands at `off`.
pub open spec fn api_at(d: Seq<u8>, off: int, apis: Seq<Seq<u8>>, k: int) -> Option<int>
    decreases apis.len() - k,
{
    if k < 0 || k >= apis.len() {
        None
    } else if nul_terminated_at(d, off, apis[k]) {
        Some(k)
    } else {
        api_at(d, off, apis, k + 1)
    }
}

/// One INT entry: import by name (no ordinal flag).
pub open spec fn by_name(entry: int) -> bool {
    entry < 0x8000_0000
}

/// Walk of a delay-load INT from entry `idx` on, writing the shim address
/// into the IAT slot of every entry that names one of `apis`.  The result is
/// the patched image and the number of entries that name an API.
pub open spec fn iat_walk(
    d: Seq<u8>,
    int_off: int,
    iat_base: int,
    apis: Seq<Seq<u8>>,
    vas: Seq<u32>,
    idx: int,
    patched: int,
) -> Option<(Seq<u8>, int)>
    decreases d.len() + 1 - (int_off + idx * 4),
{
    let p = int_off + idx * 4;
    if idx < 0 || p < 0 || p + 4 > d.len() {
        None
    } else {
        let entry = u32_le(d, p);
        if entry == 0 {
            Some((d, patched))
        } else if !by_name(entry) {
            iat_walk(d, int_off, iat_base, apis, vas, idx + 1, patched)
        } else {
            match rva_offset(d, entry) {
                None => None,
                Some(None) => iat_walk(d, int_off, iat_base, apis, vas, idx + 1, patched),
                Some(Some(ibn)) => match api_at(d, ibn + 2, apis, 0) {
                    None => iat_walk(d, int_off, iat_base, apis, vas, idx + 1, patched),
                    Some(k) => {
                        let slot = iat_base + idx * 4;
                        if slot < 0 || slot + 4 > d.len() {
                            None
                        } else {
                            let d2 = if u32_le(d, slot) == vas[k] as int {
                                d
                            } else {
                                put_u32(d, slot, vas[k])
                            };
                            proof {
                                assert(put_u32(d, slot, vas[k]).len() == d.len());
                            }
                            iat_walk(d2, int_off, iat_base, apis, vas, idx + 1, patched + 1)
                        }
                    },
                },
            }
        }
    }
}

/// Scan of the delay-load descriptors from `i` on for the one of `dll`,
/// whose INT is then walked.  The flag says whether any entry was patched.
pub open spec fn iat_descriptor_scan(
    d: Seq<u8>,
    dir_off: int,
    num: int,
    i: int,
    dll: Seq<u8>,
    apis: Seq<Seq<u8>>,
    vas: Seq<u32>,
) -> Option<(bool, Seq<u8>)>
    decreases num - i,
{
    if i < 0 || i >= num {
        Some((false, d))
    } else {
        let p = dir_off + i * 32;
        if p + 8 > d.len() {
            None
        } else {
            let name_rva = u32_le(d, p + 4);
            if name_rva == 0 {
                Some((false, d))
            } else {
                match rva_offset(d, name_rva) {
                    None => None,
                    Some(None) => iat_descriptor_scan(d, dir_off, num, i + 1, dll, apis, vas),
                    Some(Some(name_off)) => {
                        if !dll_name_at(d, name_off, dll) {
                            iat_descriptor_scan(d, dir_off, num, i + 1, dll, apis, vas)
                        } else if p + 20 > d.len() {
                            None
                        } else {
                            match rva_offset(d, u32_le(d, p + 16)) {
                                None => None,
                                Some(None) => Some((false, d)),
                                Some(Some(int_off)) => match rva_offset(d, u32_le(d, p + 12)) {
                                    None => None,
                                    Some(None) => Some((false, d)),
                                    Some(Some(iat_base)) => match iat_walk(
                                        d,
                                        int_off,
                                        iat_base,
                                        apis,
                                        vas,
                                        0,
                                        0,
                                    ) {
                                        None => None,
                                        Some((d2, n)) => Some((n > 0, d2)),
                                    },
                                },
                            }
                        }
                    },
                }
            }
        }
    }
}

/// The exported addresses of `shims` from entry `k` on; `Some(None)` at the
/// first one that is not exported.
pub open spec fn shim_addresses(d: Seq<u8>, shims: Seq<Seq<u8>>, k: int) -> Option<Option<Seq<u32>>>
    decreases shims.len() - k,
{
    if k < 0 || k >= shims.len() {
        Some(Some(Seq::empty()))
    } else {
        match export_va(d, shims[k]) {
            None => None,
            Some(None) => Some(None),
            Some(Some(va)) => match shim_addresses(d, shims, k + 1) {
                None => None,
                Some(None) => Some(None),
                Some(Some(rest)) => Some(Some(seq![va] + rest)),
            },
        }
    }
}

/// Redirection of the delay-load IAT slots of `dll` that import one of
/// `apis` to the exported shim of the same position in `shims`.
pub open spec fn delay_iat_patch(d: Seq<u8>, dll: Seq<u8>, apis: Seq<Seq<u8>>, shims: Seq<Seq<u8>>) -> Option<(bool, Seq<u8>)> {
    match shim_addresses(d, shims, 0) {
        None => None,
        Some(None) => Some((false, d)),
        Some(Some(vas)) => match delay_directory(d) {
            None => None,
            Some(None) => Some((false, d)),
            Some(Some((dir_off, num))) => iat_descriptor_scan(d, dir_off, num, 0, dll, apis, vas),
        },
    }
}

pub open spec fn byte_seqs(v: Seq<Vec<u8>>) -> Seq<Seq<u8>> {
    v.map_values(|x: Vec<u8>| x@)
}

proof fn lemma_shim_addresses_len(d: Seq<u8>, shims: Seq<Seq<u8>>, k: int)
    requires
        0 <= k <= shims.len(),
    ensures
        shim_addresses(d, shims, k) matches Some(Some(v)) ==> v.len() == shims.len() - k,
    decreases shims.len() - k,
{
    if k < shims.len() {
        lemma_shim_addresses_len(d, shims, k + 1);
    }
}

fn shim_vas(data: &[u8], shims: &Vec<Vec<u8>>) -> (r: Result<Option<Vec<u32>>, PeFault>)
    ensures
        r matches Ok(Some(v)) ==> shim_addresses(data@, byte_seqs(shims@), 0) == Some(Some(v@)),
        r matches Ok(None) ==> shim_addresses(data@, byte_seqs(shims@), 0) == Some(None::<Seq<u32>>),
        r is Err ==> shim_addresses(data@, byte_seqs(shims@), 0) is None,
{
    let ghost s = byte_seqs(shims@);
    let mut out: Vec<u32> = Vec::new();
    let mut k: usize = 0;
    while k < shims.len()
        invariant
            s == byte_seqs(shims@),
            k <= shims@.len(),
            forall|j: int| 0 <= j < k ==> export_va(data@, s[j]) == Some(Some(out@[j])),
            out@.len() == k,
        decreases shims.len() - k,
    {
        match find_export_va(data, shims[k].as_slice()) {
            Err(f) => {
                proof {
                    lemma_shim_prefix(data@, s, out@, k as int);
                }
                return Err(f);
            },
            Ok(Some(va)) => {
                out.push(va);
            },
            Ok(None) => {
                proof {
                    lemma_shim_prefix(data@, s, out@, k as int);
                }
                return Ok(None);
            },
        }
        k += 1;
    }
    proof {
        lemma_shim_prefix(data@, s, out@, k as int);
    }
    Ok(Some(out))
}

proof fn lemma_shim_prefix(d: Seq<u8>, s: Seq<Seq<u8>>, out: Seq<u32>, k: int)
    requires
        0 <= k <= s.len(),
        out.len() >= k,
        forall|j: int| 0 <= j < k ==> export_va(d, s[j]) == Some(Some(out[j])),
    ensures
        shim_addresses(d, s, 0) == match shim_addresses(d, s, k) {
            None => None,
            Some(None) => Some(None),
            Some(Some(rest)) => Some(Some(out.subrange(0, k) + rest)),
        },
    decreases k,
{
    if k > 0 {
        lemma_shim_prefix(d, s, out, k - 1);
        assert(out.subrange(0, k - 1) + (seq![out[k - 1]] + Seq::<u32>::empty()) =~= out.subrange(0, k) + Seq::<u32>::empty());
        match shim_addresses(d, s, k) {
            Some(Some(rest)) => {
                assert(out.subrange(0, k - 1) + (seq![out[k - 1]] + rest) =~= out.subrange(0, k) + rest);
            },
            _ => {},
        }
    } else {
        match shim_addresses(d, s, 0) {
            Some(Some(rest)) => {
                assert(out.subrange(0, 0) + rest =~= rest);
            },
            _ => {},
        }
    }
}

/// Locates the delay-import directory.
fn delay_dir(data: &[u8]) -> (r: Result<Option<(u64, u64)>, PeFault>)
    ensures
        r matches Ok(Some((o, n))) ==> delay_directory(data@) == Some(Some((o as int, n as int)))
            && o <= u32::MAX && n <= u32::MAX,
        r matches Ok(None) ==> delay_directory(data@) == Some(None::<(int, int)>),
        r is Err ==> delay_directory(data@) is None,
{
    let e = read_u32_at(data, 0x3C)? as u64;
    if e + 232 > data.len() as u64 {
        return Err(PeFault);
    }
    let opt_off = e + 24;
    let dd13_off = opt_off + 96 + 13 * 8;
    let dir_rva = read_u32_at(data, dd13_off)?;
    let dir_size = read_u32_at(data, dd13_off + 4)?;
    if dir_rva == 0 || dir_size == 0 {
        return Ok(None);
    }
    match rva_to_off(data, dir_rva)? {
        Some(o) => Ok(Some((o, dir_size as u64 / 32))),
        None => Ok(None),
    }
}

/// ASCII lower-casing of one byte.
pub fn to_ascii_lower(b: u8) -> (r: u8)
    ensures
        r == ascii_lower(b),
{
    if b >= 65 && b <= 90 {
        b + 32
    } else {
        b
    }
}

/// `data` holds `name`, in any ASCII case, followed by a NUL at `off`.
fn dll_name_matches(data: &[u8], off: u64, name: &[u8]) -> (r: bool)
    ensures
        r == dll_name_at(data@, off as int, name@),
{
    let n = data.len();
    if name.len() as u64 >= n as u64 || off > n as u64 - name.len() as u64 - 1 {
        return false;
    }
    let o = off as usize;
    let mut k: usize = 0;
    while k < name.len()
        invariant
            n == data@.len(),
            o == off,
            off + name@.len() + 1 <= n,
            k <= name@.len(),
            forall|t: int| 0 <= t < k ==> ascii_lower(data@[off + t]) == ascii_lower(name@[t]),
        decreases name.len() - k,
    {
        if to_ascii_lower(data[o + k]) != to_ascii_lower(name[k]) {
            assert(!eq_ignore_ascii_case(data@.subrange(off as int, off + name@.len()), name@)) by {
                assert(data@.subrange(off as int, off + name@.len())[k as int] == data@[off + k]);
            }
            return false;
        }
        k += 1;
    }
    assert(eq_ignore_ascii_case(data@.subrange(off as int, off + name@.len()), name@)) by {
        assert forall|t: int| 0 <= t < name@.len() implies ascii_lower(
            data@.subrange(off as int, off + name@.len())[t],
        ) == ascii_lower(name@[t]) by {
            assert(data@.subrange(off as int, off + name@.len())[t] == data@[off + t]);
        }
    }
    data[o + name.len()] == 0
}

/// `data` holds `target` followed by a NUL at `off`.
fn nul_terminated_matches(data: &[u8], off: u64, target: &[u8]) -> (r: bool)
    ensures
        r == nul_terminated_at(data@, off as int, target@),
{
    let n = data.len();
    if target.len() as u64 >= n as u64 || off > n as u64 - target.len() as u64 - 1 {
        return false;
    }
    bytes_eq_at(data, off, target) && data[(off + target.len() as u64) as usize] == 0
}

/// Index of the first API whose NUL-terminated name stands at `off`.
fn find_api(data: &[u8], off: u64, apis: &Vec<Vec<u8>>) -> (r: Option<usize>)
    ensures
        r matches Some(k) ==> api_at(data@, off as int, byte_seqs(apis@), 0) == Some(k as int)
            && k < apis@.len(),
        r is None ==> api_at(data@, off as int, byte_seqs(apis@), 0) is None,
{
    let ghost s = byte_seqs(apis@);
    let mut k: usize = 0;
    while k < apis.len()
        invariant
            s == byte_seqs(apis@),
            k <= apis@.len(),
            api_at(data@, off as int, s, 0) == api_at(data@, off as int, s, k as int),
        decreases apis.len() - k,
    {
        if nul_terminated_matches(data, off, apis[k].as_slice()) {
            return Some(k);
        }
        k += 1;
    }
    None
}

proof fn lemma_by_name_bit(e: u32)
    ensures
        (e & 0x8000_0000u32 == 0) == by_name(e as int),
{
    assert((e & 0x8000_0000u32 == 0) == (e < 0x8000_0000u32)) by (bit_vector);
}

/// Walks the INT at `int_off`, redirecting the IAT slots of the entries that
/// name one of `apis`; returns how many entries named one.
fn walk_iat(
    data: &mut Vec<u8>,
    int_off: u64,
    iat_base: u64,
    apis: &Vec<Vec<u8>>,
    vas: &Vec<u32>,
) -> (r: Result<u64, PeFault>)
    requires
        int_off <= u32::MAX,
        iat_base <= u32::MAX,
        vas@.len() == apis@.len(),
    ensures
        r matches Ok(n) ==> iat_walk(old(data)@, int_off as int, iat_base as int, byte_seqs(apis@), vas@, 0, 0)
            == Some((final(data)@, n as int)),
        r is Err ==> iat_walk(old(data)@, int_off as int, iat_base as int, byte_seqs(apis@), vas@, 0, 0) is None,
{
    let ghost goal = iat_walk(data@, int_off as int, iat_base as int, byte_seqs(apis@), vas@, 0, 0);
    let len = data.len();
    if int_off + 4 > len as u64 {
        return Err(PeFault);
    }
    let mut idx: u64 = 0;
    let mut patched: u64 = 0;
    loop
        invariant
            len == data@.len(),
            int_off <= u32::MAX,
            iat_base <= u32::MAX,
            vas@.len() == apis@.len(),
            goal == iat_walk(old(data)@, int_off as int, iat_base as int, byte_seqs(apis@), vas@, 0, 0),
            int_off + idx * 4 <= len,
            patched <= idx,
            goal == iat_walk(data@, int_off as int, iat_base as int, byte_seqs(apis@), vas@, idx as int, patched as int),
        decreases len - (int_off + idx * 4),
    {
        let entry = match read_u32_at(data.as_slice(), int_off + idx * 4) {
            Ok(v) => v,
            Err(f) => {
                return Err(f);
            },
        };
        if entry == 0 {
            return Ok(patched);
        }
        proof {
            lemma_by_name_bit(entry);
        }
        if entry & 0x8000_0000 == 0 {
            match rva_to_off(data.as_slice(), entry) {
                Err(f) => {
                    return Err(f);
                },
                Ok(None) => {},
                Ok(Some(ibn_off)) => {
                    let name_off = ibn_off + 2;
                    match find_api(data.as_slice(), name_off, apis) {
                        None => {},
                        Some(k) => {
                            let iat_slot = match iat_base.checked_add(idx * 4) {
                                Some(v) => v,
                                None => {
                                    return Err(PeFault);
                                },
                            };
                            let current = match read_u32_at(data.as_slice(), iat_slot) {
                                Ok(v) => v,
                                Err(f) => {
                                    return Err(f);
                                },
                            };
                            let target = vas[k];
                            proof {
                                law_read_after_write(data@, iat_slot as int, target);
                            }
                            if current != target {
                                write_u32(data, iat_slot as usize, target);
                            }
                            patched += 1;
                        },
                    }
                },
            }
        }
        idx += 1;
    }
}

/// Redirects the delay-load IAT slots of `dll` that import one of `apis` to
/// the exported shim named at the same position in `shims`.  Returns whether
/// any slot was found.
pub fn patch_delay_iat(data: &mut Vec<u8>, dll: &[u8], apis: &Vec<Vec<u8>>, shims: &Vec<Vec<u8>>) -> (r: Result<bool, PeFault>)
    requires
        apis@.len() == shims@.len(),
    ensures
        r matches Ok(b) ==> delay_iat_patch(old(data)@, dll@, byte_seqs(apis@), byte_seqs(shims@)) == Some((b, final(data)@)),
        r matches Ok(false) ==> final(data)@ == old(data)@,
        r is Err ==> delay_iat_patch(old(data)@, dll@, byte_seqs(apis@), byte_seqs(shims@)) is None,
{
    let ghost d0 = data@;
    let ghost goal = delay_iat_patch(data@, dll@, byte_seqs(apis@), byte_seqs(shims@));
    let vas = match shim_vas(data.as_slice(), shims)? {
        Some(v) => v,
        None => return Ok(false),
    };
    proof {
        lemma_shim_addresses_len(d0, byte_seqs(shims@), 0);
    }
    let (dir_off, num_entries) = match delay_dir(data.as_slice())? {
        Some(x) => x,
        None => return Ok(false),
    };
    let mut i: u64 = 0;
    while i < num_entries
        invariant
            data@ == d0,
            d0 == old(data)@,
            goal == delay_iat_patch(old(data)@, dll@, byte_seqs(apis@), byte_seqs(shims@)),
            dir_off <= u32::MAX,
            num_entries <= u32::MAX,
            i <= num_entries,
            vas@.len() == apis@.len(),
            goal == iat_descriptor_scan(d0, dir_off as int, num_entries as int, i as int, dll@, byte_seqs(apis@), vas@),
        decreases num_entries - i,
    {
        let d = dir_off + i * 32;
        let dll_name_rva = read_u32_at(data.as_slice(), d + 4)?;
        if dll_name_rva == 0 {
            return Ok(false);
        }
        let dll_name_off = match rva_to_off(data.as_slice(), dll_name_rva)? {
            Some(o) => o,
            None => {
                i += 1;
                continue;
            },
        };
        if !dll_name_matches(data.as_slice(), dll_name_off, dll) {
            i += 1;
            continue;
        }
        let int_rva = read_u32_at(data.as_slice(), d + 16)?;
        let int_off = match rva_to_off(data.as_slice(), int_rva)? {
            Some(o) => o,
            None => return Ok(false),
        };
        let iat_rva = read_u32_at(data.as_slice(), d + 12)?;
        let iat_base = match rva_to_off(data.as_slice(), iat_rva)? {
            Some(o) => o,
            None => return Ok(false),
        };
        let patched = walk_iat(data, int_off, iat_base, apis, &vas)?;
        if patched == 0 {
            proof {
                lemma_walk_zero(d0, int_off as int, iat_base as int, byte_seqs(apis@), vas@, 0);
            }
            return Ok(false);
        }
        return Ok(true);
    }
    Ok(false)
}

/// A walk that patches nothing leaves the image as it was.
proof fn lemma_walk_zero(d: Seq<u8>, int_off: int, iat_base: int, apis: Seq<Seq<u8>>, vas: Seq<u32>, idx: int)
    requires
        idx >= 0,
    ensures
        match iat_walk(d, int_off, iat_base, apis, vas, idx, 0) {
            Some(res) => res.1 == 0 ==> res.0 == d,
            None => true,
        },
{
    lemma_walk_monotone(d, int_off, iat_base, apis, vas, idx, 0);
}

/// The count returned by a walk never falls below the count it started with,
/// and exceeds it once an entry is patched.
proof fn lemma_walk_monotone(d: Seq<u8>, int_off: int, iat_base: int, apis: Seq<Seq<u8>>, vas: Seq<u32>, idx: int, patched: int)
    ensures
        match iat_walk(d, int_off, iat_base, apis, vas, idx, patched) {
            Some(res) => res.1 >= patched && (res.1 == patched ==> res.0 == d),
            None => true,
        },
    decreases d.len() + 1 - (int_off + idx * 4),
{
    let p = int_off + idx * 4;
    if idx < 0 || p < 0 || p + 4 > d.len() {
    } else {
        let entry = u32_le(d, p);
        if entry == 0 {
        } else if !by_name(entry) {
            lemma_walk_monotone(d, int_off, iat_base, apis, vas, idx + 1, patched);
        } else {
            match rva_offset(d, entry) {
                None => {},
                Some(None) => {
                    lemma_walk_monotone(d, int_off, iat_base, apis, vas, idx + 1, patched);
                },
                Some(Some(ibn)) => match api_at(d, ibn + 2, apis, 0) {
                    None => {
                        lemma_walk_monotone(d, int_off, iat_base, apis, vas, idx + 1, patched);
                    },
                    Some(k) => {
                        let slot = iat_base + idx * 4;
                        if slot < 0 || slot + 4 > d.len() {
                        } else {
                            let d2 = if u32_le(d, slot) == vas[k] as int {
                                d
                            } else {
                                put_u32(d, slot, vas[k])
                            };
                            assert(put_u32(d, slot, vas[k]).len() == d.len());
                            lemma_walk_monotone(d2, int_off, iat_base, apis, vas, idx + 1, patched + 1);
                        }
                    },
                },
            }
        }
    }
}

// ── bcryptprimitives.dll → CRYPTBASE.dll ───────────────────────────────────

/// INT entry importing ordinal 9 (SystemFunction036) of CRYPTBASE.dll.
pub const SYSTEM_FUNCTION_036_ORDINAL: u32 = 0x8000_0009;

/// Walk of the INT from entry `idx` on for the by-name import of `proc_name`,
/// whose entry is replaced by the ordinal import.  `Some(None)` where the INT
/// ends without it.
pub open spec fn ordinal_walk(d: Seq<u8>, int_off: int, proc_name: Seq<u8>, idx: int) -> Option<Option<Seq<u8>>>
    decreases d.len() + 1 - (int_off + idx * 4),
{
    let p = int_off + idx * 4;
    if idx < 0 || p < 0 || p + 4 > d.len() {
        None
    } else {
        let entry = u32_le(d, p);
        if entry == 0 {
            Some(None)
        } else if !by_name(entry) {
            ordinal_walk(d, int_off, proc_name, idx + 1)
        } else {
            match rva_offset(d, entry) {
                None => None,
                Some(None) => ordinal_walk(d, int_off, proc_name, idx + 1),
                Some(Some(ibn)) => {
                    if ibn + 2 + proc_name.len() > d.len() {
                        None
                    } else if d.subrange(ibn + 2, ibn + 2 + proc_name.len()) != proc_name {
                        ordinal_walk(d, int_off, proc_name, idx + 1)
                    } else {
                        Some(Some(put_u32(d, p, SYSTEM_FUNCTION_036_ORDINAL)))
                    }
                },
            }
        }
    }
}

/// `d` with the `old_len + 1` bytes at `off` cleared and `new_name` written
/// over their start.
pub open spec fn renamed(d: Seq<u8>, off: int, old_len: int, new_name: Seq<u8>) -> Seq<u8> {
    d.subrange(0, off) + new_name + Seq::new((old_len + 1 - new_name.len()) as nat, |i: int| 0u8)
        + d.subrange(off + old_len + 1, d.len() as int)
}

/// Scan of the delay-load descriptors from `i` on for the one whose name
/// starts with `dll` (any ASCII case); its `proc_name` import is turned into
/// the ordinal import and the DLL name into `new_dll`.
pub open spec fn ordinal_descriptor_scan(
    d: Seq<u8>,
    dir_off: int,
    num: int,
    i: int,
    dll: Seq<u8>,
    new_dll: Seq<u8>,
    proc_name: Seq<u8>,
) -> Option<(bool, Seq<u8>)>
    decreases num - i,
{
    if i < 0 || i >= num {
        Some((false, d))
    } else {
        let p = dir_off + i * 32;
        if p + 8 > d.len() {
            None
        } else {
            let name_rva = u32_le(d, p + 4);
            if name_rva == 0 {
                Some((false, d))
            } else {
                match rva_offset(d, name_rva) {
                    None => None,
                    Some(None) => ordinal_descriptor_scan(d, dir_off, num, i + 1, dll, new_dll, proc_name),
                    Some(Some(name_off)) => {
                        if name_off + dll.len() > d.len() {
                            None
                        } else if !eq_ignore_ascii_case(d.subrange(name_off, name_off + dll.len()), dll) {
                            ordinal_descriptor_scan(d, dir_off, num, i + 1, dll, new_dll, proc_name)
                        } else if p + 20 > d.len() {
                            None
                        } else {
                            match rva_offset(d, u32_le(d, p + 16)) {
                                None => None,
                                Some(None) => Some((false, d)),
                                Some(Some(int_off)) => match ordinal_walk(d, int_off, proc_name, 0) {
                                    None => None,
                                    Some(None) => Some((false, d)),
                                    Some(Some(d2)) => {
                                        if name_off + dll.len() + 1 > d.len() {
                                            None
                                        } else {
                                            Some((true, renamed(d2, name_off, dll.len() as int, new_dll)))
                                        }
                                    },
                                },
                            }
                        }
                    },
                }
            }
        }
    }
}

/// Redirection of the delay-load import of `proc_name` from `dll` to the
/// ordinal import of `new_dll`.
pub open spec fn delay_ordinal_patch(d: Seq<u8>, dll: Seq<u8>, new_dll: Seq<u8>, proc_name: Seq<u8>) -> Option<(bool, Seq<u8>)> {
    match delay_directory(d) {
        None => None,
        Some(None) => Some((false, d)),
        Some(Some((dir_off, num))) => ordinal_descriptor_scan(d, dir_off, num, 0, dll, new_dll, proc_name),
    }
}

fn ascii_ci_eq_at(data: &[u8], off: u64, name: &[u8]) -> (r: bool)
    requires
        off + name@.len() <= data@.len(),
    ensures
        r == eq_ignore_ascii_case(data@.subrange(off as int, off + name@.len()), name@),
{
    let n = data.len();
    let o = off as usize;
    let mut k: usize = 0;
    while k < name.len()
        invariant
            n == data@.len(),
            o == off,
            off + name@.len() <= n,
            k <= name@.len(),
            forall|t: int| 0 <= t < k ==> ascii_lower(data@[off + t]) == ascii_lower(name@[t]),
        decreases name.len() - k,
    {
        if to_ascii_lower(data[o + k]) != to_ascii_lower(name[k]) {
            assert(data@.subrange(off as int, off + name@.len())[k as int] == data@[off + k]);
            return false;
        }
        k += 1;
    }
    assert forall|t: int| 0 <= t < name@.len() implies ascii_lower(
        data@.subrange(off as int, off + name@.len())[t],
    ) == ascii_lower(name@[t]) by {
        assert(data@.subrange(off as int, off + name@.len())[t] == data@[off + t]);
    }
    true
}

fn ordinal_int_walk(data: &mut Vec<u8>, int_off: u64, proc_name: &[u8]) -> (r: Result<bool, PeFault>)
    requires
        int_off <= u32::MAX,
    ensures
        final(data)@.len() == old(data)@.len(),
        r matches Ok(true) ==> ordinal_walk(old(data)@, int_off as int, proc_name@, 0) == Some(Some(final(data)@)),
        r matches Ok(false) ==> ordinal_walk(old(data)@, int_off as int, proc_name@, 0) == Some(None::<Seq<u8>>)
            && final(data)@ == old(data)@,
        r is Err ==> ordinal_walk(old(data)@, int_off as int, proc_name@, 0) is None,
{
    let len = data.len();
    if int_off + 4 > len as u64 {
        return Err(PeFault);
    }
    let mut idx: u64 = 0;
    loop
        invariant
            len == data@.len(),
            data@ == old(data)@,
            int_off <= u32::MAX,
            int_off + idx * 4 <= len,
            ordinal_walk(old(data)@, int_off as int, proc_name@, 0) == ordinal_walk(data@, int_off as int, proc_name@, idx as int),
        decreases len - (int_off + idx * 4),
    {
        let entry = read_u32_at(data.as_slice(), int_off + idx * 4)?;
        if entry == 0 {
            return Ok(false);
        }
        proof {
            lemma_by_name_bit(entry);
        }
        if entry & 0x8000_0000 == 0 {
            match rva_to_off(data.as_slice(), entry)? {
                None => {},
                Some(ibn_off) => {
                    let name_off = ibn_off + 2;
                    if proc_name.len() as u64 > len as u64 || name_off > len as u64 - proc_name.len() as u64 {
                        return Err(PeFault);
                    }
                    if bytes_eq_at(data.as_slice(), name_off, proc_name) {
                        proof {
                            law_read_after_write(data@, int_off + idx * 4, SYSTEM_FUNCTION_036_ORDINAL);
                        }
                        write_u32(data, (int_off + idx * 4) as usize, SYSTEM_FUNCTION_036_ORDINAL);
                        return Ok(true);
                    }
                },
            }
        }
        idx += 1;
    }
}

/// Clears the `old_len + 1` bytes at `off` and writes `new_name` over them.
fn rename_in_place(data: &mut Vec<u8>, off: u64, old_len: usize, new_name: &[u8])
    requires
        off + old_len + 1 <= old(data)@.len(),
        new_name@.len() <= old_len + 1,
    ensures
        final(data)@ == renamed(old(data)@, off as int, old_len as int, new_name@),
{
    let ghost d0 = data@;
    let n = data.len();
    let o = off as usize;
    let mut k: usize = 0;
    while k < old_len + 1
        invariant
            n == data@.len(),
            o == off,
            o + old_len + 1 <= n,
            k <= old_len + 1,
            new_name@.len() <= old_len + 1,
            forall|t: int| 0 <= t < n && !(o <= t < o + k) ==> data@[t] == d0[t],
            forall|t: int| o <= t < o + k ==> data@[t] == (if t - o < new_name@.len() {
                new_name@[t - o]
            } else {
                0u8
            }),
        decreases old_len + 1 - k,
    {
        let b = if k < new_name.len() {
            new_name[k]
        } else {
            0u8
        };
        data.set(o + k, b);
        k += 1;
    }
    assert(data@ =~= renamed(d0, off as int, old_len as int, new_name@));
}

/// Redirects the delay-load import of `proc_name` from `dll` to ordinal 9 of
/// `new_dll` and renames the DLL in the descriptor.  Returns whether the
/// import was found.
pub fn patch_delay_ordinal(data: &mut Vec<u8>, dll: &[u8], new_dll: &[u8], proc_name: &[u8]) -> (r: Result<bool, PeFault>)
    requires
        new_dll@.len() <= dll@.len() + 1,
    ensures
        r matches Ok(b) ==> delay_ordinal_patch(old(data)@, dll@, new_dll@, proc_name@) == Some((b, final(data)@)),
        r matches Ok(false) ==> final(data)@ == old(data)@,
        r is Err ==> delay_ordinal_patch(old(data)@, dll@, new_dll@, proc_name@) is None,
{
    let ghost d0 = data@;
    let ghost goal = delay_ordinal_patch(data@, dll@, new_dll@, proc_name@);
    let (dir_off, num_entries) = match delay_dir(data.as_slice())? {
        Some(x) => x,
        None => return Ok(false),
    };
    let len = data.len();
    let mut i: u64 = 0;
    while i < num_entries
        invariant
            data@ == d0,
            d0 == old(data)@,
            len == d0.len(),
            new_dll@.len() <= dll@.len() + 1,
            goal == delay_ordinal_patch(old(data)@, dll@, new_dll@, proc_name@),
            dir_off <= u32::MAX,
            num_entries <= u32::MAX,
            i <= num_entries,
            goal == ordinal_descriptor_scan(d0, dir_off as int, num_entries as int, i as int, dll@, new_dll@, proc_name@),
        decreases num_entries - i,
    {
        let d = dir_off + i * 32;
        let dll_name_rva = read_u32_at(data.as_slice(), d + 4)?;
        if dll_name_rva == 0 {
            return Ok(false);
        }
        let dll_name_off = match rva_to_off(data.as_slice(), dll_name_rva)? {
            Some(o) => o,
            None => {
                i += 1;
                continue;
            },
        };
        if dll.len() as u64 > len as u64 || dll_name_off > len as u64 - dll.len() as u64 {
            return Err(PeFault);
        }
        if !ascii_ci_eq_at(data.as_slice(), dll_name_off, dll) {
            i += 1;
            continue;
        }
        let int_rva = read_u32_at(data.as_slice(), d + 16)?;
        let int_off = match rva_to_off(data.as_slice(), int_rva)? {
            Some(o) => o,
            None => return Ok(false),
        };
        let found = ordinal_int_walk(data, int_off, proc_name)?;
        if !found {
            return Ok(false);
        }
        if dll_name_off + dll.len() as u64 >= len as u64 {
            return Err(PeFault);
        }
        rename_in_place(data, dll_name_off, dll.len(), new_dll);
        return Ok(true);
    }
    Ok(false)
}

// ── The three delay-load patches of the tool ───────────────────────────────

pub open spec fn synch_dll() -> Seq<u8> {
    "api-ms-win-core-synch-l1-2-0.dll".spec_bytes()
}

pub open spec fn synch_apis() -> Seq<Seq<u8>> {
    seq![
        "WaitOnAddress".spec_bytes(),
        "WakeByAddressAll".spec_bytes(),
        "WakeByAddressSingle".spec_bytes(),
    ]
}

pub open spec fn synch_shims() -> Seq<Seq<u8>> {
    seq![
        "compat_WaitOnAddress".spec_bytes(),
        "compat_WakeByAddressAll".spec_bytes(),
        "compat_WakeByAddressSingle".spec_bytes(),
    ]
}

pub open spec fn combase_dll() -> Seq<u8> {
    "combase.dll".spec_bytes()
}

pub open spec fn combase_apis() -> Seq<Seq<u8>> {
    seq!["CoTaskMemFree".spec_bytes(), "CoCreateFreeThreadedMarshaler".spec_bytes()]
}

pub open spec fn combase_shims() -> Seq<Seq<u8>> {
    seq!["compat_CoTaskMemFree".spec_bytes(), "compat_CoCreateFreeThreadedMarshaler".spec_bytes()]
}

fn byte_vec(s: &str) -> (r: Vec<u8>)
    ensures
        r@ == s.spec_bytes(),
{
    vstd::slice::slice_to_vec(s.as_bytes())
}

/// Points the delay-load IAT slots of WaitOnAddress / WakeByAddressAll /
/// WakeByAddressSingle at the compat shims exported by the image itself.
pub fn patch_synch_iat(data: &mut Vec<u8>) -> (r: Result<bool, PeFault>)
    ensures
        r matches Ok(b) ==> delay_iat_patch(old(data)@, synch_dll(), synch_apis(), synch_shims()) == Some((b, final(data)@)),
        r matches Ok(false) ==> final(data)@ == old(data)@,
        r is Err ==> delay_iat_patch(old(data)@, synch_dll(), synch_apis(), synch_shims()) is None,
{
    let apis = vec![byte_vec("WaitOnAddress"), byte_vec("WakeByAddressAll"), byte_vec("WakeByAddressSingle")];
    let shims = vec![
        byte_vec("compat_WaitOnAddress"),
        byte_vec("compat_WakeByAddressAll"),
        byte_vec("compat_WakeByAddressSingle"),
    ];
    assert(byte_seqs(apis@) =~= synch_apis());
    assert(byte_seqs(shims@) =~= synch_shims());
    patch_delay_iat(data, "api-ms-win-core-synch-l1-2-0.dll".as_bytes(), &apis, &shims)
}

/// Points the delay-load IAT slots of CoTaskMemFree and
/// CoCreateFreeThreadedMarshaler at the compat shims exported by the image.
pub fn patch_combase_iat(data: &mut Vec<u8>) -> (r: Result<bool, PeFault>)
    ensures
        r matches Ok(b) ==> delay_iat_patch(old(data)@, combase_dll(), combase_apis(), combase_shims()) == Some((b, final(data)@)),
        r matches Ok(false) ==> final(data)@ == old(data)@,
        r is Err ==> delay_iat_patch(old(data)@, combase_dll(), combase_apis(), combase_shims()) is None,
{
    let apis = vec![byte_vec("CoTaskMemFree"), byte_vec("CoCreateFreeThreadedMarshaler")];
    let shims = vec![byte_vec("compat_CoTaskMemFree"), byte_vec("compat_CoCreateFreeThreadedMarshaler")];
    assert(byte_seqs(apis@) =~= combase_apis());
    assert(byte_seqs(shims@) =~= combase_shims());
    patch_delay_iat(data, "combase.dll".as_bytes(), &apis, &shims)
}

/// Redirects ProcessPrng of bcryptprimitives.dll to SystemFunction036
/// (ordinal 9) of CRYPTBASE.dll in the delay-load directory.
pub fn patch_delay_bcrypt(data: &mut Vec<u8>) -> (r: Result<bool, PeFault>)
    ensures
        r matches Ok(b) ==> delay_ordinal_patch(
            old(data)@,
            "bcryptprimitives.dll".spec_bytes(),
            "CRYPTBASE.dll".spec_bytes(),
            "ProcessPrng".spec_bytes(),
        ) == Some((b, final(data)@)),
        r matches Ok(false) ==> final(data)@ == old(data)@,
        r is Err ==> delay_ordinal_patch(
            old(data)@,
            "bcryptprimitives.dll".spec_bytes(),
            "CRYPTBASE.dll".spec_bytes(),
            "ProcessPrng".spec_bytes(),
        ) is None,
{
    let old_dll = "bcryptprimitives.dll".as_bytes();
    let new_dll = "CRYPTBASE.dll".as_bytes();
    proof {
        reveal_strlit("bcryptprimitives.dll");
        reveal_strlit("CRYPTBASE.dll");
        vstd::string::is_ascii_spec_bytes("bcryptprimitives.dll");
        vstd::string::is_ascii_spec_bytes("CRYPTBASE.dll");
    }
    patch_delay_ordinal(data, old_dll, new_dll, "ProcessPrng".as_bytes())
}

// ── Renaming the time import, zeroing the checksum ─────────────────────────

/// The positions below `k` at which `name` occurs in `d`, in increasing
/// order.
pub open spec fn match_positions(d: Seq<u8>, name: Seq<u8>, k: int) -> Seq<usize>
    decreases k,
{
    if k <= 0 {
        Seq::empty()
    } else {
        let rest = match_positions(d, name, k - 1);
        if crate::text::matches_at(d, name, k - 1) {
            rest.push((k - 1) as usize)
        } else {
            rest
        }
    }
}

/// All positions at which `name` occurs in `data`, in increasing order.
pub fn import_name_hits(data: &[u8], name: &[u8]) -> (r: Vec<usize>)
    requires
        name@.len() > 0,
    ensures
        r@ == match_positions(data@, name@, data@.len() as int + 1),
        forall|k: int| 0 <= k < r@.len() ==> crate::text::matches_at(data@, name@, #[trigger] r@[k] as int),
        forall|k: int, l: int| 0 <= k < l < r@.len() ==> r@[k] < r@[l],
        forall|i: int| crate::text::matches_at(data@, name@, i) ==> r@.contains(i as usize),
{
    let mut hits: Vec<usize> = Vec::new();
    if name.len() > data.len() {
        proof {
            lemma_no_positions(data@, name@, data@.len() as int + 1);
        }
        return hits;
    }
    let n = data.len();
    let last = n - name.len();
    let mut i: usize = 0;
    while i <= last
        invariant
            n == data@.len(),
            last == data@.len() - name@.len(),
            name@.len() > 0,
            i <= last + 1,
            forall|k: int| 0 <= k < hits@.len() ==> crate::text::matches_at(data@, name@, #[trigger] hits@[k] as int),
            forall|k: int| 0 <= k < hits@.len() ==> #[trigger] hits@[k] < i,
            forall|k: int, l: int| 0 <= k < l < hits@.len() ==> hits@[k] < hits@[l],
            forall|j: int| 0 <= j < i && crate::text::matches_at(data@, name@, j) ==> hits@.contains(j as usize),
            hits@ == match_positions(data@, name@, i as int),
        decreases last + 1 - i,
    {
        let ghost before = hits@;
        if bytes_eq_at(data, i as u64, name) {
            hits.push(i);
        }
        proof {
            assert forall|j: int| 0 <= j < i + 1 && crate::text::matches_at(data@, name@, j) implies hits@.contains(j as usize) by {
                if j == i {
                    assert(hits@[hits@.len() - 1] == i);
                } else {
                    let k = choose|k: int| 0 <= k < before.len() && before[k] == j as usize;
                    assert(hits@[k] == j as usize);
                }
            }
        }
        i += 1;
    }
    proof {
        lemma_positions_tail(data@, name@, i as int, data@.len() as int + 1);
    }
    hits
}

proof fn lemma_no_positions(d: Seq<u8>, name: Seq<u8>, k: int)
    requires
        name.len() > d.len(),
    ensures
        match_positions(d, name, k) == Seq::<usize>::empty(),
    decreases k,
{
    if k > 0 {
        lemma_no_positions(d, name, k - 1);
    }
}

proof fn lemma_positions_tail(d: Seq<u8>, name: Seq<u8>, i: int, k: int)
    requires
        0 <= i <= k,
        i + name.len() > d.len(),
    ensures
        match_positions(d, name, k) == match_positions(d, name, i),
    decreases k - i,
{
    if k > i {
        lemma_positions_tail(d, name, i, k - 1);
    }
}

/// `d` with the hint word before `name_off` cleared and the `old_len` name
/// bytes at `name_off` replaced by `new_name`, zero-padded.
pub open spec fn renamed_import(d: Seq<u8>, name_off: int, old_len: int, new_name: Seq<u8>) -> Seq<u8> {
    Seq::new(
        d.len(),
        |i: int|
            if i == name_off - 2 || i == name_off - 1 {
                0u8
            } else if name_off <= i < name_off + old_len {
                if i - name_off < new_name.len() {
                    new_name[i - name_off]
                } else {
                    0u8
                }
            } else {
                d[i]
            },
    )
}

/// Clears the IMAGE_IMPORT_BY_NAME hint before `name_off` and overwrites the
/// `old_len` name bytes with `new_name` and zero padding.  Returns false, with
/// the image untouched, where there is no room for the hint.
pub fn rename_import(data: &mut Vec<u8>, name_off: usize, old_len: usize, new_name: &[u8]) -> (r: bool)
    requires
        name_off + old_len <= old(data)@.len(),
    ensures
        r == (name_off >= 2),
        r ==> final(data)@ == renamed_import(old(data)@, name_off as int, old_len as int, new_name@),
        !r ==> final(data)@ == old(data)@,
{
    if name_off < 2 {
        return false;
    }
    let ghost d0 = data@;
    let n = data.len();
    let hint_off = name_off - 2;
    data.set(hint_off, 0);
    data.set(hint_off + 1, 0);
    let mut i: usize = 0;
    while i < old_len
        invariant
            name_off >= 2,
            n == data@.len(),
            name_off + old_len <= data@.len(),
            data@.len() == d0.len(),
            i <= old_len,
            forall|t: int| 0 <= t < d0.len() && !(name_off - 2 <= t < name_off + i) ==> data@[t] == d0[t],
            data@[name_off - 2] == 0u8,
            data@[name_off - 1] == 0u8,
            forall|t: int| name_off <= t < name_off + i ==> data@[t] == (if t - name_off < new_name@.len() {
                new_name@[t - name_off]
            } else {
                0u8
            }),
        decreases old_len - i,
    {
        let b = if i < new_name.len() {
            new_name[i]
        } else {
            0u8
        };
        data.set(name_off + i, b);
        i += 1;
    }
    assert(data@ =~= renamed_import(d0, name_off as int, old_len as int, new_name@));
    true
}

/// After the rename the loader finds the new name: the hint is 0, so the
/// import is looked up by name, and the name read up to its NUL is the new
/// one (where it is shorter than the old name and holds no NUL itself).
pub proof fn law_renamed_import_reads_new(d: Seq<u8>, name_off: int, old_len: int, new_name: Seq<u8>)
    requires
        2 <= name_off,
        name_off + old_len <= d.len(),
        new_name.len() < old_len,
        forall|k: int| 0 <= k < new_name.len() ==> new_name[k] != 0u8,
    ensures
        u16_le(renamed_import(d, name_off, old_len, new_name), name_off - 2) == 0,
        nul_terminated_at(renamed_import(d, name_off, old_len, new_name), name_off, new_name),
        forall|k: int| 0 <= k < new_name.len() ==> #[trigger] renamed_import(d, name_off, old_len, new_name)[name_off
            + k] != 0u8,
{
    let r = renamed_import(d, name_off, old_len, new_name);
    assert(r.subrange(name_off, name_off + new_name.len()) =~= new_name);
}

/// Zeroes the optional header's CheckSum.  Returns its offset and former
/// value, or `None` where the image has no PE signature to locate it by.
pub fn zero_checksum(data: &mut Vec<u8>) -> (r: Result<Option<(u64, u32)>, PeFault>)
    ensures
        r matches Ok(None) ==> checksum_offset(old(data)@) is None && final(data)@ == old(data)@,
        match r {
            Ok(Some(res)) => checksum_offset(old(data)@) == Some(res.0 as int) && res.0 + 4
                <= old(data)@.len() && res.1 == u32_le(old(data)@, res.0 as int) && final(data)@
                == put_u32(old(data)@, res.0 as int, 0),
            _ => true,
        },
        r is Err ==> (checksum_offset(old(data)@) matches Some(o) && o + 4 > old(data)@.len()),
        r is Err ==> final(data)@ == old(data)@,
{
    match pe_checksum_offset(data.as_slice()) {
        None => Ok(None),
        Some(off) => {
            let ghost d0 = data@;
            let old_cs = read_u32_at(data.as_slice(), off)?;
            let n = data.len();
            assert(off + 4 <= n);
            write_u32(data, off as usize, 0);
            Ok(Some((off, old_cs)))
        },
    }
}

/// After the checksum is zeroed, reading it gives zero.
pub proof fn law_checksum_zeroed(d: Seq<u8>, off: int)
    requires
        0 <= off,
        off + 4 <= d.len(),
    ensures
        u32_le(put_u32(d, off, 0), off) == 0,
{
    law_read_after_write(d, off, 0);
}

// ── Validation with the object crate ───────────────────────────────────────

/// Whether `object::File::parse` accepts the bytes.
pub uninterp spec fn object_parses(data: Seq<u8>) -> bool;

/// The import names that `object::Object::imports` lists for the parsed
/// bytes (empty where parsing or listing fails).
pub uninterp spec fn object_import_names(data: Seq<u8>) -> Seq<Seq<u8>>;

/// `object::File::parse`: whether the bytes are a recognised object file.
#[verifier::external_body]
fn object_parse_ok(data: &[u8]) -> (r: bool)
    ensures
        r == object_parses(data@),
{
    object::File::parse(data).is_ok()
}

/// `object::Object::imports` on the parsed bytes: the names of the imports,
/// in the order the crate lists them; none where parsing or listing fails.
#[verifier::external_body]
fn object_imports(data: &[u8]) -> (r: Vec<Vec<u8>>)
    ensures
        byte_seqs(r@) == object_import_names(data@),
{
    match object::File::parse(data) {
        Ok(f) => f.imports().unwrap_or_default().iter().map(|i| i.name().to_vec()).collect(),
        Err(_) => Vec::new(),
    }
}

/// What the tool finds before it patches.
#[derive(Debug, Clone, Copy, PartialEq, Eq)]
pub enum InputCheck {
    /// The bytes are not a recognisable object file.
    NotAnImage,
    /// The import to rename is not listed: already patched or another binary.
    ImportMissing,
    /// The import is listed.
    Ready,
}

/// Checks that `data` is an object file that imports `name`.
pub fn check_input(data: &[u8], name: &[u8]) -> (r: InputCheck)
    ensures
        r == InputCheck::NotAnImage <==> !object_parses(data@),
        r == InputCheck::ImportMissing <==> object_parses(data@) && !object_import_names(data@).contains(name@),
        r == InputCheck::Ready <==> object_parses(data@) && object_import_names(data@).contains(name@),
{
    if !object_parse_ok(data) {
        return InputCheck::NotAnImage;
    }
    let names = object_imports(data);
    let ghost s = byte_seqs(names@);
    let mut k: usize = 0;
    while k < names.len()
        invariant
            s == byte_seqs(names@),
            s == object_import_names(data@),
            object_parses(data@),
            k <= names@.len(),
            forall|j: int| 0 <= j < k ==> s[j] != name@,
        decreases names.len() - k,
    {
        if names[k].len() == name.len() && bytes_eq_at(names[k].as_slice(), 0, name) {
            assert(names[k as int]@.subrange(0, name@.len() as int) =~= names[k as int]@);
            assert(s.contains(name@)) by {
                assert(s[k as int] == name@);
            }
            return InputCheck::Ready;
        }
        proof {
            if s[k as int] == name@ {
                assert(names[k as int]@.subrange(0, name@.len() as int) =~= names[k as int]@);
            }
        }
        k += 1;
    }
    InputCheck::ImportMissing
}

// ── The whole patch ────────────────────────────────────────────────────────

/// Why the patch stops before changing anything.
#[derive(Debug, Clone, Copy, PartialEq, Eq)]
pub enum PatchStop {
    /// The import name is nowhere in the raw bytes.
    NotFound,
    /// The import name occurs this many times: unsafe to patch.
    Ambiguous(usize),
    /// The name starts too early for its hint word.
    NoHint,
}

/// What the patch did: where the name and its hint were, the former hint,
/// the checksum's offset and former value (where it was found), and whether
/// each of the three delay-load patches applied.
#[derive(Debug, Clone, Copy, PartialEq, Eq)]
pub struct PatchReport {
    pub name_off: usize,
    pub old_hint: u16,
    pub checksum: Option<(u64, u32)>,
    pub bcrypt: bool,
    pub synch: bool,
    pub combase: bool,
}

pub open spec fn time_import() -> Seq<u8> {
    "GetSystemTimePreciseAsFileTime".spec_bytes()
}

pub open spec fn time_import_new() -> Seq<u8> {
    "GetSystemTimeAsFileTime".spec_bytes()
}

/// The image after the checksum step: zeroed where its offset is found (and
/// fits), unchanged where it is not found; `None` where it does not fit.
pub open spec fn checksum_step(d: Seq<u8>) -> Option<Seq<u8>> {
    match checksum_offset(d) {
        None => Some(d),
        Some(o) => if o + 4 <= d.len() {
            Some(put_u32(d, o, 0))
        } else {
            None
        },
    }
}

/// The whole patch of an image whose time import occurs once, at `off`
/// (2 or more): the rename, the checksum, then the bcrypt, synch and
/// combase delay-load patches; the three flags and the final image, or
/// `None` where a step reads outside the image.
pub open spec fn patch_chain(d0: Seq<u8>, off: int) -> Option<(bool, bool, bool, Seq<u8>)> {
    let d1 = renamed_import(d0, off, time_import().len() as int, time_import_new());
    match checksum_step(d1) {
        None => None,
        Some(d2) => match delay_ordinal_patch(
            d2,
            "bcryptprimitives.dll".spec_bytes(),
            "CRYPTBASE.dll".spec_bytes(),
            "ProcessPrng".spec_bytes(),
        ) {
            None => None,
            Some((b1, d3)) => match delay_iat_patch(d3, synch_dll(), synch_apis(), synch_shims()) {
                None => None,
                Some((b2, d4)) => match delay_iat_patch(d4, combase_dll(), combase_apis(), combase_shims()) {
                    None => None,
                    Some((b3, d5)) => Some((b1, b2, b3, d5)),
                },
            },
        },
    }
}

/// Renames the time import (found once in the raw bytes), zeroes the
/// checksum, and applies the three delay-load patches; stops untouched
/// where the name is missing, repeated or too early; `Err` where a step
/// reads outside the image.
pub fn patch_time_import(data: &mut Vec<u8>) -> (r: Result<Result<PatchReport, PatchStop>, PeFault>)
    ensures
        ({
            let hits = match_positions(old(data)@, time_import(), old(data)@.len() as int + 1);
            match r {
                Ok(Err(PatchStop::NotFound)) => hits.len() == 0 && final(data)@ == old(data)@,
                Ok(Err(PatchStop::Ambiguous(n))) => n == hits.len() && n >= 2 && final(data)@ == old(data)@,
                Ok(Err(PatchStop::NoHint)) => hits.len() == 1 && hits[0] < 2 && final(data)@ == old(data)@,
                Ok(Ok(rep)) => {
                    &&& hits == seq![rep.name_off]
                    &&& rep.name_off >= 2
                    &&& rep.old_hint == u16_le(old(data)@, rep.name_off - 2)
                    &&& patch_chain(old(data)@, rep.name_off as int) == Some(
                        (rep.bcrypt, rep.synch, rep.combase, final(data)@),
                    )
                },
                Err(_) => hits.len() == 1 && hits[0] >= 2 && patch_chain(old(data)@, hits[0] as int) is None,
            }
        }),
{
    let ghost d0 = data@;
    let old_name = "GetSystemTimePreciseAsFileTime".as_bytes();
    let new_name = "GetSystemTimeAsFileTime".as_bytes();
    proof {
        reveal_strlit("GetSystemTimePreciseAsFileTime");
        reveal_strlit("GetSystemTimeAsFileTime");
        vstd::string::is_ascii_spec_bytes("GetSystemTimePreciseAsFileTime");
    }
    let hits = import_name_hits(data.as_slice(), old_name);
    if hits.len() == 0 {
        return Ok(Err(PatchStop::NotFound));
    }
    if hits.len() > 1 {
        return Ok(Err(PatchStop::Ambiguous(hits.len())));
    }
    let name_off = hits[0];
    assert(crate::text::matches_at(d0, old_name@, name_off as int));
    if name_off < 2 {
        return Ok(Err(PatchStop::NoHint));
    }
    assert(hits@ =~= seq![name_off]);
    let old_hint = read_u16_at(data.as_slice(), (name_off - 2) as u64)?;
    let renamed_ok = rename_import(data, name_off, old_name.len(), new_name);
    let ghost d1 = data@;
    let checksum = match zero_checksum(data) {
        Ok(c) => c,
        Err(e) => {
            return Err(e);
        },
    };
    let ghost d2 = data@;
    assert(checksum_step(d1) == Some(d2));
    let bcrypt = patch_delay_bcrypt(data)?;
    let synch = patch_synch_iat(data)?;
    let combase = patch_combase_iat(data)?;
    Ok(Ok(PatchReport { name_off, old_hint, checksum, bcrypt, synch, combase }))
}

} // verus!
