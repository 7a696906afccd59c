//! Binary codec for object files and executables.
//!
//! Every integer field is eight bytes little-endian; tags (section kind,
//! visibility, definition marker, patch kind) are one byte.  An object file
//! is a magic number and version, then the section table, the symbol table
//! and the relocation list, each with an explicit count; names are
//! length-prefixed byte strings, and symbol definitions and relocations name
//! their section by its index in the section table.  Deserialization
//! validates every declared length before reading and rejects ill-formed
//! values instead of guessing, and `deserialize(serialize(o))` reproduces
//! `o` exactly (the round-trip law, proved in [`lemma_object_round_trip`]).

use vstd::prelude::*;

use crate::errors::DecodeError;
use crate::model::{
    sec_idx, ExecutableV, ObjectFileV, PatchKind, RelocationV, SectionKind, SectionV, SymbolDefV,
    SymbolV, Visibility,
};

verus! {

/// Magic number opening a serialized object file.
pub open spec fn obj_magic() -> Seq<u8> {
    seq![0x4du8, 0x4fu8, 0x42u8, 0x4au8]
}

/// Magic number opening a serialized executable.
pub open spec fn exe_magic() -> Seq<u8> {
    seq![0x4du8, 0x45u8, 0x58u8, 0x45u8]
}

/// Format version written by this codec.
pub open spec fn format_version() -> u64 {
    1
}

/// Little-endian encoding of a 64-bit value.
pub open spec fn ser_u64(v: u64) -> Seq<u8> {
    seq![
        (v & 0xff) as u8,
        ((v >> 8) & 0xff) as u8,
        ((v >> 16) & 0xff) as u8,
        ((v >> 24) & 0xff) as u8,
        ((v >> 32) & 0xff) as u8,
        ((v >> 40) & 0xff) as u8,
        ((v >> 48) & 0xff) as u8,
        ((v >> 56) & 0xff) as u8,
    ]
}

/// A length-prefixed byte string.
pub open spec fn ser_bytes(s: Seq<u8>) -> Seq<u8> {
    ser_u64(s.len() as u64) + s
}

/// Tag byte of a section kind.
pub open spec fn kind_tag(k: SectionKind) -> u8 {
    match k {
        SectionKind::Code => 0,
        SectionKind::Data => 1,
    }
}

/// Tag byte of a visibility.
pub open spec fn vis_tag(v: Visibility) -> u8 {
    match v {
        Visibility::Local => 0,
        Visibility::Global => 1,
    }
}

/// Tag byte of a patch kind.
pub open spec fn patch_tag(k: PatchKind) -> u8 {
    match k {
        PatchKind::Abs1 => 0,
        PatchKind::Abs2 => 1,
    }
}

/// Encoding of one section.
pub open spec fn ser_section(s: SectionV) -> Seq<u8> {
    ser_bytes(s.name) + seq![kind_tag(s.kind)] + ser_u64(s.alignment as u64) + ser_bytes(s.data)
}

/// Encoding of a section table, in order.
pub open spec fn ser_sections(ss: Seq<SectionV>) -> Seq<u8>
    decreases ss.len(),
{
    if ss.len() == 0 {
        Seq::empty()
    } else {
        ser_section(ss[0]) + ser_sections(ss.subrange(1, ss.len() as int))
    }
}

/// Encoding of one symbol; a definition names its section by index into
/// `sections`.
pub open spec fn ser_symbol(s: SymbolV, sections: Seq<SectionV>) -> Seq<u8> {
    ser_bytes(s.name) + seq![vis_tag(s.visibility)] + match s.def {
        Option::Some(d) => seq![1u8] + ser_u64(sec_idx(sections, d.section).unwrap() as u64)
            + ser_u64(d.offset as u64),
        Option::None => seq![0u8],
    }
}

/// Encoding of a symbol table, in order.
pub open spec fn ser_symbols(ss: Seq<SymbolV>, sections: Seq<SectionV>) -> Seq<u8>
    decreases ss.len(),
{
    if ss.len() == 0 {
        Seq::empty()
    } else {
        ser_symbol(ss[0], sections) + ser_symbols(ss.subrange(1, ss.len() as int), sections)
    }
}

/// Encoding of one relocation.
pub open spec fn ser_reloc(r: RelocationV, sections: Seq<SectionV>) -> Seq<u8> {
    ser_u64(sec_idx(sections, r.section).unwrap() as u64) + ser_u64(r.offset as u64) + ser_bytes(
        r.symbol,
    ) + seq![patch_tag(r.kind)]
}

/// Encoding of a relocation list, in order.
pub open spec fn ser_relocs(rs: Seq<RelocationV>, sections: Seq<SectionV>) -> Seq<u8>
    decreases rs.len(),
{
    if rs.len() == 0 {
        Seq::empty()
    } else {
        ser_reloc(rs[0], sections) + ser_relocs(rs.subrange(1, rs.len() as int), sections)
    }
}

/// Encoding of a whole object file.
pub open spec fn ser_object(o: ObjectFileV) -> Seq<u8> {
    obj_magic() + ser_u64(format_version()) + ser_u64(o.sections.len() as u64) + ser_sections(
        o.sections,
    ) + ser_u64(o.symbols.len() as u64) + ser_symbols(o.symbols, o.sections) + ser_u64(
        o.relocations.len() as u64,
    ) + ser_relocs(o.relocations, o.sections)
}

/// Encoding of a whole executable.
pub open spec fn ser_executable(e: ExecutableV) -> Seq<u8> {
    exe_magic() + ser_u64(format_version()) + ser_u64(e.entry as u64) + ser_bytes(e.image)
}

/// Value of eight little-endian bytes at `pos`; meaningful when they exist.
pub open spec fn le_u64_at(b: Seq<u8>, pos: int) -> u64 {
    (b[pos] as u64) | ((b[pos + 1] as u64) << 8) | ((b[pos + 2] as u64) << 16) | ((b[pos + 3]
        as u64) << 24) | ((b[pos + 4] as u64) << 32) | ((b[pos + 5] as u64) << 40) | ((b[pos + 6]
        as u64) << 48) | ((b[pos + 7] as u64) << 56)
}

/// Decode a 64-bit field.
pub open spec fn de_u64(b: Seq<u8>, pos: int) -> Result<(u64, int), DecodeError> {
    if 0 <= pos && pos + 8 <= b.len() {
        Result::Ok((le_u64_at(b, pos), pos + 8))
    } else {
        Result::Err(DecodeError::Truncated)
    }
}

/// Decode a tag byte.
pub open spec fn de_u8(b: Seq<u8>, pos: int) -> Result<(u8, int), DecodeError> {
    if 0 <= pos && pos + 1 <= b.len() {
        Result::Ok((b[pos], pos + 1))
    } else {
        Result::Err(DecodeError::Truncated)
    }
}

/// Decode a length-prefixed byte string.
pub open spec fn de_bytes(b: Seq<u8>, pos: int) -> Result<(Seq<u8>, int), DecodeError> {
    match de_u64(b, pos) {
        Result::Ok((n, p)) => if p + n <= b.len() {
            Result::Ok((b.subrange(p, p + n), p + n))
        } else {
            Result::Err(DecodeError::Truncated)
        },
        Result::Err(e) => Result::Err(e),
    }
}

/// Decode one section.
pub open spec fn de_section(b: Seq<u8>, pos: int) -> Result<(SectionV, int), DecodeError> {
    match de_bytes(b, pos) {
        Result::Ok((name, p1)) => match de_u8(b, p1) {
            Result::Ok((kt, p2)) => if kt > 1 {
                Result::Err(DecodeError::InvalidFieldValue)
            } else {
                match de_u64(b, p2) {
                    Result::Ok((alignment, p3)) => if alignment == 0 || alignment > usize::MAX
                        as u64 {
                        Result::Err(DecodeError::InvalidFieldValue)
                    } else {
                        match de_bytes(b, p3) {
                            Result::Ok((data, p4)) => Result::Ok(
                                (
                                    SectionV {
                                        name,
                                        kind: if kt == 0 {
                                            SectionKind::Code
                                        } else {
                                            SectionKind::Data
                                        },
                                        alignment: alignment as nat,
                                        data,
                                    },
                                    p4,
                                ),
                            ),
                            Result::Err(e) => Result::Err(e),
                        }
                    },
                    Result::Err(e) => Result::Err(e),
                }
            },
            Result::Err(e) => Result::Err(e),
        },
        Result::Err(e) => Result::Err(e),
    }
}

/// Decode `n` sections.
pub open spec fn de_sections(b: Seq<u8>, pos: int, n: nat) -> Result<
    (Seq<SectionV>, int),
    DecodeError,
>
    decreases n,
{
    if n == 0 {
        Result::Ok((Seq::empty(), pos))
    } else {
        match de_section(b, pos) {
            Result::Ok((s, p)) => match de_sections(b, p, (n - 1) as nat) {
                Result::Ok((rest, q)) => Result::Ok((seq![s] + rest, q)),
                Result::Err(e) => Result::Err(e),
            },
            Result::Err(e) => Result::Err(e),
        }
    }
}

/// Decode one symbol against an already decoded section table.
pub open spec fn de_symbol(b: Seq<u8>, pos: int, sections: Seq<SectionV>) -> Result<
    (SymbolV, int),
    DecodeError,
> {
    match de_bytes(b, pos) {
        Result::Ok((name, p1)) => match de_u8(b, p1) {
            Result::Ok((vt, p2)) => if vt > 1 {
                Result::Err(DecodeError::InvalidFieldValue)
            } else {
                let visibility = if vt == 0 {
                    Visibility::Local
                } else {
                    Visibility::Global
                };
                match de_u8(b, p2) {
                    Result::Ok((tag, p3)) => if tag > 1 {
                        Result::Err(DecodeError::InvalidFieldValue)
                    } else if tag == 0 {
                        Result::Ok((SymbolV { name, visibility, def: Option::None }, p3))
                    } else {
                        match de_u64(b, p3) {
                            Result::Ok((idx, p4)) => if idx >= sections.len() {
                                Result::Err(DecodeError::InvalidFieldValue)
                            } else {
                                match de_u64(b, p4) {
                                    Result::Ok((off, p5)) => if off > usize::MAX as u64 {
                                        Result::Err(DecodeError::InvalidFieldValue)
                                    } else {
                                        Result::Ok(
                                            (
                                                SymbolV {
                                                    name,
                                                    visibility,
                                                    def: Option::Some(
                                                        SymbolDefV {
                                                            section: sections[idx as int].name,
                                                            offset: off as nat,
                                                        },
                                                    ),
                                                },
                                                p5,
                                            ),
                                        )
                                    },
                                    Result::Err(e) => Result::Err(e),
                                }
                            },
                            Result::Err(e) => Result::Err(e),
                        }
                    },
                    Result::Err(e) => Result::Err(e),
                }
            },
            Result::Err(e) => Result::Err(e),
        },
        Result::Err(e) => Result::Err(e),
    }
}

/// Decode `n` symbols.
pub open spec fn de_symbols(b: Seq<u8>, pos: int, n: nat, sections: Seq<SectionV>) -> Result<
    (Seq<SymbolV>, int),
    DecodeError,
>
    decreases n,
{
    if n == 0 {
        Result::Ok((Seq::empty(), pos))
    } else {
        match de_symbol(b, pos, sections) {
            Result::Ok((s, p)) => match de_symbols(b, p, (n - 1) as nat, sections) {
                Result::Ok((rest, q)) => Result::Ok((seq![s] + rest, q)),
                Result::Err(e) => Result::Err(e),
            },
            Result::Err(e) => Result::Err(e),
        }
    }
}

/// Decode one relocation against an already decoded section table.
pub open spec fn de_reloc(b: Seq<u8>, pos: int, sections: Seq<SectionV>) -> Result<
    (RelocationV, int),
    DecodeError,
> {
    match de_u64(b, pos) {
        Result::Ok((idx, p1)) => if idx >= sections.len() {
            Result::Err(DecodeError::InvalidFieldValue)
        } else {
            match de_u64(b, p1) {
                Result::Ok((off, p2)) => if off > usize::MAX as u64 {
                    Result::Err(DecodeError::InvalidFieldValue)
                } else {
                    match de_bytes(b, p2) {
                        Result::Ok((symbol, p3)) => match de_u8(b, p3) {
                            Result::Ok((kt, p4)) => if kt > 1 {
                                Result::Err(DecodeError::InvalidFieldValue)
                            } else {
                                Result::Ok(
                                    (
                                        RelocationV {
                                            section: sections[idx as int].name,
                                            offset: off as nat,
                                            symbol,
                                            kind: if kt == 0 {
                                                PatchKind::Abs1
                                            } else {
                                                PatchKind::Abs2
                                            },
                                        },
                                        p4,
                                    ),
                                )
                            },
                            Result::Err(e) => Result::Err(e),
                        },
                        Result::Err(e) => Result::Err(e),
                    }
                },
                Result::Err(e) => Result::Err(e),
            }
        },
        Result::Err(e) => Result::Err(e),
    }
}

/// Decode `n` relocations.
pub open spec fn de_relocs(b: Seq<u8>, pos: int, n: nat, sections: Seq<SectionV>) -> Result<
    (Seq<RelocationV>, int),
    DecodeError,
>
    decreases n,
{
    if n == 0 {
        Result::Ok((Seq::empty(), pos))
    } else {
        match de_reloc(b, pos, sections) {
            Result::Ok((r, p)) => match de_relocs(b, p, (n - 1) as nat, sections) {
                Result::Ok((rest, q)) => Result::Ok((seq![r] + rest, q)),
                Result::Err(e) => Result::Err(e),
            },
            Result::Err(e) => Result::Err(e),
        }
    }
}

/// Decode a count field, bounded by the machine word so the table can exist
/// in memory.
pub open spec fn de_count(b: Seq<u8>, pos: int) -> Result<(nat, int), DecodeError> {
    match de_u64(b, pos) {
        Result::Ok((n, p)) => if n > usize::MAX as u64 {
            Result::Err(DecodeError::InvalidFieldValue)
        } else {
            Result::Ok((n as nat, p))
        },
        Result::Err(e) => Result::Err(e),
    }
}

/// Decode a whole object file: header, tables, then the well-formedness
/// gate.  The returned position is the first byte after the encoding.
pub open spec fn de_object(b: Seq<u8>) -> Result<(ObjectFileV, int), DecodeError> {
    if b.len() < 4 {
        Result::Err(DecodeError::Truncated)
    } else if b.subrange(0, 4) != obj_magic() {
        Result::Err(DecodeError::MalformedHeader)
    } else {
        match de_u64(b, 4) {
            Result::Ok((ver, p0)) => if ver != format_version() {
                Result::Err(DecodeError::MalformedHeader)
            } else {
                match de_count(b, p0) {
                    Result::Ok((nsec, p1)) => match de_sections(b, p1, nsec) {
                        Result::Ok((sections, p2)) => match de_count(b, p2) {
                            Result::Ok((nsym, p3)) => match de_symbols(b, p3, nsym, sections) {
                                Result::Ok((symbols, p4)) => match de_count(b, p4) {
                                    Result::Ok((nrel, p5)) => match de_relocs(
                                        b,
                                        p5,
                                        nrel,
                                        sections,
                                    ) {
                                        Result::Ok((relocations, p6)) => {
                                            let o = ObjectFileV { sections, symbols, relocations };
                                            if o.wf() {
                                                Result::Ok((o, p6))
                                            } else {
                                                Result::Err(DecodeError::InvalidFieldValue)
                                            }
                                        },
                                        Result::Err(e) => Result::Err(e),
                                    },
                                    Result::Err(e) => Result::Err(e),
                                },
                                Result::Err(e) => Result::Err(e),
                            },
                            Result::Err(e) => Result::Err(e),
                        },
                        Result::Err(e) => Result::Err(e),
                    },
                    Result::Err(e) => Result::Err(e),
                }
            },
            Result::Err(e) => Result::Err(e),
        }
    }
}

/// Decode a whole executable.
pub open spec fn de_executable(b: Seq<u8>) -> Result<(ExecutableV, int), DecodeError> {
    if b.len() < 4 {
        Result::Err(DecodeError::Truncated)
    } else if b.subrange(0, 4) != exe_magic() {
        Result::Err(DecodeError::MalformedHeader)
    } else {
        match de_u64(b, 4) {
            Result::Ok((ver, p0)) => if ver != format_version() {
                Result::Err(DecodeError::MalformedHeader)
            } else {
                match de_u64(b, p0) {
                    Result::Ok((entry, p1)) => if entry > usize::MAX as u64 {
                        Result::Err(DecodeError::InvalidFieldValue)
                    } else {
                        match de_bytes(b, p1) {
                            Result::Ok((image, p2)) => Result::Ok(
                                (ExecutableV { entry: entry as nat, image }, p2),
                            ),
                            Result::Err(e) => Result::Err(e),
                        }
                    },
                    Result::Err(e) => Result::Err(e),
                }
            },
            Result::Err(e) => Result::Err(e),
        }
    }
}

} // verus!

use crate::model::{
    bytes_eq, copy_bytes, find_section, has_sec, lemma_sec_idx, patch_width, patch_width_of,
    sec_names_unique, sym_names_unique, Executable, ObjectFile, Relocation, Section, Symbol,
    SymbolDef,
};

verus! {

/// Append the little-endian encoding of `v`.
fn push_u64(out: &mut Vec<u8>, v: u64)
    ensures
        final(out)@ == old(out)@ + ser_u64(v),
{
    out.push((v & 0xff) as u8);
    out.push(((v >> 8) & 0xff) as u8);
    out.push(((v >> 16) & 0xff) as u8);
    out.push(((v >> 24) & 0xff) as u8);
    out.push(((v >> 32) & 0xff) as u8);
    out.push(((v >> 40) & 0xff) as u8);
    out.push(((v >> 48) & 0xff) as u8);
    out.push(((v >> 56) & 0xff) as u8);
    proof {
        assert(out@ =~= old(out)@ + ser_u64(v));
    }
}

/// Append a length-prefixed byte string.
fn push_bytes_field(out: &mut Vec<u8>, s: &Vec<u8>)
    ensures
        final(out)@ == old(out)@ + ser_bytes(s@),
{
    push_u64(out, s.len() as u64);
    let ghost mid = out@;
    let mut i: usize = 0;
    while i < s.len()
        invariant
            0 <= i <= s.len(),
            out@ == mid + s@.subrange(0, i as int),
            mid == old(out)@ + ser_u64(s@.len() as u64),
        decreases s.len() - i,
    {
        out.push(s[i]);
        proof {
            assert(out@ =~= mid + s@.subrange(0, i + 1));
        }
        i += 1;
    }
    proof {
        assert(s@.subrange(0, s@.len() as int) =~= s@);
        assert(out@ =~= old(out)@ + ser_bytes(s@));
    }
}

/// Tag byte of a section kind.
fn kind_tag_of(k: SectionKind) -> (r: u8)
    ensures
        r == kind_tag(k),
{
    match k {
        SectionKind::Code => 0,
        SectionKind::Data => 1,
    }
}

/// Tag byte of a visibility.
fn vis_tag_of(v: Visibility) -> (r: u8)
    ensures
        r == vis_tag(v),
{
    match v {
        Visibility::Local => 0,
        Visibility::Global => 1,
    }
}

/// Tag byte of a patch kind.
fn patch_tag_of(k: PatchKind) -> (r: u8)
    ensures
        r == patch_tag(k),
{
    match k {
        PatchKind::Abs1 => 0,
        PatchKind::Abs2 => 1,
    }
}

/// Append the encoding of one section.
fn push_section(out: &mut Vec<u8>, s: &Section)
    ensures
        final(out)@ == old(out)@ + ser_section(s@),
{
    push_bytes_field(out, &s.name);
    out.push(kind_tag_of(s.kind));
    push_u64(out, s.alignment as u64);
    push_bytes_field(out, &s.data);
    proof {
        assert(out@ =~= old(out)@ + ser_section(s@));
    }
}

/// Append the encoding of one symbol, indexing its section in `sections`.
fn push_symbol(out: &mut Vec<u8>, s: &Symbol, sections: &Vec<Section>)
    requires
        match s@.def {
            Option::Some(d) => has_sec(sections@.map_values(|x: Section| x@), d.section),
            Option::None => true,
        },
    ensures
        final(out)@ == old(out)@ + ser_symbol(s@, sections@.map_values(|x: Section| x@)),
{
    let ghost secv = sections@.map_values(|x: Section| x@);
    push_bytes_field(out, &s.name);
    out.push(vis_tag_of(s.visibility));
    match &s.def {
        Option::Some(d) => {
            out.push(1u8);
            let idx = match find_section(sections, &d.section) {
                Option::Some(i) => i,
                Option::None => {
                    proof {
                        assert(false);
                    }
                    0
                },
            };
            push_u64(out, idx as u64);
            push_u64(out, d.offset as u64);
        },
        Option::None => {
            out.push(0u8);
        },
    }
    proof {
        assert(out@ =~= old(out)@ + ser_symbol(s@, secv));
    }
}

/// Append the encoding of one relocation, indexing its section in `sections`.
fn push_reloc(out: &mut Vec<u8>, r: &Relocation, sections: &Vec<Section>)
    requires
        has_sec(sections@.map_values(|x: Section| x@), r@.section),
    ensures
        final(out)@ == old(out)@ + ser_reloc(r@, sections@.map_values(|x: Section| x@)),
{
    let ghost secv = sections@.map_values(|x: Section| x@);
    let idx = match find_section(sections, &r.section) {
        Option::Some(i) => i,
        Option::None => {
            proof {
                assert(false);
            }
            0
        },
    };
    push_u64(out, idx as u64);
    push_u64(out, r.offset as u64);
    push_bytes_field(out, &r.symbol);
    out.push(patch_tag_of(r.kind));
    proof {
        assert(out@ =~= old(out)@ + ser_reloc(r@, secv));
    }
}

/// Serialize an object file to bytes.
pub fn serialize_object(o: &ObjectFile) -> (r: Vec<u8>)
    requires
        o@.wf(),
    ensures
        r@ == ser_object(o@),
{
    let ghost secv = o@.sections;
    let mut out: Vec<u8> = Vec::new();
    out.push(0x4d);
    out.push(0x4f);
    out.push(0x42);
    out.push(0x4a);
    proof {
        assert(out@ =~= obj_magic());
    }
    push_u64(&mut out, 1);
    push_u64(&mut out, o.sections.len() as u64);
    let ghost pre_sections = out@;
    proof {
        assert(secv.subrange(0, secv.len() as int) =~= secv);
    }
    let mut i: usize = 0;
    while i < o.sections.len()
        invariant
            0 <= i <= o.sections.len(),
            secv == o@.sections,
            o@.wf(),
            secv.len() == o.sections.len(),
            out@ + ser_sections(secv.subrange(i as int, secv.len() as int)) == pre_sections
                + ser_sections(secv),
        decreases o.sections.len() - i,
    {
        push_section(&mut out, &o.sections[i]);
        proof {
            let rem = secv.subrange(i as int, secv.len() as int);
            assert(rem[0] == secv[i as int]);
            assert(rem.subrange(1, rem.len() as int) =~= secv.subrange(
                i + 1,
                secv.len() as int,
            ));
            assert(out@ + ser_sections(secv.subrange(i + 1, secv.len() as int)) =~= pre_sections
                + ser_sections(secv));
        }
        i += 1;
    }
    proof {
        assert(ser_sections(secv.subrange(secv.len() as int, secv.len() as int)) =~= Seq::<
            u8,
        >::empty());
        assert(out@ =~= pre_sections + ser_sections(secv));
    }
    push_u64(&mut out, o.symbols.len() as u64);
    let ghost symv = o@.symbols;
    let ghost pre_symbols = out@;
    proof {
        assert(symv.subrange(0, symv.len() as int) =~= symv);
    }
    let mut j: usize = 0;
    while j < o.symbols.len()
        invariant
            0 <= j <= o.symbols.len(),
            secv == o@.sections,
            symv == o@.symbols,
            o@.wf(),
            symv.len() == o.symbols.len(),
            out@ + ser_symbols(symv.subrange(j as int, symv.len() as int), secv) == pre_symbols
                + ser_symbols(symv, secv),
        decreases o.symbols.len() - j,
    {
        proof {
            assert(o@.symbols[j as int] == o.symbols@[j as int]@);
            match symv[j as int].def {
                Option::Some(d) => {
                    assert(sec_idx(o@.sections, d.section) is Some);
                },
                Option::None => {},
            }
        }
        push_symbol(&mut out, &o.symbols[j], &o.sections);
        proof {
            let rem = symv.subrange(j as int, symv.len() as int);
            assert(rem[0] == symv[j as int]);
            assert(rem.subrange(1, rem.len() as int) =~= symv.subrange(
                j + 1,
                symv.len() as int,
            ));
            assert(out@ + ser_symbols(symv.subrange(j + 1, symv.len() as int), secv)
                =~= pre_symbols + ser_symbols(symv, secv));
        }
        j += 1;
    }
    proof {
        assert(ser_symbols(symv.subrange(symv.len() as int, symv.len() as int), secv) =~= Seq::<
            u8,
        >::empty());
        assert(out@ =~= pre_symbols + ser_symbols(symv, secv));
    }
    push_u64(&mut out, o.relocations.len() as u64);
    let ghost relv = o@.relocations;
    let ghost pre_relocs = out@;
    proof {
        assert(relv.subrange(0, relv.len() as int) =~= relv);
    }
    let mut k: usize = 0;
    while k < o.relocations.len()
        invariant
            0 <= k <= o.relocations.len(),
            secv == o@.sections,
            relv == o@.relocations,
            o@.wf(),
            relv.len() == o.relocations.len(),
            out@ + ser_relocs(relv.subrange(k as int, relv.len() as int), secv) == pre_relocs
                + ser_relocs(relv, secv),
        decreases o.relocations.len() - k,
    {
        proof {
            assert(o@.relocations[k as int] == o.relocations@[k as int]@);
            assert(sec_idx(o@.sections, relv[k as int].section) is Some);
        }
        push_reloc(&mut out, &o.relocations[k], &o.sections);
        proof {
            let rem = relv.subrange(k as int, relv.len() as int);
            assert(rem[0] == relv[k as int]);
            assert(rem.subrange(1, rem.len() as int) =~= relv.subrange(
                k + 1,
                relv.len() as int,
            ));
            assert(out@ + ser_relocs(relv.subrange(k + 1, relv.len() as int), secv) =~= pre_relocs
                + ser_relocs(relv, secv));
        }
        k += 1;
    }
    proof {
        assert(ser_relocs(relv.subrange(relv.len() as int, relv.len() as int), secv) =~= Seq::<
            u8,
        >::empty());
        assert(out@ =~= pre_relocs + ser_relocs(relv, secv));
        assert(out@ =~= ser_object(o@));
    }
    out
}

/// Serialize an executable to bytes.
pub fn serialize_executable(e: &Executable) -> (r: Vec<u8>)
    ensures
        r@ == ser_executable(e@),
{
    let mut out: Vec<u8> = Vec::new();
    out.push(0x4d);
    out.push(0x45);
    out.push(0x58);
    out.push(0x45);
    proof {
        assert(out@ =~= exe_magic());
    }
    push_u64(&mut out, 1);
    push_u64(&mut out, e.entry as u64);
    push_bytes_field(&mut out, &e.image);
    proof {
        assert(out@ =~= ser_executable(e@));
    }
    out
}

} // verus!

verus! {

/// Read eight little-endian bytes.
fn read_u64(b: &Vec<u8>, pos: usize) -> (r: Result<(u64, usize), DecodeError>)
    ensures
        match r {
            Result::Ok((v, p)) => de_u64(b@, pos as int) == Result::<(u64, int), DecodeError>::Ok(
                (v, p as int),
            ) && p == pos + 8 && p <= b.len(),
            Result::Err(e) => de_u64(b@, pos as int) == Result::<(u64, int), DecodeError>::Err(e),
        },
{
    if b.len() < 8 || pos > b.len() - 8 {
        return Result::Err(DecodeError::Truncated);
    }
    let v: u64 = (b[pos] as u64) | ((b[pos + 1] as u64) << 8) | ((b[pos + 2] as u64) << 16) | ((b[
        pos + 3] as u64) << 24) | ((b[pos + 4] as u64) << 32) | ((b[pos + 5] as u64) << 40) | ((b[
        pos + 6] as u64) << 48) | ((b[pos + 7] as u64) << 56);
    Result::Ok((v, pos + 8))
}

/// Read one tag byte.
fn read_u8(b: &Vec<u8>, pos: usize) -> (r: Result<(u8, usize), DecodeError>)
    ensures
        match r {
            Result::Ok((v, p)) => de_u8(b@, pos as int) == Result::<(u8, int), DecodeError>::Ok(
                (v, p as int),
            ) && p == pos + 1 && p <= b.len(),
            Result::Err(e) => de_u8(b@, pos as int) == Result::<(u8, int), DecodeError>::Err(e),
        },
{
    if pos >= b.len() {
        return Result::Err(DecodeError::Truncated);
    }
    Result::Ok((b[pos], pos + 1))
}

/// Read a length-prefixed byte string.
fn read_bytes(b: &Vec<u8>, pos: usize) -> (r: Result<(Vec<u8>, usize), DecodeError>)
    ensures
        match r {
            Result::Ok((v, p)) => de_bytes(b@, pos as int) == Result::<
                (Seq<u8>, int),
                DecodeError,
            >::Ok((v@, p as int)) && pos <= p <= b.len(),
            Result::Err(e) => de_bytes(b@, pos as int) == Result::<(Seq<u8>, int), DecodeError>::Err(
                e,
            ),
        },
{
    match read_u64(b, pos) {
        Result::Err(e) => Result::Err(e),
        Result::Ok((n, p)) => {
            if n > (b.len() - p) as u64 {
                return Result::Err(DecodeError::Truncated);
            }
            let m = n as usize;
            let mut out: Vec<u8> = Vec::new();
            let mut i: usize = 0;
            while i < m
                invariant
                    0 <= i <= m,
                    p + m <= b.len(),
                    out@ == b@.subrange(p as int, p + i),
                decreases m - i,
            {
                out.push(b[p + i]);
                proof {
                    assert(out@ =~= b@.subrange(p as int, p + i + 1));
                }
                i += 1;
            }
            Result::Ok((out, p + m))
        },
    }
}

/// Read one section record.
fn read_section(b: &Vec<u8>, pos: usize) -> (r: Result<(Section, usize), DecodeError>)
    ensures
        match r {
            Result::Ok((s, p)) => de_section(b@, pos as int) == Result::<
                (SectionV, int),
                DecodeError,
            >::Ok((s@, p as int)) && pos <= p <= b.len(),
            Result::Err(e) => de_section(b@, pos as int) == Result::<
                (SectionV, int),
                DecodeError,
            >::Err(e),
        },
{
    let (name, p1) = match read_bytes(b, pos) {
        Result::Ok(x) => x,
        Result::Err(e) => {
            return Result::Err(e);
        },
    };
    let (kt, p2) = match read_u8(b, p1) {
        Result::Ok(x) => x,
        Result::Err(e) => {
            return Result::Err(e);
        },
    };
    if kt > 1 {
        return Result::Err(DecodeError::InvalidFieldValue);
    }
    let (alignment, p3) = match read_u64(b, p2) {
        Result::Ok(x) => x,
        Result::Err(e) => {
            return Result::Err(e);
        },
    };
    if alignment == 0 || alignment > usize::MAX as u64 {
        return Result::Err(DecodeError::InvalidFieldValue);
    }
    let (data, p4) = match read_bytes(b, p3) {
        Result::Ok(x) => x,
        Result::Err(e) => {
            return Result::Err(e);
        },
    };
    let s = Section {
        name,
        kind: if kt == 0 {
            SectionKind::Code
        } else {
            SectionKind::Data
        },
        alignment: alignment as usize,
        data,
    };
    proof {
        let spec_r = de_section(b@, pos as int);
        assert(spec_r matches Result::Ok((sv, p)) && sv =~= s@ && p == p4 as int);
    }
    Result::Ok((s, p4))
}

/// Read one symbol record against an already read section table.
fn read_symbol(b: &Vec<u8>, pos: usize, sections: &Vec<Section>) -> (r: Result<
    (Symbol, usize),
    DecodeError,
>)
    ensures
        match r {
            Result::Ok((s, p)) => de_symbol(b@, pos as int, sections@.map_values(|x: Section| x@))
                == Result::<(SymbolV, int), DecodeError>::Ok((s@, p as int)) && pos <= p <= b.len(),
            Result::Err(e) => de_symbol(b@, pos as int, sections@.map_values(|x: Section| x@))
                == Result::<(SymbolV, int), DecodeError>::Err(e),
        },
{
    let ghost secv = sections@.map_values(|x: Section| x@);
    let (name, p1) = match read_bytes(b, pos) {
        Result::Ok(x) => x,
        Result::Err(e) => {
            return Result::Err(e);
        },
    };
    let (vt, p2) = match read_u8(b, p1) {
        Result::Ok(x) => x,
        Result::Err(e) => {
            return Result::Err(e);
        },
    };
    if vt > 1 {
        return Result::Err(DecodeError::InvalidFieldValue);
    }
    let visibility = if vt == 0 {
        Visibility::Local
    } else {
        Visibility::Global
    };
    let (tag, p3) = match read_u8(b, p2) {
        Result::Ok(x) => x,
        Result::Err(e) => {
            return Result::Err(e);
        },
    };
    if tag > 1 {
        return Result::Err(DecodeError::InvalidFieldValue);
    }
    if tag == 0 {
        let s = Symbol { name, visibility, def: Option::None };
        proof {
            assert(de_symbol(b@, pos as int, secv) matches Result::Ok((sv, p)) && sv =~= s@ && p
                == p3 as int);
        }
        return Result::Ok((s, p3));
    }
    let (idx, p4) = match read_u64(b, p3) {
        Result::Ok(x) => x,
        Result::Err(e) => {
            return Result::Err(e);
        },
    };
    if idx >= sections.len() as u64 {
        return Result::Err(DecodeError::InvalidFieldValue);
    }
    let (off, p5) = match read_u64(b, p4) {
        Result::Ok(x) => x,
        Result::Err(e) => {
            return Result::Err(e);
        },
    };
    if off > usize::MAX as u64 {
        return Result::Err(DecodeError::InvalidFieldValue);
    }
    let s = Symbol {
        name,
        visibility,
        def: Option::Some(
            SymbolDef { section: copy_bytes(&sections[idx as usize].name), offset: off as usize },
        ),
    };
    proof {
        assert(de_symbol(b@, pos as int, secv) matches Result::Ok((sv, p)) && sv =~= s@ && p == p5
            as int);
    }
    Result::Ok((s, p5))
}

/// Read one relocation record against an already read section table.
fn read_reloc(b: &Vec<u8>, pos: usize, sections: &Vec<Section>) -> (r: Result<
    (Relocation, usize),
    DecodeError,
>)
    ensures
        match r {
            Result::Ok((s, p)) => de_reloc(b@, pos as int, sections@.map_values(|x: Section| x@))
                == Result::<(RelocationV, int), DecodeError>::Ok((s@, p as int)) && pos <= p
                <= b.len(),
            Result::Err(e) => de_reloc(b@, pos as int, sections@.map_values(|x: Section| x@))
                == Result::<(RelocationV, int), DecodeError>::Err(e),
        },
{
    let ghost secv = sections@.map_values(|x: Section| x@);
    let (idx, p1) = match read_u64(b, pos) {
        Result::Ok(x) => x,
        Result::Err(e) => {
            return Result::Err(e);
        },
    };
    if idx >= sections.len() as u64 {
        return Result::Err(DecodeError::InvalidFieldValue);
    }
    let (off, p2) = match read_u64(b, p1) {
        Result::Ok(x) => x,
        Result::Err(e) => {
            return Result::Err(e);
        },
    };
    if off > usize::MAX as u64 {
        return Result::Err(DecodeError::InvalidFieldValue);
    }
    let (symbol, p3) = match read_bytes(b, p2) {
        Result::Ok(x) => x,
        Result::Err(e) => {
            return Result::Err(e);
        },
    };
    let (kt, p4) = match read_u8(b, p3) {
        Result::Ok(x) => x,
        Result::Err(e) => {
            return Result::Err(e);
        },
    };
    if kt > 1 {
        return Result::Err(DecodeError::InvalidFieldValue);
    }
    let s = Relocation {
        section: copy_bytes(&sections[idx as usize].name),
        offset: off as usize,
        symbol,
        kind: if kt == 0 {
            PatchKind::Abs1
        } else {
            PatchKind::Abs2
        },
    };
    proof {
        assert(de_reloc(b@, pos as int, secv) matches Result::Ok((sv, p)) && sv =~= s@ && p == p4
            as int);
    }
    Result::Ok((s, p4))
}

} // verus!

verus! {

/// Decide well-formedness of an in-memory object file.
pub fn check_wf(o: &ObjectFile) -> (r: bool)
    ensures
        r == o@.wf(),
{
    let nsec = o.sections.len();
    let mut i: usize = 0;
    while i < nsec
        invariant
            0 <= i <= nsec,
            nsec == o.sections.len(),
            forall|a: int, c: int| 0 <= a < c < nsec && a < i ==> o@.sections[a].name
                != o@.sections[c].name,
            forall|a: int| 0 <= a < i ==> (#[trigger] o@.sections[a]).alignment >= 1,
        decreases nsec - i,
    {
        if o.sections[i].alignment == 0 {
            return false;
        }
        let mut j: usize = i + 1;
        while j < nsec
            invariant
                0 <= i < j <= nsec,
                nsec == o.sections.len(),
                forall|c: int| i < c < j ==> o@.sections[i as int].name != o@.sections[c].name,
            decreases nsec - j,
        {
            if bytes_eq(&o.sections[i].name, &o.sections[j].name) {
                proof {
                    assert(o@.sections[i as int].name == o@.sections[j as int].name);
                    assert(!sec_names_unique(o@.sections));
                }
                return false;
            }
            j += 1;
        }
        i += 1;
    }
    let nsym = o.symbols.len();
    let mut s: usize = 0;
    while s < nsym
        invariant
            0 <= s <= nsym,
            nsym == o.symbols.len(),
            forall|a: int, c: int| 0 <= a < c < nsym && a < s ==> o@.symbols[a].name
                != o@.symbols[c].name,
            forall|a: int| 0 <= a < s ==> match (#[trigger] o@.symbols[a]).def {
                Option::Some(d) => match sec_idx(o@.sections, d.section) {
                    Option::Some(j) => d.offset <= o@.sections[j].data.len(),
                    Option::None => false,
                },
                Option::None => true,
            },
        decreases nsym - s,
    {
        match &o.symbols[s].def {
            Option::Some(d) => {
                match find_section(&o.sections, &d.section) {
                    Option::Some(si) => {
                        if d.offset > o.sections[si].data.len() {
                            proof {
                                assert(o.sections@.map_values(|x: Section| x@) =~= o@.sections);
                                assert(o@.symbols[s as int].def == Option::Some(d@));
                                assert(sec_idx(o@.sections, d@.section) == Option::Some(
                                    si as int,
                                ));
                                assert(!o@.wf());
                            }
                            return false;
                        }
                    },
                    Option::None => {
                        proof {
                            assert(o.sections@.map_values(|x: Section| x@) =~= o@.sections);
                            assert(o@.symbols[s as int].def == Option::Some(d@));
                            assert(sec_idx(o@.sections, d@.section) is None);
                            assert(!o@.wf());
                        }
                        return false;
                    },
                }
            },
            Option::None => {},
        }
        let mut j: usize = s + 1;
        while j < nsym
            invariant
                0 <= s < j <= nsym,
                nsym == o.symbols.len(),
                forall|c: int| s < c < j ==> o@.symbols[s as int].name != o@.symbols[c].name,
            decreases nsym - j,
        {
            if bytes_eq(&o.symbols[s].name, &o.symbols[j].name) {
                proof {
                    assert(o@.symbols[s as int].name == o@.symbols[j as int].name);
                    assert(!sym_names_unique(o@.symbols));
                }
                return false;
            }
            j += 1;
        }
        s += 1;
    }
    let nrel = o.relocations.len();
    let mut k: usize = 0;
    while k < nrel
        invariant
            0 <= k <= nrel,
            nrel == o.relocations.len(),
            forall|a: int| 0 <= a < k ==> {
                let r = #[trigger] o@.relocations[a];
                match sec_idx(o@.sections, r.section) {
                    Option::Some(j) => r.offset + patch_width(r.kind) <= o@.sections[j].data.len(),
                    Option::None => false,
                }
            },
        decreases nrel - k,
    {
        let w = patch_width_of(o.relocations[k].kind);
        match find_section(&o.sections, &o.relocations[k].section) {
            Option::Some(si) => {
                let dlen = o.sections[si].data.len();
                if o.relocations[k].offset > dlen {
                    proof {
                        assert(o.sections@.map_values(|x: Section| x@) =~= o@.sections);
                        assert(o@.relocations[k as int] == o.relocations@[k as int]@);
                        assert(sec_idx(o@.sections, o@.relocations[k as int].section)
                            == Option::Some(si as int));
                        assert(!o@.wf());
                    }
                    return false;
                }
                if w > dlen - o.relocations[k].offset {
                    proof {
                        assert(o.sections@.map_values(|x: Section| x@) =~= o@.sections);
                        assert(o@.relocations[k as int] == o.relocations@[k as int]@);
                        assert(sec_idx(o@.sections, o@.relocations[k as int].section)
                            == Option::Some(si as int));
                        assert(!o@.wf());
                    }
                    return false;
                }
            },
            Option::None => {
                proof {
                    assert(o.sections@.map_values(|x: Section| x@) =~= o@.sections);
                    assert(o@.relocations[k as int] == o.relocations@[k as int]@);
                    assert(sec_idx(o@.sections, o@.relocations[k as int].section) is None);
                    assert(!o@.wf());
                }
                return false;
            },
        }
        k += 1;
    }
    true
}

/// Read `n` section records.
fn read_sections(b: &Vec<u8>, pos: usize, n: usize) -> (r: Result<
    (Vec<Section>, usize),
    DecodeError,
>)
    requires
        pos <= b.len(),
    ensures
        match r {
            Result::Ok((ss, p)) => de_sections(b@, pos as int, n as nat) == Result::<
                (Seq<SectionV>, int),
                DecodeError,
            >::Ok((ss@.map_values(|x: Section| x@), p as int)) && p <= b.len(),
            Result::Err(e) => de_sections(b@, pos as int, n as nat) == Result::<
                (Seq<SectionV>, int),
                DecodeError,
            >::Err(e),
        },
{
    let mut out: Vec<Section> = Vec::new();
    let mut cur: usize = pos;
    let mut i: usize = 0;
    while i < n
        invariant
            0 <= i <= n,
            cur <= b.len(),
            de_sections(b@, pos as int, n as nat) == (match de_sections(
                b@,
                cur as int,
                (n - i) as nat,
            ) {
                Result::Ok((rest, q)) => Result::<(Seq<SectionV>, int), DecodeError>::Ok(
                    (out@.map_values(|x: Section| x@) + rest, q),
                ),
                Result::Err(e) => Result::<(Seq<SectionV>, int), DecodeError>::Err(e),
            }),
        decreases n - i,
    {
        let (s, p) = match read_section(b, cur) {
            Result::Ok(x) => x,
            Result::Err(e) => {
                return Result::Err(e);
            },
        };
        proof {
            match de_sections(b@, p as int, (n - i - 1) as nat) {
                Result::Ok((rest, q)) => {
                    assert(out@.map_values(|x: Section| x@) + (seq![s@] + rest) =~= out@.push(
                        s,
                    ).map_values(|x: Section| x@) + rest);
                },
                Result::Err(e) => {},
            }
        }
        out.push(s);
        cur = p;
        i += 1;
    }
    proof {
        assert(out@.map_values(|x: Section| x@) + Seq::<SectionV>::empty() =~= out@.map_values(
            |x: Section| x@,
        ));
    }
    Result::Ok((out, cur))
}

/// Read `n` symbol records.
fn read_symbols(b: &Vec<u8>, pos: usize, n: usize, sections: &Vec<Section>) -> (r: Result<
    (Vec<Symbol>, usize),
    DecodeError,
>)
    requires
        pos <= b.len(),
    ensures
        match r {
            Result::Ok((ss, p)) => de_symbols(
                b@,
                pos as int,
                n as nat,
                sections@.map_values(|x: Section| x@),
            ) == Result::<(Seq<SymbolV>, int), DecodeError>::Ok(
                (ss@.map_values(|x: Symbol| x@), p as int),
            ) && p <= b.len(),
            Result::Err(e) => de_symbols(
                b@,
                pos as int,
                n as nat,
                sections@.map_values(|x: Section| x@),
            ) == Result::<(Seq<SymbolV>, int), DecodeError>::Err(e),
        },
{
    let ghost secv = sections@.map_values(|x: Section| x@);
    let mut out: Vec<Symbol> = Vec::new();
    let mut cur: usize = pos;
    let mut i: usize = 0;
    while i < n
        invariant
            0 <= i <= n,
            cur <= b.len(),
            secv == sections@.map_values(|x: Section| x@),
            de_symbols(b@, pos as int, n as nat, secv) == (match de_symbols(
                b@,
                cur as int,
                (n - i) as nat,
                secv,
            ) {
                Result::Ok((rest, q)) => Result::<(Seq<SymbolV>, int), DecodeError>::Ok(
                    (out@.map_values(|x: Symbol| x@) + rest, q),
                ),
                Result::Err(e) => Result::<(Seq<SymbolV>, int), DecodeError>::Err(e),
            }),
        decreases n - i,
    {
        let (s, p) = match read_symbol(b, cur, sections) {
            Result::Ok(x) => x,
            Result::Err(e) => {
                return Result::Err(e);
            },
        };
        proof {
            match de_symbols(b@, p as int, (n - i - 1) as nat, secv) {
                Result::Ok((rest, q)) => {
                    assert(out@.map_values(|x: Symbol| x@) + (seq![s@] + rest) =~= out@.push(
                        s,
                    ).map_values(|x: Symbol| x@) + rest);
                },
                Result::Err(e) => {},
            }
        }
        out.push(s);
        cur = p;
        i += 1;
    }
    proof {
        assert(out@.map_values(|x: Symbol| x@) + Seq::<SymbolV>::empty() =~= out@.map_values(
            |x: Symbol| x@,
        ));
    }
    Result::Ok((out, cur))
}

/// Read `n` relocation records.
fn read_relocs(b: &Vec<u8>, pos: usize, n: usize, sections: &Vec<Section>) -> (r: Result<
    (Vec<Relocation>, usize),
    DecodeError,
>)
    requires
        pos <= b.len(),
    ensures
        match r {
            Result::Ok((ss, p)) => de_relocs(
                b@,
                pos as int,
                n as nat,
                sections@.map_values(|x: Section| x@),
            ) == Result::<(Seq<RelocationV>, int), DecodeError>::Ok(
                (ss@.map_values(|x: Relocation| x@), p as int),
            ) && p <= b.len(),
            Result::Err(e) => de_relocs(
                b@,
                pos as int,
                n as nat,
                sections@.map_values(|x: Section| x@),
            ) == Result::<(Seq<RelocationV>, int), DecodeError>::Err(e),
        },
{
    let ghost secv = sections@.map_values(|x: Section| x@);
    let mut out: Vec<Relocation> = Vec::new();
    let mut cur: usize = pos;
    let mut i: usize = 0;
    while i < n
        invariant
            0 <= i <= n,
            cur <= b.len(),
            secv == sections@.map_values(|x: Section| x@),
            de_relocs(b@, pos as int, n as nat, secv) == (match de_relocs(
                b@,
                cur as int,
                (n - i) as nat,
                secv,
            ) {
                Result::Ok((rest, q)) => Result::<(Seq<RelocationV>, int), DecodeError>::Ok(
                    (out@.map_values(|x: Relocation| x@) + rest, q),
                ),
                Result::Err(e) => Result::<(Seq<RelocationV>, int), DecodeError>::Err(e),
            }),
        decreases n - i,
    {
        let (s, p) = match read_reloc(b, cur, sections) {
            Result::Ok(x) => x,
            Result::Err(e) => {
                return Result::Err(e);
            },
        };
        proof {
            match de_relocs(b@, p as int, (n - i - 1) as nat, secv) {
                Result::Ok((rest, q)) => {
                    assert(out@.map_values(|x: Relocation| x@) + (seq![s@] + rest) =~= out@.push(
                        s,
                    ).map_values(|x: Relocation| x@) + rest);
                },
                Result::Err(e) => {},
            }
        }
        out.push(s);
        cur = p;
        i += 1;
    }
    proof {
        assert(out@.map_values(|x: Relocation| x@) + Seq::<RelocationV>::empty()
            =~= out@.map_values(|x: Relocation| x@));
    }
    Result::Ok((out, cur))
}

/// Deserialize an object file from bytes; on success, the returned position
/// is the number of bytes consumed and the value is well-formed.
pub fn deserialize_object(b: &Vec<u8>) -> (r: Result<(ObjectFile, usize), DecodeError>)
    ensures
        match r {
            Result::Ok((o, p)) => de_object(b@) == Result::<(ObjectFileV, int), DecodeError>::Ok(
                (o@, p as int),
            ) && p <= b.len() && o@.wf(),
            Result::Err(e) => de_object(b@) == Result::<(ObjectFileV, int), DecodeError>::Err(e),
        },
{
    if b.len() < 4 {
        return Result::Err(DecodeError::Truncated);
    }
    if b[0] != 0x4d || b[1] != 0x4f || b[2] != 0x42 || b[3] != 0x4a {
        proof {
            assert(b@.subrange(0, 4) != obj_magic()) by {
                if b@.subrange(0, 4) == obj_magic() {
                    assert(b@.subrange(0, 4)[0] == 0x4du8);
                    assert(b@.subrange(0, 4)[1] == 0x4fu8);
                    assert(b@.subrange(0, 4)[2] == 0x42u8);
                    assert(b@.subrange(0, 4)[3] == 0x4au8);
                }
            }
        }
        return Result::Err(DecodeError::MalformedHeader);
    }
    proof {
        assert(b@.subrange(0, 4) =~= obj_magic());
    }
    let (ver, p0) = match read_u64(b, 4) {
        Result::Ok(x) => x,
        Result::Err(e) => {
            return Result::Err(e);
        },
    };
    if ver != 1 {
        return Result::Err(DecodeError::MalformedHeader);
    }
    let (nsec, p1) = match read_u64(b, p0) {
        Result::Ok(x) => x,
        Result::Err(e) => {
            return Result::Err(e);
        },
    };
    if nsec > usize::MAX as u64 {
        return Result::Err(DecodeError::InvalidFieldValue);
    }
    let (sections, p2) = match read_sections(b, p1, nsec as usize) {
        Result::Ok(x) => x,
        Result::Err(e) => {
            return Result::Err(e);
        },
    };
    let (nsym, p3) = match read_u64(b, p2) {
        Result::Ok(x) => x,
        Result::Err(e) => {
            return Result::Err(e);
        },
    };
    if nsym > usize::MAX as u64 {
        return Result::Err(DecodeError::InvalidFieldValue);
    }
    let (symbols, p4) = match read_symbols(b, p3, nsym as usize, &sections) {
        Result::Ok(x) => x,
        Result::Err(e) => {
            return Result::Err(e);
        },
    };
    let (nrel, p5) = match read_u64(b, p4) {
        Result::Ok(x) => x,
        Result::Err(e) => {
            return Result::Err(e);
        },
    };
    if nrel > usize::MAX as u64 {
        return Result::Err(DecodeError::InvalidFieldValue);
    }
    let (relocations, p6) = match read_relocs(b, p5, nrel as usize, &sections) {
        Result::Ok(x) => x,
        Result::Err(e) => {
            return Result::Err(e);
        },
    };
    let o = ObjectFile { sections, symbols, relocations };
    if !check_wf(&o) {
        return Result::Err(DecodeError::InvalidFieldValue);
    }
    Result::Ok((o, p6))
}

/// Deserialize an executable from bytes; on success, the returned position
/// is the number of bytes consumed.
pub fn deserialize_executable(b: &Vec<u8>) -> (r: Result<(Executable, usize), DecodeError>)
    ensures
        match r {
            Result::Ok((e, p)) => de_executable(b@) == Result::<
                (ExecutableV, int),
                DecodeError,
            >::Ok((e@, p as int)) && p <= b.len(),
            Result::Err(e) => de_executable(b@) == Result::<(ExecutableV, int), DecodeError>::Err(
                e,
            ),
        },
{
    if b.len() < 4 {
        return Result::Err(DecodeError::Truncated);
    }
    if b[0] != 0x4d || b[1] != 0x45 || b[2] != 0x58 || b[3] != 0x45 {
        proof {
            assert(b@.subrange(0, 4) != exe_magic()) by {
                if b@.subrange(0, 4) == exe_magic() {
                    assert(b@.subrange(0, 4)[0] == 0x4du8);
                    assert(b@.subrange(0, 4)[1] == 0x45u8);
                    assert(b@.subrange(0, 4)[2] == 0x58u8);
                    assert(b@.subrange(0, 4)[3] == 0x45u8);
                }
            }
        }
        return Result::Err(DecodeError::MalformedHeader);
    }
    proof {
        assert(b@.subrange(0, 4) =~= exe_magic());
    }
    let (ver, p0) = match read_u64(b, 4) {
        Result::Ok(x) => x,
        Result::Err(e) => {
            return Result::Err(e);
        },
    };
    if ver != 1 {
        return Result::Err(DecodeError::MalformedHeader);
    }
    let (entry, p1) = match read_u64(b, p0) {
        Result::Ok(x) => x,
        Result::Err(e) => {
            return Result::Err(e);
        },
    };
    if entry > usize::MAX as u64 {
        return Result::Err(DecodeError::InvalidFieldValue);
    }
    let (image, p2) = match read_bytes(b, p1) {
        Result::Ok(x) => x,
        Result::Err(e) => {
            return Result::Err(e);
        },
    };
    let e = Executable { entry: entry as usize, image };
    proof {
        assert(de_executable(b@) matches Result::Ok((ev, p)) && ev =~= e@ && p == p2 as int);
    }
    Result::Ok((e, p2))
}

} // verus!

verus! {

/// `b` holds exactly `s` starting at `pos`.
pub open spec fn starts_with_at(b: Seq<u8>, pos: int, s: Seq<u8>) -> bool {
    0 <= pos && pos + s.len() <= b.len() && b.subrange(pos, pos + s.len() as int) == s
}

/// A concatenation at `pos` splits into its two parts.
proof fn lemma_starts_split(b: Seq<u8>, pos: int, s1: Seq<u8>, s2: Seq<u8>)
    requires
        starts_with_at(b, pos, s1 + s2),
    ensures
        starts_with_at(b, pos, s1),
        starts_with_at(b, pos + s1.len(), s2),
{
    let whole = b.subrange(pos, pos + s1.len() + s2.len());
    assert forall|k: int| 0 <= k < s1.len() implies b[pos + k] == s1[k] by {
        assert(whole[k] == b[pos + k]);
        assert((s1 + s2)[k] == s1[k]);
    }
    assert(b.subrange(pos, pos + s1.len() as int) =~= s1);
    assert forall|k: int| 0 <= k < s2.len() implies b[pos + s1.len() + k] == s2[k] by {
        assert(whole[s1.len() + k] == b[pos + s1.len() + k]);
        assert((s1 + s2)[s1.len() + k] == s2[k]);
    }
    assert(b.subrange(pos + s1.len(), pos + s1.len() + s2.len()) =~= s2);
}

/// Eight little-endian bytes of `v` reassemble to `v`.
proof fn lemma_u64_le(v: u64)
    ensures
        (((v & 0xff) as u8 as u64) | (((v >> 8) & 0xff) as u8 as u64) << 8 | (((v >> 16) & 0xff)
            as u8 as u64) << 16 | (((v >> 24) & 0xff) as u8 as u64) << 24 | (((v >> 32) & 0xff)
            as u8 as u64) << 32 | (((v >> 40) & 0xff) as u8 as u64) << 40 | (((v >> 48) & 0xff)
            as u8 as u64) << 48 | (((v >> 56) & 0xff) as u8 as u64) << 56) == v,
{
    assert((((v & 0xff) as u8 as u64) | (((v >> 8) & 0xff) as u8 as u64) << 8 | (((v >> 16) & 0xff)
        as u8 as u64) << 16 | (((v >> 24) & 0xff) as u8 as u64) << 24 | (((v >> 32) & 0xff) as u8
        as u64) << 32 | (((v >> 40) & 0xff) as u8 as u64) << 40 | (((v >> 48) & 0xff) as u8 as u64)
        << 48 | (((v >> 56) & 0xff) as u8 as u64) << 56) == v) by (bit_vector);
}

/// Decoding inverts `ser_u64`.
proof fn lemma_rt_u64(b: Seq<u8>, pos: int, v: u64)
    requires
        starts_with_at(b, pos, ser_u64(v)),
    ensures
        de_u64(b, pos) == Result::<(u64, int), DecodeError>::Ok((v, pos + 8)),
{
    let s = ser_u64(v);
    assert(forall|k: int| 0 <= k < 8 ==> b[pos + k] == #[trigger] s[k]);
    lemma_u64_le(v);
}

/// Decoding inverts `ser_bytes`.
proof fn lemma_rt_bytes(b: Seq<u8>, pos: int, s: Seq<u8>)
    requires
        starts_with_at(b, pos, ser_bytes(s)),
        s.len() <= usize::MAX,
    ensures
        de_bytes(b, pos) == Result::<(Seq<u8>, int), DecodeError>::Ok((s, pos + 8 + s.len())),
{
    lemma_starts_split(b, pos, ser_u64(s.len() as u64), s);
    lemma_rt_u64(b, pos, s.len() as u64);
    assert(s.len() as u64 as int == s.len() as int);
    assert(b.subrange(pos + 8, pos + 8 + s.len()) == s);
}

/// Decoding inverts `ser_section`.
proof fn lemma_rt_section(b: Seq<u8>, pos: int, s: SectionV)
    requires
        starts_with_at(b, pos, ser_section(s)),
        1 <= s.alignment <= usize::MAX,
        s.name.len() <= usize::MAX,
        s.data.len() <= usize::MAX,
    ensures
        de_section(b, pos) == Result::<(SectionV, int), DecodeError>::Ok(
            (s, pos + ser_section(s).len()),
        ),
{
    let part1 = ser_bytes(s.name);
    let part2 = seq![kind_tag(s.kind)];
    let part3 = ser_u64(s.alignment as u64);
    let part4 = ser_bytes(s.data);
    lemma_starts_split(b, pos, part1 + part2 + part3, part4);
    lemma_starts_split(b, pos, part1 + part2, part3);
    lemma_starts_split(b, pos, part1, part2);
    let p1 = pos + part1.len();
    let p2 = p1 + 1;
    let p3 = p2 + 8;
    lemma_rt_bytes(b, pos, s.name);
    assert(b[p1] == kind_tag(s.kind)) by {
        assert(b.subrange(p1, p1 + 1)[0] == kind_tag(s.kind));
    }
    lemma_rt_u64(b, p2, s.alignment as u64);
    lemma_rt_bytes(b, p3, s.data);
    match de_section(b, pos) {
        Result::Ok((sv, p)) => {
            assert(sv =~= s);
            assert(p == pos + ser_section(s).len());
        },
        Result::Err(_) => {
            assert(false);
        },
    }
}

/// Decoding inverts `ser_sections`.
proof fn lemma_rt_sections(b: Seq<u8>, pos: int, ss: Seq<SectionV>)
    requires
        starts_with_at(b, pos, ser_sections(ss)),
        forall|i: int| 0 <= i < ss.len() ==> {
            let s = #[trigger] ss[i];
            1 <= s.alignment <= usize::MAX && s.name.len() <= usize::MAX && s.data.len()
                <= usize::MAX
        },
    ensures
        de_sections(b, pos, ss.len()) == Result::<(Seq<SectionV>, int), DecodeError>::Ok(
            (ss, pos + ser_sections(ss).len()),
        ),
    decreases ss.len(),
{
    if ss.len() == 0 {
        assert(Seq::<SectionV>::empty() =~= ss);
    } else {
        let tail = ss.subrange(1, ss.len() as int);
        lemma_starts_split(b, pos, ser_section(ss[0]), ser_sections(tail));
        lemma_rt_section(b, pos, ss[0]);
        let p = pos + ser_section(ss[0]).len();
        assert(forall|i: int| 0 <= i < tail.len() ==> tail[i] == ss[i + 1]);
        lemma_rt_sections(b, p, tail);
        match de_sections(b, pos, ss.len() as nat) {
            Result::Ok((got, q)) => {
                assert(got =~= ss);
            },
            Result::Err(_) => {
                assert(false);
            },
        }
    }
}

/// Decoding inverts `ser_symbol`.
proof fn lemma_rt_symbol(b: Seq<u8>, pos: int, s: SymbolV, sections: Seq<SectionV>)
    requires
        starts_with_at(b, pos, ser_symbol(s, sections)),
        s.name.len() <= usize::MAX,
        sections.len() <= usize::MAX,
        match s.def {
            Option::Some(d) => has_sec(sections, d.section) && d.offset <= usize::MAX,
            Option::None => true,
        },
    ensures
        de_symbol(b, pos, sections) == Result::<(SymbolV, int), DecodeError>::Ok(
            (s, pos + ser_symbol(s, sections).len()),
        ),
{
    let part1 = ser_bytes(s.name);
    let part2 = seq![vis_tag(s.visibility)];
    match s.def {
        Option::None => {
            let part3 = seq![0u8];
            lemma_starts_split(b, pos, part1 + part2, part3);
            lemma_starts_split(b, pos, part1, part2);
            let p1 = pos + part1.len();
            lemma_rt_bytes(b, pos, s.name);
            assert(b[p1] == vis_tag(s.visibility)) by {
                assert(b.subrange(p1, p1 + 1)[0] == vis_tag(s.visibility));
            }
            assert(b[p1 + 1] == 0u8) by {
                assert(b.subrange(p1 + 1, p1 + 2)[0] == 0u8);
            }
            match de_symbol(b, pos, sections) {
                Result::Ok((sv, p)) => {
                    assert(sv =~= s);
                },
                Result::Err(_) => {
                    assert(false);
                },
            }
        },
        Option::Some(d) => {
            lemma_sec_idx(sections, d.section);
            let idx = sec_idx(sections, d.section).unwrap();
            let part3 = seq![1u8] + ser_u64(idx as u64) + ser_u64(d.offset as u64);
            lemma_starts_split(b, pos, part1 + part2, part3);
            lemma_starts_split(b, pos, part1, part2);
            let p1 = pos + part1.len();
            let p2 = p1 + 1;
            lemma_rt_bytes(b, pos, s.name);
            assert(b[p1] == vis_tag(s.visibility)) by {
                assert(b.subrange(p1, p1 + 1)[0] == vis_tag(s.visibility));
            }
            lemma_starts_split(b, p2, seq![1u8] + ser_u64(idx as u64), ser_u64(d.offset as u64));
            lemma_starts_split(b, p2, seq![1u8], ser_u64(idx as u64));
            assert(b[p2] == 1u8) by {
                assert(b.subrange(p2, p2 + 1)[0] == 1u8);
            }
            lemma_rt_u64(b, p2 + 1, idx as u64);
            lemma_rt_u64(b, p2 + 9, d.offset as u64);
            assert(sections[idx].name == d.section);
            match de_symbol(b, pos, sections) {
                Result::Ok((sv, p)) => {
                    assert(sv =~= s);
                    assert(p == pos + ser_symbol(s, sections).len());
                },
                Result::Err(_) => {
                    assert(false);
                },
            }
        },
    }
}

/// Decoding inverts `ser_symbols`.
proof fn lemma_rt_symbols(b: Seq<u8>, pos: int, ss: Seq<SymbolV>, sections: Seq<SectionV>)
    requires
        starts_with_at(b, pos, ser_symbols(ss, sections)),
        sections.len() <= usize::MAX,
        forall|i: int| 0 <= i < ss.len() ==> {
            let s = #[trigger] ss[i];
            s.name.len() <= usize::MAX && match s.def {
                Option::Some(d) => has_sec(sections, d.section) && d.offset <= usize::MAX,
                Option::None => true,
            }
        },
    ensures
        de_symbols(b, pos, ss.len(), sections) == Result::<(Seq<SymbolV>, int), DecodeError>::Ok(
            (ss, pos + ser_symbols(ss, sections).len()),
        ),
    decreases ss.len(),
{
    if ss.len() == 0 {
        assert(Seq::<SymbolV>::empty() =~= ss);
    } else {
        let tail = ss.subrange(1, ss.len() as int);
        lemma_starts_split(b, pos, ser_symbol(ss[0], sections), ser_symbols(tail, sections));
        lemma_rt_symbol(b, pos, ss[0], sections);
        let p = pos + ser_symbol(ss[0], sections).len();
        assert(forall|i: int| 0 <= i < tail.len() ==> tail[i] == ss[i + 1]);
        lemma_rt_symbols(b, p, tail, sections);
        match de_symbols(b, pos, ss.len() as nat, sections) {
            Result::Ok((got, q)) => {
                assert(got =~= ss);
            },
            Result::Err(_) => {
                assert(false);
            },
        }
    }
}

/// Decoding inverts `ser_reloc`.
proof fn lemma_rt_reloc(b: Seq<u8>, pos: int, r: RelocationV, sections: Seq<SectionV>)
    requires
        starts_with_at(b, pos, ser_reloc(r, sections)),
        r.symbol.len() <= usize::MAX,
        sections.len() <= usize::MAX,
        has_sec(sections, r.section),
        r.offset <= usize::MAX,
    ensures
        de_reloc(b, pos, sections) == Result::<(RelocationV, int), DecodeError>::Ok(
            (r, pos + ser_reloc(r, sections).len()),
        ),
{
    lemma_sec_idx(sections, r.section);
    let idx = sec_idx(sections, r.section).unwrap();
    let part1 = ser_u64(idx as u64);
    let part2 = ser_u64(r.offset as u64);
    let part3 = ser_bytes(r.symbol);
    let part4 = seq![patch_tag(r.kind)];
    lemma_starts_split(b, pos, part1 + part2 + part3, part4);
    lemma_starts_split(b, pos, part1 + part2, part3);
    lemma_starts_split(b, pos, part1, part2);
    let p1 = pos + 8;
    let p2 = p1 + 8;
    let p3 = p2 + part3.len();
    lemma_rt_u64(b, pos, idx as u64);
    lemma_rt_u64(b, p1, r.offset as u64);
    lemma_rt_bytes(b, p2, r.symbol);
    assert(b[p3] == patch_tag(r.kind)) by {
        assert(b.subrange(p3, p3 + 1)[0] == patch_tag(r.kind));
    }
    assert(sections[idx].name == r.section);
    match de_reloc(b, pos, sections) {
        Result::Ok((rv, p)) => {
            assert(rv =~= r);
            assert(p == pos + ser_reloc(r, sections).len());
        },
        Result::Err(_) => {
            assert(false);
        },
    }
}

/// Decoding inverts `ser_relocs`.
proof fn lemma_rt_relocs(b: Seq<u8>, pos: int, rs: Seq<RelocationV>, sections: Seq<SectionV>)
    requires
        starts_with_at(b, pos, ser_relocs(rs, sections)),
        sections.len() <= usize::MAX,
        forall|i: int| 0 <= i < rs.len() ==> {
            let r = #[trigger] rs[i];
            r.symbol.len() <= usize::MAX && has_sec(sections, r.section) && r.offset <= usize::MAX
        },
    ensures
        de_relocs(b, pos, rs.len(), sections) == Result::<
            (Seq<RelocationV>, int),
            DecodeError,
        >::Ok((rs, pos + ser_relocs(rs, sections).len())),
    decreases rs.len(),
{
    if rs.len() == 0 {
        assert(Seq::<RelocationV>::empty() =~= rs);
    } else {
        let tail = rs.subrange(1, rs.len() as int);
        lemma_starts_split(b, pos, ser_reloc(rs[0], sections), ser_relocs(tail, sections));
        lemma_rt_reloc(b, pos, rs[0], sections);
        let p = pos + ser_reloc(rs[0], sections).len();
        assert(forall|i: int| 0 <= i < tail.len() ==> tail[i] == rs[i + 1]);
        lemma_rt_relocs(b, p, tail, sections);
        match de_relocs(b, pos, rs.len() as nat, sections) {
            Result::Ok((got, q)) => {
                assert(got =~= rs);
            },
            Result::Err(_) => {
                assert(false);
            },
        }
    }
}

/// Where each piece of `ser_object(o)` lies.
#[verifier::rlimit(100)]
proof fn lemma_object_layout(o: ObjectFileV)
    ensures
        ser_object(o).subrange(0, 4) == obj_magic(),
        ser_object(o).len() == 36 + ser_sections(o.sections).len() + ser_symbols(
            o.symbols,
            o.sections,
        ).len() + ser_relocs(o.relocations, o.sections).len(),
        starts_with_at(ser_object(o), 4, ser_u64(format_version())),
        starts_with_at(ser_object(o), 12, ser_u64(o.sections.len() as u64)),
        starts_with_at(ser_object(o), 20, ser_sections(o.sections)),
        starts_with_at(
            ser_object(o),
            20 + ser_sections(o.sections).len() as int,
            ser_u64(o.symbols.len() as u64),
        ),
        starts_with_at(
            ser_object(o),
            28 + ser_sections(o.sections).len() as int,
            ser_symbols(o.symbols, o.sections),
        ),
        starts_with_at(
            ser_object(o),
            28 + ser_sections(o.sections).len() as int + ser_symbols(o.symbols, o.sections).len() as int,
            ser_u64(o.relocations.len() as u64),
        ),
        starts_with_at(
            ser_object(o),
            36 + ser_sections(o.sections).len() as int + ser_symbols(o.symbols, o.sections).len() as int,
            ser_relocs(o.relocations, o.sections),
        ),
{
    let b = ser_object(o);
    let part1 = obj_magic();
    let part2 = ser_u64(format_version());
    let part3 = ser_u64(o.sections.len() as u64);
    let part4 = ser_sections(o.sections);
    let part5 = ser_u64(o.symbols.len() as u64);
    let part6 = ser_symbols(o.symbols, o.sections);
    let part7 = ser_u64(o.relocations.len() as u64);
    let part8 = ser_relocs(o.relocations, o.sections);
    assert(starts_with_at(b, 0, part1 + part2 + part3 + part4 + part5 + part6 + part7 + part8))
        by {
        assert(b.subrange(0, b.len() as int) =~= b);
    }
    lemma_starts_split(b, 0, part1 + part2 + part3 + part4 + part5 + part6 + part7, part8);
    lemma_starts_split(b, 0, part1 + part2 + part3 + part4 + part5 + part6, part7);
    lemma_starts_split(b, 0, part1 + part2 + part3 + part4 + part5, part6);
    lemma_starts_split(b, 0, part1 + part2 + part3 + part4, part5);
    lemma_starts_split(b, 0, part1 + part2 + part3, part4);
    lemma_starts_split(b, 0, part1 + part2, part3);
    lemma_starts_split(b, 0, part1, part2);
    assert(b.subrange(0, 4) == part1);
    assert(b.len() == part1.len() + part2.len() + part3.len() + part4.len() + part5.len()
        + part6.len() + part7.len() + part8.len());
}

/// The round-trip law for object files: decoding the encoding of any
/// well-formed, machine-representable object file yields that object file
/// back and consumes every byte.
#[verifier::rlimit(100)]
pub proof fn lemma_object_round_trip(o: ObjectFileV)
    requires
        o.wf(),
        o.fits(),
    ensures
        de_object(ser_object(o)) == Result::<(ObjectFileV, int), DecodeError>::Ok(
            (o, ser_object(o).len() as int),
        ),
{
    let b = ser_object(o);
    lemma_object_layout(o);
    let q4: int = 20;
    let q5 = q4 + ser_sections(o.sections).len();
    let q6 = q5 + 8;
    let q7 = q6 + ser_symbols(o.symbols, o.sections).len();
    let q8 = q7 + 8;
    lemma_rt_u64(b, 4, format_version());
    lemma_rt_u64(b, 12, o.sections.len() as u64);
    lemma_rt_sections(b, q4, o.sections);
    lemma_rt_u64(b, q5, o.symbols.len() as u64);
    lemma_rt_symbols(b, q6, o.symbols, o.sections);
    lemma_rt_u64(b, q7, o.relocations.len() as u64);
    lemma_rt_relocs(b, q8, o.relocations, o.sections);
    match de_object(b) {
        Result::Ok((got, p)) => {
            assert(got =~= o);
            assert(p == b.len() as int);
        },
        Result::Err(_) => {
            assert(false);
        },
    }
}

/// The round-trip law for executables.
#[verifier::rlimit(100)]
pub proof fn lemma_executable_round_trip(e: ExecutableV)
    requires
        e.entry <= usize::MAX,
        e.image.len() <= usize::MAX,
    ensures
        de_executable(ser_executable(e)) == Result::<(ExecutableV, int), DecodeError>::Ok(
            (e, ser_executable(e).len() as int),
        ),
{
    let b = ser_executable(e);
    let part1 = exe_magic();
    let part2 = ser_u64(format_version());
    let part3 = ser_u64(e.entry as u64);
    let part4 = ser_bytes(e.image);
    assert(starts_with_at(b, 0, part1 + part2 + part3 + part4)) by {
        assert(b.subrange(0, b.len() as int) =~= b);
    }
    lemma_starts_split(b, 0, part1 + part2 + part3, part4);
    lemma_starts_split(b, 0, part1 + part2, part3);
    lemma_starts_split(b, 0, part1, part2);
    assert(b.subrange(0, 4) == exe_magic());
    lemma_rt_u64(b, 4, format_version());
    lemma_rt_u64(b, 12, e.entry as u64);
    lemma_rt_bytes(b, 20, e.image);
    match de_executable(b) {
        Result::Ok((got, p)) => {
            assert(got =~= e);
            assert(p == b.len() as int);
        },
        Result::Err(_) => {
            assert(false);
        },
    }
}

} // verus!
