//! Linking one merged object file into an executable: sections are laid out
//! code first, then data, each at the next address meeting its alignment
//! (padded with zero bytes); every symbol gets a final address; every
//! relocation is patched into the flattened image; the entry point is the
//! address of the well-known symbol `start`.

use vstd::prelude::*;

use crate::errors::LinkError;
use crate::merge::lemma_sec_idx_concat;
use crate::model::{
    bytes_eq, copy_bytes, find_section, find_symbol, has_sec, lemma_sec_idx, lemma_sym_idx,
    patch_width, patch_width_of, sec_idx, sec_names_unique, sym_idx, Executable, ObjectFile,
    ObjectFileV, PatchKind, RelocationV, Section, SectionKind, SectionV, Symbol, SymbolV,
};

verus! {

/// The well-known entry-point symbol name, `start`.
pub open spec fn entry_name() -> Seq<u8> {
    seq![0x73u8, 0x74u8, 0x61u8, 0x72u8, 0x74u8]
}

/// The sections of one kind, in file order.
pub open spec fn select_kind(ss: Seq<SectionV>, k: SectionKind) -> Seq<SectionV>
    decreases ss.len(),
{
    if ss.len() == 0 {
        Seq::empty()
    } else {
        let rest = select_kind(ss.subrange(1, ss.len() as int), k);
        if ss[0].kind == k {
            seq![ss[0]] + rest
        } else {
            rest
        }
    }
}

/// The deterministic layout order: code sections first, then data sections.
pub open spec fn layout_order(ss: Seq<SectionV>) -> Seq<SectionV> {
    select_kind(ss, SectionKind::Code) + select_kind(ss, SectionKind::Data)
}

/// The next address at or after `pos` that is a multiple of `a`.
pub open spec fn align_up(pos: nat, a: nat) -> nat {
    if pos % a == 0 {
        pos
    } else {
        (pos + a - pos % a) as nat
    }
}

/// Base addresses of the sections of `ss` laid out in order from `start`.
pub open spec fn bases_from(ss: Seq<SectionV>, start: nat) -> Seq<nat>
    decreases ss.len(),
{
    if ss.len() == 0 {
        Seq::empty()
    } else {
        let base = align_up(start, ss[0].alignment);
        seq![base] + bases_from(ss.subrange(1, ss.len() as int), base + ss[0].data.len())
    }
}

/// The flattened image of `ss` laid out in order from `start`: zero padding
/// up to each section's base, then its bytes.
pub open spec fn image_from(ss: Seq<SectionV>, start: nat) -> Seq<u8>
    decreases ss.len(),
{
    if ss.len() == 0 {
        Seq::empty()
    } else {
        let base = align_up(start, ss[0].alignment);
        Seq::new((base - start) as nat, |i: int| 0u8) + ss[0].data + image_from(
            ss.subrange(1, ss.len() as int),
            base + ss[0].data.len(),
        )
    }
}

/// Final base address of the section named `name`, if it exists.
pub open spec fn base_of(o: ObjectFileV, name: Seq<u8>) -> Option<nat> {
    let ord = layout_order(o.sections);
    match sec_idx(ord, name) {
        Option::Some(i) => Option::Some(bases_from(ord, 0)[i]),
        Option::None => Option::None,
    }
}

/// Final absolute address of the named symbol, if it is defined.
pub open spec fn sym_addr(o: ObjectFileV, name: Seq<u8>) -> Option<nat> {
    match sym_idx(o.symbols, name) {
        Option::Some(i) => match o.symbols[i].def {
            Option::Some(d) => match base_of(o, d.section) {
                Option::Some(b) => Option::Some(b + d.offset),
                Option::None => Option::None,
            },
            Option::None => Option::None,
        },
        Option::None => Option::None,
    }
}

/// The referenced symbols that have no final address, in relocation order.
pub open spec fn undef_names(o: ObjectFileV, rs: Seq<RelocationV>) -> Seq<Seq<u8>>
    decreases rs.len(),
{
    if rs.len() == 0 {
        Seq::empty()
    } else {
        let rest = undef_names(o, rs.subrange(1, rs.len() as int));
        if sym_addr(o, rs[0].symbol) is None {
            seq![rs[0].symbol] + rest
        } else {
            rest
        }
    }
}

/// One patch applied to the image, or the overflowing address.
pub open spec fn patch_one(img: Seq<u8>, site: int, k: PatchKind, addr: nat) -> Option<Seq<u8>> {
    match k {
        PatchKind::Abs1 => if addr > 0xff {
            Option::None
        } else {
            Option::Some(img.update(site, addr as u8))
        },
        PatchKind::Abs2 => if addr > 0xffff {
            Option::None
        } else {
            Option::Some(
                img.update(site, (addr % 256) as u8).update(site + 1, (addr / 256) as u8),
            )
        },
    }
}

/// All relocations patched in order; an overflow reports the symbol and the
/// absolute image offset of its patch site.
pub open spec fn patch_all(o: ObjectFileV, img: Seq<u8>, rs: Seq<RelocationV>) -> Result<
    Seq<u8>,
    (Seq<u8>, int),
>
    decreases rs.len(),
{
    if rs.len() == 0 {
        Result::Ok(img)
    } else {
        let r = rs[0];
        let site = base_of(o, r.section).unwrap() + r.offset;
        match sym_addr(o, r.symbol) {
            Option::Some(addr) => match patch_one(img, site as int, r.kind, addr) {
                Option::Some(img2) => patch_all(o, img2, rs.subrange(1, rs.len() as int)),
                Option::None => Result::Err((r.symbol, site as int)),
            },
            Option::None => Result::Err((r.symbol, site as int)),
        }
    }
}

/// Alignment arithmetic: the aligned address is a multiple of `a` and lies
/// within one alignment unit at or after `pos`.
proof fn lemma_align_up(pos: nat, a: nat)
    requires
        a >= 1,
    ensures
        align_up(pos, a) % a == 0,
        pos <= align_up(pos, a) < pos + a,
{
    let r = pos % a;
    assert(0 <= r < a) by (nonlinear_arith)
        requires
            a >= 1,
            r == pos % a,
    ;
    if r == 0 {
        assert(align_up(pos, a) == pos);
    } else {
        assert(align_up(pos, a) == pos + a - r);
        assert((pos + a - r) % (a as int) == 0) by (nonlinear_arith)
            requires
                a >= 1,
                r == pos % a,
                0 < r < a,
        ;
    }
}

/// Lookup of a name inside one kind's selection, for a table with unique
/// names.
proof fn lemma_select_lookup(ss: Seq<SectionV>, k: SectionKind, name: Seq<u8>)
    requires
        sec_names_unique(ss),
    ensures
        match sec_idx(ss, name) {
            Option::Some(i) => if ss[i].kind == k {
                sec_idx(select_kind(ss, k), name) is Some && select_kind(ss, k)[sec_idx(
                    select_kind(ss, k),
                    name,
                ).unwrap()] == ss[i]
            } else {
                sec_idx(select_kind(ss, k), name) is None
            },
            Option::None => sec_idx(select_kind(ss, k), name) is None,
        },
    decreases ss.len(),
{
    lemma_sec_idx(ss, name);
    if ss.len() != 0 {
        let tail = ss.subrange(1, ss.len() as int);
        assert(forall|q: int| 1 <= q < ss.len() ==> (#[trigger] ss[q]) == tail[q - 1]);
        assert(sec_names_unique(tail));
        lemma_select_lookup(tail, k, name);
        lemma_sec_idx(tail, name);
        let sel = select_kind(ss, k);
        let rest = select_kind(tail, k);
        lemma_sec_idx(rest, name);
        if ss[0].kind == k {
            assert(sel == seq![ss[0]] + rest);
            assert(sel[0] == ss[0]);
            assert(sel.subrange(1, sel.len() as int) =~= rest);
            assert(forall|q: int| 1 <= q < sel.len() ==> (#[trigger] sel[q]) == rest[q - 1]);
            if ss[0].name == name {
            } else {
                match sec_idx(ss, name) {
                    Option::Some(i) => {
                        assert(tail[i - 1] == ss[i]);
                        if ss[i].kind == k {
                            let w = sec_idx(rest, name).unwrap();
                            assert(sec_idx(sel, name) == Option::Some(w + 1));
                            assert(sel[w + 1] == rest[w]);
                        } else {
                            assert(sec_idx(sel, name) is None);
                        }
                    },
                    Option::None => {
                        assert(sec_idx(sel, name) is None);
                    },
                }
            }
        } else {
            assert(sel == rest);
            if ss[0].name == name {
                assert(sec_idx(ss, name) == Option::Some(0int));
                assert(forall|q: int|
                    0 <= q < tail.len() ==> #[trigger] tail[q].name != name);
                crate::model::lemma_sec_idx_none(tail, name);
                assert(sec_idx(rest, name) is None) by {
                    lemma_sec_idx(rest, name);
                    if sec_idx(rest, name) is Some {
                        let w = sec_idx(rest, name).unwrap();
                        lemma_select_member(tail, k, w);
                    }
                }
            }
        }
    }
}

/// Every element of a kind's selection comes from the table itself.
proof fn lemma_select_member(ss: Seq<SectionV>, k: SectionKind, w: int)
    requires
        0 <= w < select_kind(ss, k).len(),
    ensures
        exists|q: int|
            0 <= q < ss.len() && #[trigger] ss[q] == select_kind(ss, k)[w],
    decreases ss.len(),
{
    if ss.len() != 0 {
        let tail = ss.subrange(1, ss.len() as int);
        let rest = select_kind(tail, k);
        if ss[0].kind == k {
            if w == 0 {
                assert(select_kind(ss, k)[0] == ss[0]);
            } else {
                lemma_select_member(tail, k, w - 1);
                let q = choose|q: int| 0 <= q < tail.len() && #[trigger] tail[q] == rest[w - 1];
                assert(ss[q + 1] == select_kind(ss, k)[w]);
            }
        } else {
            lemma_select_member(tail, k, w);
            let q = choose|q: int| 0 <= q < tail.len() && #[trigger] tail[q] == rest[w];
            assert(ss[q + 1] == select_kind(ss, k)[w]);
        }
    }
}

/// A name resolves in the layout order exactly when it resolves in the
/// table, to the same section.
pub proof fn lemma_ord_lookup(ss: Seq<SectionV>, name: Seq<u8>)
    requires
        sec_names_unique(ss),
    ensures
        match sec_idx(ss, name) {
            Option::Some(i) => sec_idx(layout_order(ss), name) is Some && layout_order(ss)[sec_idx(
                layout_order(ss),
                name,
            ).unwrap()] == ss[i],
            Option::None => sec_idx(layout_order(ss), name) is None,
        },
{
    let code = select_kind(ss, SectionKind::Code);
    let data = select_kind(ss, SectionKind::Data);
    lemma_sec_idx_concat(code, data, name);
    lemma_select_lookup(ss, SectionKind::Code, name);
    lemma_select_lookup(ss, SectionKind::Data, name);
    lemma_sec_idx(ss, name);
    lemma_sec_idx(code, name);
    lemma_sec_idx(data, name);
    match sec_idx(ss, name) {
        Option::Some(i) => {
            if ss[i].kind == SectionKind::Code {
                let w = sec_idx(code, name).unwrap();
                assert((code + data)[w] == code[w]);
            } else {
                assert(ss[i].kind == SectionKind::Data);
                let w = sec_idx(data, name).unwrap();
                assert((code + data)[code.len() + w] == data[w]);
            }
        },
        Option::None => {},
    }
}

/// Layout geometry: as many bases as sections, each base aligned, in order,
/// and each section's bytes inside the image.
pub proof fn lemma_layout_extent(ss: Seq<SectionV>, start: nat)
    requires
        forall|i: int| 0 <= i < ss.len() ==> (#[trigger] ss[i]).alignment >= 1,
    ensures
        bases_from(ss, start).len() == ss.len(),
        forall|i: int| 0 <= i < ss.len() ==> start <= #[trigger] bases_from(ss, start)[i],
        forall|i: int| 0 <= i < ss.len() ==> #[trigger] bases_from(ss, start)[i] + ss[i].data.len()
            <= start + image_from(ss, start).len(),
        forall|i: int| 0 <= i < ss.len() ==> #[trigger] bases_from(ss, start)[i] % ss[
            i].alignment == 0,
    decreases ss.len(),
{
    if ss.len() != 0 {
        let tail = ss.subrange(1, ss.len() as int);
        let base = align_up(start, ss[0].alignment);
        lemma_align_up(start, ss[0].alignment);
        lemma_layout_extent(tail, base + ss[0].data.len());
        assert(forall|q: int| 1 <= q < ss.len() ==> (#[trigger] ss[q]) == tail[q - 1]);
        let bs = bases_from(ss, start);
        let bst = bases_from(tail, base + ss[0].data.len());
        assert(bs[0] == base);
        assert(forall|q: int| 1 <= q < bs.len() ==> (#[trigger] bs[q]) == bst[q - 1]);
        assert(image_from(ss, start).len() == (base - start) + ss[0].data.len() + image_from(
            tail,
            base + ss[0].data.len(),
        ).len());
    }
}

} // verus!

use vstd::pervasive::VecAdditionalExecFns;

verus! {

/// No relocation's symbol is unresolved when the undefined list is empty.
proof fn lemma_undef_empty(o: ObjectFileV, rs: Seq<RelocationV>)
    requires
        undef_names(o, rs).len() == 0,
    ensures
        forall|k: int| 0 <= k < rs.len() ==> sym_addr(o, (#[trigger] rs[k]).symbol) is Some,
    decreases rs.len(),
{
    if rs.len() != 0 {
        let tail = rs.subrange(1, rs.len() as int);
        lemma_undef_empty(o, tail);
        assert(forall|q: int| 1 <= q < rs.len() ==> (#[trigger] rs[q]) == tail[q - 1]);
    }
}

/// Every section in the layout order satisfies the table's alignment bound.
proof fn lemma_ord_alignments(ss: Seq<SectionV>)
    requires
        forall|i: int| 0 <= i < ss.len() ==> (#[trigger] ss[i]).alignment >= 1,
    ensures
        forall|i: int| 0 <= i < layout_order(ss).len() ==> (#[trigger] layout_order(
            ss,
        )[i]).alignment >= 1,
{
    let code = select_kind(ss, SectionKind::Code);
    let data = select_kind(ss, SectionKind::Data);
    assert forall|i: int| 0 <= i < layout_order(ss).len() implies (#[trigger] layout_order(
        ss,
    )[i]).alignment >= 1 by {
        if i < code.len() {
            assert(layout_order(ss)[i] == code[i]);
            lemma_select_member(ss, SectionKind::Code, i);
        } else {
            assert(layout_order(ss)[i] == data[i - code.len()]);
            lemma_select_member(ss, SectionKind::Data, i - code.len());
        }
    }
}

/// Final base address of the named section, read from the computed layout.
fn section_base(
    o: &ObjectFile,
    order: &Vec<usize>,
    bases: &Vec<usize>,
    name: &Vec<u8>,
) -> (r: usize)
    requires
        o@.wf(),
        order@.len() == bases@.len(),
        forall|k: int| 0 <= k < order@.len() ==> (#[trigger] order@[k]) < o@.sections.len(),
        order@.map_values(|ix: usize| o@.sections[ix as int]) == layout_order(o@.sections),
        bases@.map_values(|x: usize| x as nat) == bases_from(layout_order(o@.sections), 0),
        has_sec(o@.sections, name@),
    ensures
        base_of(o@, name@) == Option::Some(r as nat),
{
    let ghost ordv = layout_order(o@.sections);
    proof {
        lemma_ord_lookup(o@.sections, name@);
        lemma_sec_idx(ordv, name@);
    }
    let mut j: usize = 0;
    while j < order.len()
        invariant
            0 <= j <= order@.len(),
            order@.len() == bases@.len(),
            forall|k: int| 0 <= k < order@.len() ==> (#[trigger] order@[k]) < o@.sections.len(),
            order@.map_values(|ix: usize| o@.sections[ix as int]) == ordv,
            ordv == layout_order(o@.sections),
            bases@.map_values(|x: usize| x as nat) == bases_from(ordv, 0),
            forall|k: int| 0 <= k < j ==> (#[trigger] ordv[k]).name != name@,
        decreases order@.len() - j,
    {
        if bytes_eq(&o.sections[order[j]].name, name) {
            proof {
                assert(ordv[j as int] == o@.sections[order@[j as int] as int]);
                crate::model::lemma_sec_idx_at(ordv, name@, j as int);
                assert(bases@.map_values(|x: usize| x as nat)[j as int] == bases@[j as int]
                    as nat);
            }
            return bases[j];
        }
        proof {
            assert(ordv[j as int] == o@.sections[order@[j as int] as int]);
        }
        j += 1;
    }
    proof {
        crate::model::lemma_sec_idx_none(ordv, name@);
        assert(false);
    }
    0
}

/// Final absolute address of the named symbol, read from the computed
/// layout, or nothing if the symbol is absent or undefined.
fn symbol_addr(
    o: &ObjectFile,
    order: &Vec<usize>,
    bases: &Vec<usize>,
    imglen: usize,
    name: &Vec<u8>,
) -> (r: Option<usize>)
    requires
        o@.wf(),
        order@.len() == bases@.len(),
        forall|k: int| 0 <= k < order@.len() ==> (#[trigger] order@[k]) < o@.sections.len(),
        order@.map_values(|ix: usize| o@.sections[ix as int]) == layout_order(o@.sections),
        bases@.map_values(|x: usize| x as nat) == bases_from(layout_order(o@.sections), 0),
        image_from(layout_order(o@.sections), 0).len() <= imglen,
    ensures
        match r {
            Option::Some(a) => sym_addr(o@, name@) == Option::Some(a as nat),
            Option::None => sym_addr(o@, name@) is None,
        },
{
    let ghost ordv = layout_order(o@.sections);
    let si = match find_symbol(&o.symbols, name) {
        Option::Some(x) => x,
        Option::None => {
            return Option::None;
        },
    };
    match &o.symbols[si].def {
        Option::Some(d) => {
            proof {
                assert(o@.symbols[si as int].def == Option::Some(d@));
                assert(match sec_idx(o@.sections, d@.section) {
                    Option::Some(x) => d@.offset <= o@.sections[x].data.len(),
                    Option::None => false,
                });
                lemma_ord_lookup(o@.sections, d@.section);
                lemma_sec_idx(ordv, d@.section);
                lemma_ord_alignments(o@.sections);
                lemma_layout_extent(ordv, 0);
            }
            let b = section_base(o, order, bases, &d.section);
            proof {
                let w = sec_idx(ordv, d@.section).unwrap();
                assert(b as nat == bases_from(ordv, 0)[w]);
                assert(bases_from(ordv, 0)[w] + ordv[w].data.len() <= image_from(
                    ordv,
                    0,
                ).len());
                let x = sec_idx(o@.sections, d@.section).unwrap();
                assert(ordv[w] == o@.sections[x]);
                assert(b + d@.offset <= imglen);
            }
            Option::Some(b + d.offset)
        },
        Option::None => Option::None,
    }
}

} // verus!

verus! {

impl ObjectFile {
    /// Link this object file into an executable.  Every unresolved symbol is
    /// collected into one `UndefinedSymbols` error; otherwise each
    /// relocation is patched into the laid-out image (an address too wide
    /// for its patch field is `RelocationOverflow`); the entry point is the
    /// address of the symbol `start`, whose absence is `NoEntryPoint`.
    pub fn build_executable(&self) -> (r: Result<Executable, LinkError>)
        requires
            self@.wf(),
        ensures
            r is Err <==> (undef_names(self@, self@.relocations).len() > 0 || patch_all(
                self@,
                image_from(layout_order(self@.sections), 0),
                self@.relocations,
            ) is Err || sym_addr(self@, entry_name()) is None),
            match r {
                Result::Err(LinkError::UndefinedSymbols(ns)) => ns@.map_values(|v: Vec<u8>| v@)
                    == undef_names(self@, self@.relocations) && ns@.len() > 0,
                Result::Err(LinkError::RelocationOverflow { symbol, site }) => {
                    &&& undef_names(self@, self@.relocations).len() == 0
                    &&& patch_all(
                        self@,
                        image_from(layout_order(self@.sections), 0),
                        self@.relocations,
                    ) == Result::<Seq<u8>, (Seq<u8>, int)>::Err((symbol@, site as int))
                },
                Result::Err(LinkError::NoEntryPoint) => {
                    &&& undef_names(self@, self@.relocations).len() == 0
                    &&& patch_all(
                        self@,
                        image_from(layout_order(self@.sections), 0),
                        self@.relocations,
                    ) is Ok
                    &&& sym_addr(self@, entry_name()) is None
                },
                Result::Ok(exe) => {
                    &&& undef_names(self@, self@.relocations).len() == 0
                    &&& patch_all(
                        self@,
                        image_from(layout_order(self@.sections), 0),
                        self@.relocations,
                    ) == Result::<Seq<u8>, (Seq<u8>, int)>::Ok(exe@.image)
                    &&& sym_addr(self@, entry_name()) == Option::Some(exe@.entry)
                },
            },
    {
        let ghost ov = self@;
        let ghost secv = self@.sections;
        let mut und: Vec<Vec<u8>> = Vec::new();
        proof {
            assert(ov.relocations.subrange(0, ov.relocations.len() as int) =~= ov.relocations);
            assert(undef_names(ov, ov.relocations) =~= Seq::<Vec<u8>>::empty().map_values(
                |v: Vec<u8>| v@,
            ) + undef_names(ov, ov.relocations.subrange(0, ov.relocations.len() as int)));
        }
        let mut k: usize = 0;
        while k < self.relocations.len()
            invariant
                0 <= k <= self.relocations.len(),
                ov == self@,
                ov.wf(),
                ov.relocations.len() == self.relocations.len(),
                undef_names(ov, ov.relocations) == und@.map_values(|v: Vec<u8>| v@)
                    + undef_names(ov, ov.relocations.subrange(
                    k as int,
                    ov.relocations.len() as int,
                )),
            decreases self.relocations.len() - k,
        {
            let ghost rem = ov.relocations.subrange(k as int, ov.relocations.len() as int);
            proof {
                assert(rem[0] == ov.relocations[k as int]);
                assert(rem.subrange(1, rem.len() as int) =~= ov.relocations.subrange(
                    k + 1,
                    ov.relocations.len() as int,
                ));
            }
            let mut resolved = false;
            match find_symbol(&self.symbols, &self.relocations[k].symbol) {
                Option::Some(si) => {
                    match &self.symbols[si].def {
                        Option::Some(d) => {
                            proof {
                                assert(ov.symbols[si as int].def == Option::Some(d@));
                                assert(sec_idx(ov.sections, d@.section) is Some);
                                lemma_ord_lookup(ov.sections, d@.section);
                                assert(base_of(ov, d@.section) is Some);
                                assert(sym_addr(ov, rem[0].symbol) is Some);
                            }
                            resolved = true;
                        },
                        Option::None => {
                            proof {
                                assert(sym_addr(ov, rem[0].symbol) is None);
                            }
                        },
                    }
                },
                Option::None => {
                    proof {
                        assert(sym_addr(ov, rem[0].symbol) is None);
                    }
                },
            }
            if !resolved {
                und.push(copy_bytes(&self.relocations[k].symbol));
                proof {
                    assert(und@.map_values(|v: Vec<u8>| v@) =~= und@.subrange(
                        0,
                        und@.len() - 1,
                    ).map_values(|v: Vec<u8>| v@) + seq![rem[0].symbol]);
                    assert(undef_names(ov, ov.relocations) =~= und@.map_values(|v: Vec<u8>| v@)
                        + undef_names(ov, ov.relocations.subrange(
                        k + 1,
                        ov.relocations.len() as int,
                    )));
                }
            }
            k += 1;
        }
        proof {
            assert(undef_names(ov, ov.relocations.subrange(
                ov.relocations.len() as int,
                ov.relocations.len() as int,
            )) == Seq::<Seq<u8>>::empty());
            assert(undef_names(ov, ov.relocations) =~= und@.map_values(|v: Vec<u8>| v@));
        }
        if und.len() > 0 {
            return Result::Err(LinkError::UndefinedSymbols(und));
        }
        let mut order: Vec<usize> = Vec::new();
        proof {
            assert(secv.subrange(0, secv.len() as int) =~= secv);
            assert(select_kind(secv, SectionKind::Code) =~= Seq::<usize>::empty().map_values(
                |ix: usize| secv[ix as int],
            ) + select_kind(secv.subrange(0, secv.len() as int), SectionKind::Code));
        }
        let mut i: usize = 0;
        while i < self.sections.len()
            invariant
                0 <= i <= self.sections.len(),
                ov == self@,
                secv == self@.sections,
                secv.len() == self.sections.len(),
                forall|q: int| 0 <= q < order@.len() ==> (#[trigger] order@[q]) < secv.len(),
                select_kind(secv, SectionKind::Code) == order@.map_values(
                    |ix: usize| secv[ix as int],
                ) + select_kind(secv.subrange(i as int, secv.len() as int), SectionKind::Code),
            decreases self.sections.len() - i,
        {
            let ghost rem = secv.subrange(i as int, secv.len() as int);
            proof {
                assert(rem[0] == secv[i as int]);
                assert(rem.subrange(1, rem.len() as int) =~= secv.subrange(
                    i + 1,
                    secv.len() as int,
                ));
            }
            if self.sections[i].kind == SectionKind::Code {
                order.push(i);
                proof {
                    assert(order@.map_values(|ix: usize| secv[ix as int]) =~= order@.subrange(
                        0,
                        order@.len() - 1,
                    ).map_values(|ix: usize| secv[ix as int]) + seq![secv[i as int]]);
                    assert(select_kind(secv, SectionKind::Code) =~= order@.map_values(
                        |ix: usize| secv[ix as int],
                    ) + select_kind(secv.subrange(i + 1, secv.len() as int), SectionKind::Code));
                }
            }
            i += 1;
        }
        proof {
            assert(select_kind(secv.subrange(secv.len() as int, secv.len() as int),
                SectionKind::Code) == Seq::<SectionV>::empty());
            assert(order@.map_values(|ix: usize| secv[ix as int]) =~= select_kind(
                secv,
                SectionKind::Code,
            ));
        }
        let ghost code_sel = select_kind(secv, SectionKind::Code);
        proof {
            assert(secv.subrange(0, secv.len() as int) =~= secv);
            assert(code_sel + select_kind(secv, SectionKind::Data) =~= order@.map_values(
                |ix: usize| secv[ix as int],
            ) + select_kind(secv.subrange(0, secv.len() as int), SectionKind::Data));
        }
        let mut i2: usize = 0;
        while i2 < self.sections.len()
            invariant
                0 <= i2 <= self.sections.len(),
                ov == self@,
                secv == self@.sections,
                secv.len() == self.sections.len(),
                forall|q: int| 0 <= q < order@.len() ==> (#[trigger] order@[q]) < secv.len(),
                code_sel + select_kind(secv, SectionKind::Data) == order@.map_values(
                    |ix: usize| secv[ix as int],
                ) + select_kind(secv.subrange(i2 as int, secv.len() as int), SectionKind::Data),
            decreases self.sections.len() - i2,
        {
            let ghost rem = secv.subrange(i2 as int, secv.len() as int);
            proof {
                assert(rem[0] == secv[i2 as int]);
                assert(rem.subrange(1, rem.len() as int) =~= secv.subrange(
                    i2 + 1,
                    secv.len() as int,
                ));
            }
            if self.sections[i2].kind == SectionKind::Data {
                order.push(i2);
                proof {
                    assert(order@.map_values(|ix: usize| secv[ix as int]) =~= order@.subrange(
                        0,
                        order@.len() - 1,
                    ).map_values(|ix: usize| secv[ix as int]) + seq![secv[i2 as int]]);
                    assert(code_sel + select_kind(secv, SectionKind::Data) =~= order@.map_values(
                        |ix: usize| secv[ix as int],
                    ) + select_kind(secv.subrange(i2 + 1, secv.len() as int), SectionKind::Data));
                }
            }
            i2 += 1;
        }
        let ghost ordv = layout_order(secv);
        proof {
            assert(select_kind(secv.subrange(secv.len() as int, secv.len() as int),
                SectionKind::Data) == Seq::<SectionV>::empty());
            assert(order@.map_values(|ix: usize| secv[ix as int]) =~= ordv);
            lemma_ord_alignments(secv);
            lemma_layout_extent(ordv, 0);
        }
        let mut bases: Vec<usize> = Vec::new();
        let mut image: Vec<u8> = Vec::new();
        proof {
            assert(ordv.subrange(0, ordv.len() as int) =~= ordv);
            assert(bases_from(ordv, 0) =~= Seq::<usize>::empty().map_values(|x: usize| x as nat)
                + bases_from(ordv.subrange(0, ordv.len() as int), 0));
            assert(image_from(ordv, 0) =~= Seq::<u8>::empty() + image_from(
                ordv.subrange(0, ordv.len() as int),
                0,
            ));
        }
        let mut j: usize = 0;
        while j < order.len()
            invariant
                0 <= j <= order@.len(),
                ov == self@,
                secv == self@.sections,
                secv.len() == self.sections.len(),
                forall|q: int| 0 <= q < order@.len() ==> (#[trigger] order@[q]) < secv.len(),
                order@.map_values(|ix: usize| secv[ix as int]) == ordv,
                ordv == layout_order(secv),
                forall|q: int| 0 <= q < ordv.len() ==> (#[trigger] ordv[q]).alignment >= 1,
                bases@.len() == j,
                bases_from(ordv, 0) == bases@.map_values(|x: usize| x as nat) + bases_from(
                    ordv.subrange(j as int, ordv.len() as int),
                    image@.len() as nat,
                ),
                image_from(ordv, 0) == image@ + image_from(
                    ordv.subrange(j as int, ordv.len() as int),
                    image@.len() as nat,
                ),
            decreases order@.len() - j,
        {
            let ghost rem = ordv.subrange(j as int, ordv.len() as int);
            let ghost cur0: nat = image@.len() as nat;
            proof {
                assert(rem[0] == ordv[j as int]);
                assert(rem[0] == secv[order@[j as int] as int]);
                assert(rem.subrange(1, rem.len() as int) =~= ordv.subrange(
                    j + 1,
                    ordv.len() as int,
                ));
            }
            let si = order[j];
            let align = self.sections[si].alignment;
            proof {
                assert(align >= 1);
            }
            let rem2 = image.len() % align;
            let pad = if rem2 == 0 {
                0
            } else {
                align - rem2
            };
            proof {
                assert(pad as nat == align_up(cur0, align as nat) - cur0);
            }
            let ghost before_pad = image@;
            let mut t: usize = 0;
            while t < pad
                invariant
                    0 <= t <= pad,
                    image@ == before_pad + Seq::new(t as nat, |q: int| 0u8),
                decreases pad - t,
            {
                image.push(0);
                proof {
                    assert(image@ =~= before_pad + Seq::new((t + 1) as nat, |q: int| 0u8));
                }
                t += 1;
            }
            let base = image.len();
            bases.push(base);
            proof {
                assert(base as nat == align_up(cur0, align as nat));
            }
            let ghost before_data = image@;
            let mut t2: usize = 0;
            while t2 < self.sections[si].data.len()
                invariant
                    si < self.sections.len(),
                    secv == self@.sections,
                    secv.len() == self.sections.len(),
                    0 <= t2 <= self.sections@[si as int].data@.len(),
                    image@ == before_data + self.sections@[si as int].data@.subrange(
                        0,
                        t2 as int,
                    ),
                decreases self.sections@[si as int].data@.len() - t2,
            {
                image.push(self.sections[si].data[t2]);
                proof {
                    assert(image@ =~= before_data + self.sections@[si as int].data@.subrange(
                        0,
                        t2 + 1,
                    ));
                }
                t2 += 1;
            }
            proof {
                assert(self.sections@[si as int].data@.subrange(
                    0,
                    self.sections@[si as int].data@.len() as int,
                ) =~= rem[0].data);
                assert(image@ =~= before_pad + Seq::new((base - cur0) as nat, |q: int| 0u8)
                    + rem[0].data);
                assert(bases@.map_values(|x: usize| x as nat) =~= bases@.subrange(
                    0,
                    bases@.len() - 1,
                ).map_values(|x: usize| x as nat) + seq![base as nat]);
                assert(bases_from(ordv, 0) =~= bases@.map_values(|x: usize| x as nat)
                    + bases_from(ordv.subrange(j + 1, ordv.len() as int), image@.len() as nat));
                assert(image_from(ordv, 0) =~= image@ + image_from(
                    ordv.subrange(j + 1, ordv.len() as int),
                    image@.len() as nat,
                ));
            }
            j += 1;
        }
        proof {
            assert(bases_from(ordv.subrange(ordv.len() as int, ordv.len() as int),
                image@.len() as nat) == Seq::<nat>::empty());
            assert(image_from(ordv.subrange(ordv.len() as int, ordv.len() as int),
                image@.len() as nat) == Seq::<u8>::empty());
            assert(bases@.map_values(|x: usize| x as nat) =~= bases_from(ordv, 0));
            assert(image@ =~= image_from(ordv, 0));
        }
        let imglen = image.len();
        let ghost img0 = image_from(ordv, 0);
        proof {
            lemma_undef_empty(ov, ov.relocations);
            assert(ov.relocations.subrange(0, ov.relocations.len() as int) =~= ov.relocations);
            assert(image@ == img0);
        }
        let mut k2: usize = 0;
        while k2 < self.relocations.len()
            invariant
                0 <= k2 <= self.relocations.len(),
                ov == self@,
                secv == self@.sections,
                secv.len() == self.sections.len(),
                ov.relocations.len() == self.relocations.len(),
                ov.wf(),
                forall|q: int| 0 <= q < order@.len() ==> (#[trigger] order@[q]) < secv.len(),
                order@.len() == bases@.len(),
                order@.map_values(|ix: usize| secv[ix as int]) == layout_order(secv),
                bases@.map_values(|x: usize| x as nat) == bases_from(layout_order(secv), 0),
                ordv == layout_order(secv),
                forall|q: int| 0 <= q < ordv.len() ==> (#[trigger] ordv[q]).alignment >= 1,
                img0 == image_from(ordv, 0),
                imglen == img0.len(),
                image@.len() == img0.len(),
                undef_names(ov, ov.relocations).len() == 0,
                forall|q: int| 0 <= q < ov.relocations.len() ==> sym_addr(
                    ov,
                    (#[trigger] ov.relocations[q]).symbol,
                ) is Some,
                patch_all(ov, img0, ov.relocations) == patch_all(ov, image@,
                    ov.relocations.subrange(k2 as int, ov.relocations.len() as int)),
            decreases self.relocations.len() - k2,
        {
            let ghost rem = ov.relocations.subrange(k2 as int, ov.relocations.len() as int);
            proof {
                assert(rem[0] == ov.relocations[k2 as int]);
                assert(rem.subrange(1, rem.len() as int) =~= ov.relocations.subrange(
                    k2 + 1,
                    ov.relocations.len() as int,
                ));
                assert(match sec_idx(secv, rem[0].section) {
                    Option::Some(x) => rem[0].offset + patch_width(rem[0].kind) <= secv[
                        x].data.len(),
                    Option::None => false,
                });
                lemma_ord_lookup(secv, rem[0].section);
                lemma_sec_idx(ordv, rem[0].section);
                lemma_layout_extent(ordv, 0);
            }
            let sb = section_base(self, &order, &bases, &self.relocations[k2].section);
            proof {
                let w = sec_idx(ordv, rem[0].section).unwrap();
                let x = sec_idx(secv, rem[0].section).unwrap();
                assert(ordv[w] == secv[x]);
                assert(sb as nat == bases_from(ordv, 0)[w]);
                assert(sb + rem[0].offset + patch_width(rem[0].kind) <= imglen);
            }
            let site = sb + self.relocations[k2].offset;
            let addr = match symbol_addr(self, &order, &bases, imglen, &self.relocations[
                k2].symbol) {
                Option::Some(a) => a,
                Option::None => {
                    proof {
                        assert(false);
                    }
                    0
                },
            };
            let w = patch_width_of(self.relocations[k2].kind);
            match self.relocations[k2].kind {
                PatchKind::Abs1 => {
                    if addr > 0xff {
                        proof {
                            assert(patch_all(ov, image@, rem) == Result::<
                                Seq<u8>,
                                (Seq<u8>, int),
                            >::Err((rem[0].symbol, site as int)));
                        }
                        return Result::Err(
                            LinkError::RelocationOverflow {
                                symbol: copy_bytes(&self.relocations[k2].symbol),
                                site,
                            },
                        );
                    }
                    image.set(site, addr as u8);
                },
                PatchKind::Abs2 => {
                    if addr > 0xffff {
                        proof {
                            assert(patch_all(ov, image@, rem) == Result::<
                                Seq<u8>,
                                (Seq<u8>, int),
                            >::Err((rem[0].symbol, site as int)));
                        }
                        return Result::Err(
                            LinkError::RelocationOverflow {
                                symbol: copy_bytes(&self.relocations[k2].symbol),
                                site,
                            },
                        );
                    }
                    image.set(site, (addr % 256) as u8);
                    image.set(site + 1, (addr / 256) as u8);
                },
            }
            proof {
                assert(patch_all(ov, img0, ov.relocations) == patch_all(ov, image@,
                    ov.relocations.subrange(k2 + 1, ov.relocations.len() as int)));
            }
            k2 += 1;
        }
        proof {
            assert(patch_all(ov, image@, ov.relocations.subrange(
                ov.relocations.len() as int,
                ov.relocations.len() as int,
            )) == Result::<Seq<u8>, (Seq<u8>, int)>::Ok(image@));
        }
        let entry_sym: Vec<u8> = vec![0x73, 0x74, 0x61, 0x72, 0x74];
        proof {
            assert(entry_sym@ =~= entry_name());
        }
        match symbol_addr(self, &order, &bases, imglen, &entry_sym) {
            Option::Some(a) => Result::Ok(Executable { entry: a, image }),
            Option::None => Result::Err(LinkError::NoEntryPoint),
        }
    }
}

} // verus!

verus! {

/// Patching writes only at the patch sites: every other byte of the image,
/// in particular the zero padding between sections, is exactly what it was
/// before, and the image keeps its length.
pub proof fn lemma_patch_all_outside(
    o: ObjectFileV,
    img: Seq<u8>,
    rs: Seq<RelocationV>,
    addr: int,
)
    requires
        patch_all(o, img, rs) is Ok,
        forall|k: int| 0 <= k < rs.len() ==> {
            let r = #[trigger] rs[k];
            let site = base_of(o, r.section).unwrap() + r.offset;
            site + patch_width(r.kind) <= img.len() && !(site <= addr < site + patch_width(
                r.kind,
            ))
        },
    ensures
        patch_all(o, img, rs)->Ok_0.len() == img.len(),
        0 <= addr < img.len() ==> patch_all(o, img, rs)->Ok_0[addr] == img[addr],
    decreases rs.len(),
{
    if rs.len() != 0 {
        let r = rs[0];
        let site = base_of(o, r.section).unwrap() + r.offset;
        let tail = rs.subrange(1, rs.len() as int);
        assert(forall|k: int| 0 <= k < tail.len() ==> (#[trigger] tail[k]) == rs[k + 1]);
        match sym_addr(o, r.symbol) {
            Option::Some(addr2) => {
                match patch_one(img, site as int, r.kind, addr2) {
                    Option::Some(img2) => {
                        assert(patch_all(o, img, rs) == patch_all(o, img2, tail));
                        assert(!(site <= addr < site + patch_width(r.kind)));
                        match r.kind {
                            PatchKind::Abs1 => {
                                assert(img2 == img.update(site as int, addr2 as u8));
                                assert(img2.len() == img.len());
                                if 0 <= addr < img.len() {
                                    assert(img2[addr] == img[addr]);
                                }
                                lemma_patch_all_outside(o, img2, tail, addr);
                            },
                            PatchKind::Abs2 => {
                                assert(img2 == img.update(site as int, (addr2 % 256) as u8)
                                    .update(site as int + 1, ((addr2 / 256)) as u8));
                                assert(img2.len() == img.len());
                                if 0 <= addr < img.len() {
                                    assert(img2[addr] == img[addr]);
                                }
                                lemma_patch_all_outside(o, img2, tail, addr);
                            },
                        }
                    },
                    Option::None => {
                        assert(false);
                    },
                }
            },
            Option::None => {
                assert(false);
            },
        }
    }
}

/// Every relocation's patch span lies inside its section's bytes in the
/// laid-out image: patches land on section content, never on the padding.
pub proof fn lemma_patch_sites_in_sections(o: ObjectFileV)
    requires
        o.wf(),
    ensures
        forall|k: int| 0 <= k < o.relocations.len() ==> {
            let r = #[trigger] o.relocations[k];
            let ord = layout_order(o.sections);
            match sec_idx(ord, r.section) {
                Option::Some(j) => base_of(o, r.section) == Option::Some(
                    bases_from(ord, 0)[j],
                ) && r.offset + patch_width(r.kind) <= ord[j].data.len(),
                Option::None => false,
            }
        },
{
    let ord = layout_order(o.sections);
    assert forall|k: int| 0 <= k < o.relocations.len() implies {
        let r = #[trigger] o.relocations[k];
        match sec_idx(ord, r.section) {
            Option::Some(j) => base_of(o, r.section) == Option::Some(bases_from(ord, 0)[j])
                && r.offset + patch_width(r.kind) <= ord[j].data.len(),
            Option::None => false,
        }
    } by {
        let r = o.relocations[k];
        assert(match sec_idx(o.sections, r.section) {
            Option::Some(x) => r.offset + patch_width(r.kind) <= o.sections[x].data.len(),
            Option::None => false,
        });
        lemma_ord_lookup(o.sections, r.section);
        lemma_sec_idx(o.sections, r.section);
        lemma_sec_idx(ord, r.section);
    }
}

} // verus!
