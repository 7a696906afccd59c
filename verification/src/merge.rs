//! Merging two object files: matching sections are concatenated, symbol
//! definitions from the second file are rebased by the length the matching
//! section had in the first, relocations are rebased the same way, and a
//! symbol defined in both inputs is a duplicate-definition error before
//! anything is touched.

use vstd::prelude::*;

use crate::errors::MergeError;
use crate::model::{
    bytes_eq, copy_bytes, find_section, find_symbol, has_sec, has_sym, lemma_sec_idx,
    lemma_sym_idx, lemma_sym_idx_at, sec_idx, sec_names_unique, sym_idx, sym_names_unique,
    ObjectFile, ObjectFileV, Relocation, RelocationV, Section, SectionV, Symbol, SymbolDef,
    SymbolDefV, SymbolV,
};

verus! {

/// The named symbol has a definition in `o`.
pub open spec fn defined(o: ObjectFileV, name: Seq<u8>) -> bool {
    match sym_idx(o.symbols, name) {
        Option::Some(i) => o.symbols[i].def is Some,
        Option::None => false,
    }
}

/// Some symbol is defined in both object files.
pub open spec fn dup_def(a: ObjectFileV, b: ObjectFileV) -> bool {
    exists|i: int|
        0 <= i < b.symbols.len() && (#[trigger] b.symbols[i]).def is Some && defined(
            a,
            b.symbols[i].name,
        )
}

/// How far content appended to the section named `name` is rebased: the
/// length that section already has in `ss`, or zero if it is new.
pub open spec fn sec_delta(ss: Seq<SectionV>, name: Seq<u8>) -> nat {
    match sec_idx(ss, name) {
        Option::Some(i) => ss[i].data.len(),
        Option::None => 0,
    }
}

/// A first-file section after the merge: the second file's bytes for the
/// same name are appended.
pub open spec fn merge_sec_entry(s: SectionV, bs: Seq<SectionV>) -> SectionV {
    match sec_idx(bs, s.name) {
        Option::Some(j) => SectionV { data: s.data + bs[j].data, ..s },
        Option::None => s,
    }
}

/// The second file's sections whose names are new, in order.
pub open spec fn missing_secs(a_ss: Seq<SectionV>, bs: Seq<SectionV>) -> Seq<SectionV>
    decreases bs.len(),
{
    if bs.len() == 0 {
        Seq::empty()
    } else {
        let rest = missing_secs(a_ss, bs.subrange(1, bs.len() as int));
        if has_sec(a_ss, bs[0].name) {
            rest
        } else {
            seq![bs[0]] + rest
        }
    }
}

/// The merged section table.
pub open spec fn merged_sections(a_ss: Seq<SectionV>, b_ss: Seq<SectionV>) -> Seq<SectionV> {
    a_ss.map_values(|s: SectionV| merge_sec_entry(s, b_ss)) + missing_secs(a_ss, b_ss)
}

/// A second-file symbol rebased into the merged file.
pub open spec fn shift_symbol(s: SymbolV, a_ss: Seq<SectionV>) -> SymbolV {
    match s.def {
        Option::Some(d) => SymbolV {
            def: Option::Some(
                SymbolDefV { section: d.section, offset: d.offset + sec_delta(a_ss, d.section) },
            ),
            ..s
        },
        Option::None => s,
    }
}

/// A first-file symbol after the merge: an undefined reference picks up the
/// second file's definition for the same name, if there is one.
pub open spec fn merge_sym_entry(s: SymbolV, a_ss: Seq<SectionV>, b_syms: Seq<SymbolV>) -> SymbolV {
    if s.def is None {
        match sym_idx(b_syms, s.name) {
            Option::Some(j) => if b_syms[j].def is Some {
                shift_symbol(b_syms[j], a_ss)
            } else {
                s
            },
            Option::None => s,
        }
    } else {
        s
    }
}

/// The second file's symbols whose names are new, rebased, in order.
pub open spec fn missing_syms(a_syms: Seq<SymbolV>, a_ss: Seq<SectionV>, bs: Seq<SymbolV>) -> Seq<
    SymbolV,
>
    decreases bs.len(),
{
    if bs.len() == 0 {
        Seq::empty()
    } else {
        let rest = missing_syms(a_syms, a_ss, bs.subrange(1, bs.len() as int));
        if has_sym(a_syms, bs[0].name) {
            rest
        } else {
            seq![shift_symbol(bs[0], a_ss)] + rest
        }
    }
}

/// A second-file relocation rebased into the merged file.
pub open spec fn shift_reloc(r: RelocationV, a_ss: Seq<SectionV>) -> RelocationV {
    RelocationV { offset: r.offset + sec_delta(a_ss, r.section), ..r }
}

/// The whole merged object file.
pub open spec fn merged_object(a: ObjectFileV, b: ObjectFileV) -> ObjectFileV {
    ObjectFileV {
        sections: merged_sections(a.sections, b.sections),
        symbols: a.symbols.map_values(|s: SymbolV| merge_sym_entry(s, a.sections, b.symbols))
            + missing_syms(a.symbols, a.sections, b.symbols),
        relocations: a.relocations + b.relocations.map_values(
            |r: RelocationV| shift_reloc(r, a.sections),
        ),
    }
}

/// Lookup distributes over concatenation of section tables.
pub proof fn lemma_sec_idx_concat(s1: Seq<SectionV>, s2: Seq<SectionV>, name: Seq<u8>)
    ensures
        sec_idx(s1 + s2, name) == match sec_idx(s1, name) {
            Option::Some(i) => Option::Some(i),
            Option::None => match sec_idx(s2, name) {
                Option::Some(j) => Option::Some(s1.len() + j),
                Option::None => Option::<int>::None,
            },
        },
    decreases s1.len(),
{
    if s1.len() == 0 {
        assert(s1 + s2 =~= s2);
    } else {
        assert((s1 + s2)[0] == s1[0]);
        if s1[0].name != name {
            assert((s1 + s2).subrange(1, (s1 + s2).len() as int) =~= s1.subrange(
                1,
                s1.len() as int,
            ) + s2);
            lemma_sec_idx_concat(s1.subrange(1, s1.len() as int), s2, name);
        }
    }
}

/// Lookup in the rebased first-file part matches lookup in the first file.
proof fn lemma_sec_idx_mapped(a_ss: Seq<SectionV>, b_ss: Seq<SectionV>, name: Seq<u8>)
    ensures
        sec_idx(a_ss.map_values(|s: SectionV| merge_sec_entry(s, b_ss)), name) == sec_idx(
            a_ss,
            name,
        ),
    decreases a_ss.len(),
{
    let mapped = a_ss.map_values(|s: SectionV| merge_sec_entry(s, b_ss));
    if a_ss.len() != 0 {
        assert(mapped[0].name == a_ss[0].name);
        if a_ss[0].name != name {
            assert(mapped.subrange(1, mapped.len() as int) =~= a_ss.subrange(
                1,
                a_ss.len() as int,
            ).map_values(|s: SectionV| merge_sec_entry(s, b_ss)));
            lemma_sec_idx_mapped(a_ss.subrange(1, a_ss.len() as int), b_ss, name);
        }
    }
}

/// What the new-sections list holds for a name that the first file lacks.
proof fn lemma_missing_secs(a_ss: Seq<SectionV>, bs: Seq<SectionV>, name: Seq<u8>)
    requires
        !has_sec(a_ss, name),
    ensures
        match sec_idx(bs, name) {
            Option::Some(j) => {
                &&& sec_idx(missing_secs(a_ss, bs), name) is Some
                &&& missing_secs(a_ss, bs)[sec_idx(missing_secs(a_ss, bs), name).unwrap()]
                    == bs[j]
            },
            Option::None => sec_idx(missing_secs(a_ss, bs), name) is None,
        },
    decreases bs.len(),
{
    if bs.len() != 0 {
        let tail = bs.subrange(1, bs.len() as int);
        lemma_missing_secs(a_ss, tail, name);
        let rest = missing_secs(a_ss, tail);
        assert(forall|k: int| 1 <= k < bs.len() ==> (#[trigger] bs[k]) == tail[k - 1]);
        lemma_sec_idx(bs, name);
        lemma_sec_idx(tail, name);
        if bs[0].name == name {
            assert(!has_sec(a_ss, bs[0].name));
            assert(missing_secs(a_ss, bs) == seq![bs[0]] + rest);
            assert((seq![bs[0]] + rest)[0] == bs[0]);
        } else {
            if has_sec(a_ss, bs[0].name) {
                assert(missing_secs(a_ss, bs) == rest);
                match sec_idx(bs, name) {
                    Option::Some(j) => {
                        assert(sec_idx(tail, name) == Option::Some(j - 1));
                        assert(tail[j - 1] == bs[j]);
                    },
                    Option::None => {},
                }
            } else {
                let m = seq![bs[0]] + rest;
                assert(missing_secs(a_ss, bs) == m);
                assert(m[0] == bs[0]);
                assert(m.subrange(1, m.len() as int) =~= rest);
                assert(forall|k: int| 1 <= k < m.len() ==> (#[trigger] m[k]) == rest[k - 1]);
                match sec_idx(bs, name) {
                    Option::Some(j) => {
                        let k = sec_idx(rest, name).unwrap();
                        lemma_sec_idx(rest, name);
                        assert(m.subrange(1, m.len() as int) == rest);
                        assert(sec_idx(m, name) == Option::Some(k + 1));
                        assert(m[k + 1] == rest[k]);
                    },
                    Option::None => {
                        assert(sec_idx(m, name) is None);
                    },
                }
            }
        }
    }
}

/// Where a name resolves in the merged section table, and to what.
pub proof fn lemma_merged_secs_lookup(a_ss: Seq<SectionV>, b_ss: Seq<SectionV>, name: Seq<u8>)
    ensures
        match sec_idx(a_ss, name) {
            Option::Some(i) => sec_idx(merged_sections(a_ss, b_ss), name) == Option::Some(i)
                && merged_sections(a_ss, b_ss)[i] == merge_sec_entry(a_ss[i], b_ss),
            Option::None => match sec_idx(b_ss, name) {
                Option::Some(j) => {
                    &&& sec_idx(merged_sections(a_ss, b_ss), name) is Some
                    &&& merged_sections(a_ss, b_ss)[sec_idx(
                        merged_sections(a_ss, b_ss),
                        name,
                    ).unwrap()] == b_ss[j]
                },
                Option::None => sec_idx(merged_sections(a_ss, b_ss), name) is None,
            },
        },
{
    let mapped = a_ss.map_values(|s: SectionV| merge_sec_entry(s, b_ss));
    let missing = missing_secs(a_ss, b_ss);
    lemma_sec_idx_concat(mapped, missing, name);
    lemma_sec_idx_mapped(a_ss, b_ss, name);
    lemma_sec_idx(a_ss, name);
    match sec_idx(a_ss, name) {
        Option::Some(i) => {
            assert((mapped + missing)[i] == mapped[i]);
        },
        Option::None => {
            lemma_missing_secs(a_ss, b_ss, name);
            match sec_idx(b_ss, name) {
                Option::Some(j) => {
                    let k = sec_idx(missing, name).unwrap();
                    lemma_sec_idx(missing, name);
                    assert((mapped + missing)[mapped.len() + k] == missing[k]);
                },
                Option::None => {},
            }
        },
    }
}

} // verus!

verus! {

/// Rebased offset of second-file content: `off` plus the length the matching
/// section already had in the first file, read off the merged table.
fn rebased_offset(
    merged: &Vec<Section>,
    bsecs: &Vec<Section>,
    name: &Vec<u8>,
    off: usize,
    Ghost(a_ss): Ghost<Seq<SectionV>>,
) -> (r: usize)
    requires
        merged@.map_values(|s: Section| s@) == merged_sections(
            a_ss,
            bsecs@.map_values(|s: Section| s@),
        ),
        match sec_idx(bsecs@.map_values(|s: Section| s@), name@) {
            Option::Some(j) => off <= bsecs@.map_values(|s: Section| s@)[j].data.len(),
            Option::None => false,
        },
    ensures
        r == off + sec_delta(a_ss, name@),
{
    let ghost bsecv = bsecs@.map_values(|s: Section| s@);
    proof {
        lemma_merged_secs_lookup(a_ss, bsecv, name@);
        lemma_sec_idx(bsecv, name@);
        lemma_sec_idx(a_ss, name@);
    }
    let mi = match find_section(merged, name) {
        Option::Some(x) => x,
        Option::None => {
            proof {
                assert(false);
            }
            0
        },
    };
    let ml = merged[mi].data.len();
    let bj = match find_section(bsecs, name) {
        Option::Some(x) => x,
        Option::None => {
            proof {
                assert(false);
            }
            0
        },
    };
    let bl = bsecs[bj].data.len();
    proof {
        match sec_idx(a_ss, name@) {
            Option::Some(ai) => {
                assert(merged@.map_values(|s: Section| s@)[mi as int] == merge_sec_entry(
                    a_ss[ai],
                    bsecv,
                ));
                assert(ml == a_ss[ai].data.len() + bl);
                assert(sec_delta(a_ss, name@) == a_ss[ai].data.len());
            },
            Option::None => {
                assert(merged@.map_values(|s: Section| s@)[mi as int] == bsecv[
                    sec_idx(bsecv, name@).unwrap()]);
                assert(ml == bl);
                assert(sec_delta(a_ss, name@) == 0);
            },
        }
    }
    off + (ml - bl)
}

impl ObjectFile {
    /// Merge `other` into `self`.  Matching sections are appended, second-file
    /// symbols and relocations are rebased, references unify with
    /// definitions, and a symbol defined in both files fails with
    /// `DuplicateDefinition` leaving `self` untouched.
    pub fn merge(&mut self, other: ObjectFile) -> (r: Result<(), MergeError>)
        requires
            old(self)@.wf(),
            other@.wf(),
        ensures
            r is Err <==> dup_def(old(self)@, other@),
            match r {
                Result::Ok(()) => final(self)@ == merged_object(old(self)@, other@)
                    && final(self)@.wf(),
                Result::Err(MergeError::DuplicateDefinition(n)) => final(self)@ == old(self)@
                    && defined(old(self)@, n@) && defined(other@, n@),
            },
    {
        let ghost a0 = old(self)@;
        let ghost b0 = other@;
        let mut j: usize = 0;
        while j < other.symbols.len()
            invariant
                0 <= j <= other.symbols.len(),
                *self == *old(self),
                a0 == old(self)@,
                b0 == other@,
                b0.symbols.len() == other.symbols.len(),
                a0.wf(),
                b0.wf(),
                forall|k: int| 0 <= k < j ==> !((#[trigger] b0.symbols[k]).def is Some && defined(
                    a0,
                    b0.symbols[k].name,
                )),
            decreases other.symbols.len() - j,
        {
            if other.symbols[j].def.is_some() {
                match find_symbol(&self.symbols, &other.symbols[j].name) {
                    Option::Some(i) => {
                        if self.symbols[i].def.is_some() {
                            let n = copy_bytes(&other.symbols[j].name);
                            proof {
                                assert(defined(a0, n@));
                                assert(forall|k: int| 0 <= k < j ==> b0.symbols[k].name != n@);
                                lemma_sym_idx_at(b0.symbols, n@, j as int);
                                assert(defined(b0, n@));
                                assert(b0.symbols[j as int].def is Some);
                                assert(dup_def(a0, b0));
                            }
                            return Result::Err(MergeError::DuplicateDefinition(n));
                        }
                    },
                    Option::None => {},
                }
            }
            j += 1;
        }
        proof {
            assert(!dup_def(a0, b0));
        }
        let mut new_sections: Vec<Section> = Vec::new();
        let mut i: usize = 0;
        while i < self.sections.len()
            invariant
                0 <= i <= self.sections.len(),
                *self == *old(self),
                a0 == old(self)@,
                b0 == other@,
                b0.sections.len() == other.sections.len(),
                new_sections@.len() == i,
                forall|k: int| 0 <= k < i ==> (#[trigger] new_sections@[k])@ == merge_sec_entry(
                    a0.sections[k],
                    b0.sections,
                ),
            decreases self.sections.len() - i,
        {
            let mut data = copy_bytes(&self.sections[i].data);
            match find_section(&other.sections, &self.sections[i].name) {
                Option::Some(bj) => {
                    let mut t: usize = 0;
                    while t < other.sections[bj].data.len()
                        invariant
                            bj < other.sections.len(),
                            0 <= t <= other.sections@[bj as int].data@.len(),
                            data@ == old(self)@.sections[i as int].data
                                + other.sections@[bj as int].data@.subrange(0, t as int),
                            i < old(self).sections.len(),
                        decreases other.sections@[bj as int].data@.len() - t,
                    {
                        data.push(other.sections[bj].data[t]);
                        proof {
                            assert(data@ =~= old(self)@.sections[i as int].data
                                + other.sections@[bj as int].data@.subrange(0, t + 1));
                        }
                        t += 1;
                    }
                    proof {
                        assert(other.sections@[bj as int].data@.subrange(
                            0,
                            other.sections@[bj as int].data@.len() as int,
                        ) =~= b0.sections[bj as int].data);
                    }
                },
                Option::None => {},
            }
            let entry = Section {
                name: copy_bytes(&self.sections[i].name),
                kind: self.sections[i].kind,
                alignment: self.sections[i].alignment,
                data,
            };
            new_sections.push(entry);
            proof {
                assert(new_sections@[i as int]@ =~= merge_sec_entry(
                    a0.sections[i as int],
                    b0.sections,
                ));
            }
            i += 1;
        }
        proof {
            assert(new_sections@.map_values(|s: Section| s@) =~= a0.sections.map_values(
                |s: SectionV| merge_sec_entry(s, b0.sections),
            ));
            assert(b0.sections.subrange(0, b0.sections.len() as int) =~= b0.sections);
        }
        let ghost mapped_secs = a0.sections.map_values(|s: SectionV| merge_sec_entry(s, b0.sections));
        let mut t2: usize = 0;
        while t2 < other.sections.len()
            invariant
                0 <= t2 <= other.sections.len(),
                *self == *old(self),
                a0 == old(self)@,
                b0 == other@,
                b0.sections.len() == other.sections.len(),
                mapped_secs + missing_secs(a0.sections, b0.sections) == new_sections@.map_values(
                    |s: Section| s@,
                ) + missing_secs(a0.sections, b0.sections.subrange(
                    t2 as int,
                    b0.sections.len() as int,
                )),
            decreases other.sections.len() - t2,
        {
            let ghost rem = b0.sections.subrange(t2 as int, b0.sections.len() as int);
            proof {
                assert(rem[0] == b0.sections[t2 as int]);
                assert(rem.subrange(1, rem.len() as int) =~= b0.sections.subrange(
                    t2 + 1,
                    b0.sections.len() as int,
                ));
            }
            match find_section(&self.sections, &other.sections[t2].name) {
                Option::Some(_) => {
                    proof {
                        assert(has_sec(a0.sections, rem[0].name));
                    }
                },
                Option::None => {
                    proof {
                        assert(!has_sec(a0.sections, rem[0].name));
                    }
                    new_sections.push(other.sections[t2].duplicate());
                    proof {
                        assert(new_sections@.map_values(|s: Section| s@) =~= new_sections@.subrange(
                            0,
                            new_sections@.len() - 1,
                        ).map_values(|s: Section| s@) + seq![b0.sections[t2 as int]]);
                        assert(mapped_secs + missing_secs(a0.sections, b0.sections)
                            =~= new_sections@.map_values(|s: Section| s@) + missing_secs(
                            a0.sections,
                            b0.sections.subrange(t2 + 1, b0.sections.len() as int),
                        ));
                    }
                },
            }
            t2 += 1;
        }
        proof {
            assert(missing_secs(
                a0.sections,
                b0.sections.subrange(b0.sections.len() as int, b0.sections.len() as int),
            ) == Seq::<SectionV>::empty());
            assert(new_sections@.map_values(|s: Section| s@) =~= merged_sections(
                a0.sections,
                b0.sections,
            ));
        }
        let mut new_symbols: Vec<Symbol> = Vec::new();
        let mut i2: usize = 0;
        while i2 < self.symbols.len()
            invariant
                0 <= i2 <= self.symbols.len(),
                *self == *old(self),
                a0 == old(self)@,
                b0 == other@,
                b0.symbols.len() == other.symbols.len(),
                b0.sections.len() == other.sections.len(),
                a0.wf(),
                b0.wf(),
                new_sections@.map_values(|s: Section| s@) == merged_sections(
                    a0.sections,
                    b0.sections,
                ),
                new_symbols@.len() == i2,
                forall|k: int| 0 <= k < i2 ==> (#[trigger] new_symbols@[k])@ == merge_sym_entry(
                    a0.symbols[k],
                    a0.sections,
                    b0.symbols,
                ),
            decreases self.symbols.len() - i2,
        {
            let mut replaced = false;
            if self.symbols[i2].def.is_none() {
                match find_symbol(&other.symbols, &self.symbols[i2].name) {
                    Option::Some(bj) => {
                        match &other.symbols[bj].def {
                            Option::Some(d) => {
                                proof {
                                    assert(b0.symbols[bj as int].def == Option::Some(d@));
                                    assert(match sec_idx(b0.sections, d@.section) {
                                        Option::Some(x) => d@.offset
                                            <= b0.sections[x].data.len(),
                                        Option::None => false,
                                    });
                                }
                                let noff = rebased_offset(
                                    &new_sections,
                                    &other.sections,
                                    &d.section,
                                    d.offset,
                                    Ghost(a0.sections),
                                );
                                let entry = Symbol {
                                    name: copy_bytes(&other.symbols[bj].name),
                                    visibility: other.symbols[bj].visibility,
                                    def: Option::Some(
                                        SymbolDef { section: copy_bytes(&d.section), offset: noff },
                                    ),
                                };
                                new_symbols.push(entry);
                                replaced = true;
                                proof {
                                    assert(new_symbols@[i2 as int]@ =~= merge_sym_entry(
                                        a0.symbols[i2 as int],
                                        a0.sections,
                                        b0.symbols,
                                    ));
                                }
                            },
                            Option::None => {},
                        }
                    },
                    Option::None => {},
                }
            }
            if !replaced {
                new_symbols.push(self.symbols[i2].duplicate());
                proof {
                    assert(new_symbols@[i2 as int]@ =~= merge_sym_entry(
                        a0.symbols[i2 as int],
                        a0.sections,
                        b0.symbols,
                    ));
                }
            }
            i2 += 1;
        }
        proof {
            assert(new_symbols@.map_values(|s: Symbol| s@) =~= a0.symbols.map_values(
                |s: SymbolV| merge_sym_entry(s, a0.sections, b0.symbols),
            ));
            assert(b0.symbols.subrange(0, b0.symbols.len() as int) =~= b0.symbols);
        }
        let ghost mapped_syms = a0.symbols.map_values(
            |s: SymbolV| merge_sym_entry(s, a0.sections, b0.symbols),
        );
        let mut t3: usize = 0;
        while t3 < other.symbols.len()
            invariant
                0 <= t3 <= other.symbols.len(),
                *self == *old(self),
                a0 == old(self)@,
                b0 == other@,
                b0.symbols.len() == other.symbols.len(),
                b0.sections.len() == other.sections.len(),
                a0.wf(),
                b0.wf(),
                new_sections@.map_values(|s: Section| s@) == merged_sections(
                    a0.sections,
                    b0.sections,
                ),
                mapped_syms + missing_syms(a0.symbols, a0.sections, b0.symbols)
                    == new_symbols@.map_values(|s: Symbol| s@) + missing_syms(
                    a0.symbols,
                    a0.sections,
                    b0.symbols.subrange(t3 as int, b0.symbols.len() as int),
                ),
            decreases other.symbols.len() - t3,
        {
            let ghost rem = b0.symbols.subrange(t3 as int, b0.symbols.len() as int);
            proof {
                assert(rem[0] == b0.symbols[t3 as int]);
                assert(rem.subrange(1, rem.len() as int) =~= b0.symbols.subrange(
                    t3 + 1,
                    b0.symbols.len() as int,
                ));
            }
            match find_symbol(&self.symbols, &other.symbols[t3].name) {
                Option::Some(_) => {
                    proof {
                        assert(has_sym(a0.symbols, rem[0].name));
                    }
                },
                Option::None => {
                    proof {
                        assert(!has_sym(a0.symbols, rem[0].name));
                    }
                    let entry = match &other.symbols[t3].def {
                        Option::Some(d) => {
                            proof {
                                assert(b0.symbols[t3 as int].def == Option::Some(d@));
                                assert(match sec_idx(b0.sections, d@.section) {
                                    Option::Some(x) => d@.offset <= b0.sections[x].data.len(),
                                    Option::None => false,
                                });
                            }
                            let noff = rebased_offset(
                                &new_sections,
                                &other.sections,
                                &d.section,
                                d.offset,
                                Ghost(a0.sections),
                            );
                            Symbol {
                                name: copy_bytes(&other.symbols[t3].name),
                                visibility: other.symbols[t3].visibility,
                                def: Option::Some(
                                    SymbolDef { section: copy_bytes(&d.section), offset: noff },
                                ),
                            }
                        },
                        Option::None => other.symbols[t3].duplicate(),
                    };
                    new_symbols.push(entry);
                    proof {
                        assert(new_symbols@[new_symbols@.len() - 1]@ =~= shift_symbol(
                            b0.symbols[t3 as int],
                            a0.sections,
                        ));
                        assert(new_symbols@.map_values(|s: Symbol| s@) =~= new_symbols@.subrange(
                            0,
                            new_symbols@.len() - 1,
                        ).map_values(|s: Symbol| s@) + seq![shift_symbol(
                            b0.symbols[t3 as int],
                            a0.sections,
                        )]);
                        assert(mapped_syms + missing_syms(a0.symbols, a0.sections, b0.symbols)
                            =~= new_symbols@.map_values(|s: Symbol| s@) + missing_syms(
                            a0.symbols,
                            a0.sections,
                            b0.symbols.subrange(t3 + 1, b0.symbols.len() as int),
                        ));
                    }
                },
            }
            t3 += 1;
        }
        proof {
            assert(missing_syms(
                a0.symbols,
                a0.sections,
                b0.symbols.subrange(b0.symbols.len() as int, b0.symbols.len() as int),
            ) == Seq::<SymbolV>::empty());
            assert(new_symbols@.map_values(|s: Symbol| s@) =~= mapped_syms + missing_syms(
                a0.symbols,
                a0.sections,
                b0.symbols,
            ));
        }
        let mut new_relocs: Vec<Relocation> = Vec::new();
        let mut i3: usize = 0;
        while i3 < self.relocations.len()
            invariant
                0 <= i3 <= self.relocations.len(),
                *self == *old(self),
                a0 == old(self)@,
                new_relocs@.len() == i3,
                forall|k: int| 0 <= k < i3 ==> (#[trigger] new_relocs@[k])@ == a0.relocations[k],
            decreases self.relocations.len() - i3,
        {
            new_relocs.push(self.relocations[i3].duplicate());
            i3 += 1;
        }
        let mut t4: usize = 0;
        while t4 < other.relocations.len()
            invariant
                0 <= t4 <= other.relocations.len(),
                *self == *old(self),
                a0 == old(self)@,
                b0 == other@,
                b0.relocations.len() == other.relocations.len(),
                b0.sections.len() == other.sections.len(),
                b0.wf(),
                new_sections@.map_values(|s: Section| s@) == merged_sections(
                    a0.sections,
                    b0.sections,
                ),
                new_relocs@.len() == a0.relocations.len() + t4,
                forall|k: int| 0 <= k < a0.relocations.len() ==> (#[trigger] new_relocs@[k])@
                    == a0.relocations[k],
                forall|k: int| 0 <= k < t4 ==> (#[trigger] new_relocs@[a0.relocations.len() + k])@
                    == shift_reloc(b0.relocations[k], a0.sections),
            decreases other.relocations.len() - t4,
        {
            proof {
                assert(b0.relocations[t4 as int] == other.relocations@[t4 as int]@);
                assert(match sec_idx(b0.sections, b0.relocations[t4 as int].section) {
                    Option::Some(x) => b0.relocations[t4 as int].offset
                        <= b0.sections[x].data.len(),
                    Option::None => false,
                });
            }
            let noff = rebased_offset(
                &new_sections,
                &other.sections,
                &other.relocations[t4].section,
                other.relocations[t4].offset,
                Ghost(a0.sections),
            );
            let entry = Relocation {
                section: copy_bytes(&other.relocations[t4].section),
                offset: noff,
                symbol: copy_bytes(&other.relocations[t4].symbol),
                kind: other.relocations[t4].kind,
            };
            new_relocs.push(entry);
            proof {
                assert(new_relocs@[a0.relocations.len() + t4]@ =~= shift_reloc(
                    b0.relocations[t4 as int],
                    a0.sections,
                ));
            }
            t4 += 1;
        }
        self.sections = new_sections;
        self.symbols = new_symbols;
        self.relocations = new_relocs;
        proof {
            let rhs = a0.relocations + b0.relocations.map_values(
                |r: RelocationV| shift_reloc(r, a0.sections),
            );
            assert forall|k: int| 0 <= k < self@.relocations.len() implies self@.relocations[k]
                == rhs[k] by {
                if k >= a0.relocations.len() {
                    let m = k - a0.relocations.len();
                    assert(new_relocs@[a0.relocations.len() + m]@ == shift_reloc(
                        b0.relocations[m],
                        a0.sections,
                    ));
                }
            }
            assert(self@.relocations =~= rhs);
            assert(self@ =~= merged_object(a0, b0));
            lemma_merged_wf(a0, b0);
        }
        Result::Ok(())
    }
}

} // verus!

verus! {

/// One direction of duplicate-detection symmetry.
proof fn lemma_dup_def_flip(a: ObjectFileV, b: ObjectFileV)
    requires
        a.wf(),
        b.wf(),
        dup_def(a, b),
    ensures
        dup_def(b, a),
{
    let i = choose|i: int|
        0 <= i < b.symbols.len() && (#[trigger] b.symbols[i]).def is Some && defined(
            a,
            b.symbols[i].name,
        );
    let name = b.symbols[i].name;
    lemma_sym_idx(a.symbols, name);
    let ai = sym_idx(a.symbols, name).unwrap();
    assert(forall|k: int| 0 <= k < i ==> b.symbols[k].name != name);
    lemma_sym_idx_at(b.symbols, name, i);
    assert(defined(b, a.symbols[ai].name));
    assert(dup_def(b, a));
}

/// Whether two object files can merge does not depend on their order: the
/// duplicate-definition check fails one way exactly when it fails the other
/// way.
pub proof fn lemma_merge_failure_symmetric(a: ObjectFileV, b: ObjectFileV)
    requires
        a.wf(),
        b.wf(),
    ensures
        dup_def(a, b) <==> dup_def(b, a),
{
    if dup_def(a, b) {
        lemma_dup_def_flip(a, b);
    }
    if dup_def(b, a) {
        lemma_dup_def_flip(b, a);
    }
}

} // verus!

verus! {

/// Every new-section entry is one of the second file's sections whose name
/// the first file lacks; distinct entries come from distinct names.
proof fn lemma_missing_secs_names(a_ss: Seq<SectionV>, bs: Seq<SectionV>)
    ensures
        forall|k: int| 0 <= k < missing_secs(a_ss, bs).len() ==> exists|q: int|
            0 <= q < bs.len() && #[trigger] missing_secs(a_ss, bs)[k] == bs[q] && !has_sec(
                a_ss,
                bs[q].name,
            ),
    decreases bs.len(),
{
    if bs.len() != 0 {
        let tail = bs.subrange(1, bs.len() as int);
        lemma_missing_secs_names(a_ss, tail);
        let rest = missing_secs(a_ss, tail);
        assert(forall|q: int| 0 <= q < tail.len() ==> #[trigger] tail[q] == bs[q + 1]);
        if has_sec(a_ss, bs[0].name) {
            assert forall|k: int| 0 <= k < missing_secs(a_ss, bs).len() implies exists|q: int|
                0 <= q < bs.len() && #[trigger] missing_secs(a_ss, bs)[k] == bs[q] && !has_sec(
                    a_ss,
                    bs[q].name,
                ) by {
                let q0 = choose|q: int|
                    0 <= q < tail.len() && #[trigger] rest[k] == tail[q] && !has_sec(
                        a_ss,
                        tail[q].name,
                    );
                assert(missing_secs(a_ss, bs)[k] == bs[q0 + 1]);
            }
        } else {
            let m = seq![bs[0]] + rest;
            assert(missing_secs(a_ss, bs) == m);
            assert forall|k: int| 0 <= k < m.len() implies exists|q: int|
                0 <= q < bs.len() && #[trigger] m[k] == bs[q] && !has_sec(a_ss, bs[q].name) by {
                if k == 0 {
                    assert(m[0] == bs[0]);
                } else {
                    assert(m[k] == rest[k - 1]);
                    let q0 = choose|q: int|
                        0 <= q < tail.len() && #[trigger] rest[k - 1] == tail[q] && !has_sec(
                            a_ss,
                            tail[q].name,
                        );
                    assert(m[k] == bs[q0 + 1]);
                }
            }
        }
    }
}

/// A successful merge of well-formed object files is well-formed.
pub proof fn lemma_merged_wf(a: ObjectFileV, b: ObjectFileV)
    requires
        a.wf(),
        b.wf(),
    ensures
        merged_object(a, b).wf(),
{
    let m = merged_object(a, b);
    lemma_missing_secs_names(a.sections, b.sections);
    // Section names are unique and alignments stay positive.
    lemma_missing_secs_distinct(a.sections, b.sections);
    let mapped0 = a.sections.map_values(|s: SectionV| merge_sec_entry(s, b.sections));
    let missing0 = missing_secs(a.sections, b.sections);
    assert forall|i: int, j: int| 0 <= i < j < m.sections.len() implies m.sections[i].name
        != m.sections[j].name by {
        if j < mapped0.len() {
            assert(m.sections[i] == mapped0[i]);
            assert(m.sections[j] == mapped0[j]);
        } else if i < mapped0.len() {
            assert(m.sections[i] == mapped0[i]);
            assert(m.sections[j] == missing0[j - mapped0.len()]);
            lemma_sec_idx(a.sections, m.sections[j].name);
        } else {
            assert(m.sections[i] == missing0[i - mapped0.len()]);
            assert(m.sections[j] == missing0[j - mapped0.len()]);
        }
    }
    assert forall|i: int| 0 <= i < m.sections.len() implies (#[trigger] m.sections[i]).alignment
        >= 1 by {
        let mapped = a.sections.map_values(|s: SectionV| merge_sec_entry(s, b.sections));
        if i < mapped.len() {
            assert(m.sections[i] == mapped[i]);
        } else {
            assert(m.sections[i] == missing_secs(a.sections, b.sections)[i - mapped.len()]);
        }
    }
    // Each symbol definition still points into an existing section.
    assert forall|i: int| 0 <= i < m.symbols.len() implies match (#[trigger] m.symbols[i]).def {
        Option::Some(d) => match sec_idx(m.sections, d.section) {
            Option::Some(j) => d.offset <= m.sections[j].data.len(),
            Option::None => false,
        },
        Option::None => true,
    } by {
        let mapped = a.symbols.map_values(|s: SymbolV| merge_sym_entry(s, a.sections, b.symbols));
        if i < mapped.len() {
            assert(m.symbols[i] == mapped[i]);
            lemma_entry_def_ok(a, b, a.symbols[i]);
        } else {
            lemma_missing_syms_def_ok(a, b, b.symbols, i - mapped.len());
            assert(m.symbols[i] == missing_syms(a.symbols, a.sections, b.symbols)[i
                - mapped.len()]);
        }
    }
    // Symbol names are unique.
    assert forall|i: int, j: int| 0 <= i < j < m.symbols.len() implies m.symbols[i].name
        != m.symbols[j].name by {
        lemma_merged_syms_names(a, b, i);
        lemma_merged_syms_names(a, b, j);
        if m.symbols[i].name == m.symbols[j].name {
            lemma_sym_idx(a.symbols, m.symbols[i].name);
        }
    }
    // Every relocation still fits inside its section.
    assert forall|i: int| 0 <= i < m.relocations.len() implies {
        let r = #[trigger] m.relocations[i];
        match sec_idx(m.sections, r.section) {
            Option::Some(j) => r.offset + crate::model::patch_width(r.kind) <= m.sections[
                j].data.len(),
            Option::None => false,
        }
    } by {
        if i < a.relocations.len() {
            assert(m.relocations[i] == a.relocations[i]);
            let r = a.relocations[i];
            assert(match sec_idx(a.sections, r.section) {
                Option::Some(j) => r.offset + crate::model::patch_width(r.kind) <= a.sections[
                    j].data.len(),
                Option::None => false,
            });
            lemma_merged_secs_lookup(a.sections, b.sections, r.section);
            let x = sec_idx(a.sections, r.section).unwrap();
            lemma_sec_idx(a.sections, r.section);
            assert(m.sections[x] == merge_sec_entry(a.sections[x], b.sections));
            assert(m.sections[x].data.len() >= a.sections[x].data.len());
        } else {
            let k = i - a.relocations.len();
            assert(m.relocations[i] == b.relocations.map_values(
                |r2: RelocationV| shift_reloc(r2, a.sections),
            )[k]);
            assert(m.relocations[i] == shift_reloc(b.relocations[k], a.sections));
            let r = b.relocations[k];
            assert(match sec_idx(b.sections, r.section) {
                Option::Some(j) => r.offset + crate::model::patch_width(r.kind) <= b.sections[
                    j].data.len(),
                Option::None => false,
            });
            lemma_merged_secs_lookup(a.sections, b.sections, r.section);
            lemma_sec_idx(b.sections, r.section);
            lemma_sec_idx(a.sections, r.section);
            let bj = sec_idx(b.sections, r.section).unwrap();
            match sec_idx(a.sections, r.section) {
                Option::Some(x) => {
                    assert(m.sections[x] == merge_sec_entry(a.sections[x], b.sections));
                    assert(m.sections[x].data.len() == a.sections[x].data.len() + b.sections[
                        bj].data.len());
                    assert(sec_delta(a.sections, r.section) == a.sections[x].data.len());
                },
                Option::None => {
                    assert(sec_delta(a.sections, r.section) == 0);
                },
            }
        }
    }
}

/// A first-file symbol entry keeps a valid definition after the merge.
proof fn lemma_entry_def_ok(a: ObjectFileV, b: ObjectFileV, s: SymbolV)
    requires
        a.wf(),
        b.wf(),
        exists|i: int| 0 <= i < a.symbols.len() && a.symbols[i] == s,
    ensures
        match merge_sym_entry(s, a.sections, b.symbols).def {
            Option::Some(d) => match sec_idx(merged_sections(a.sections, b.sections), d.section) {
                Option::Some(j) => d.offset <= merged_sections(a.sections, b.sections)[
                    j].data.len(),
                Option::None => false,
            },
            Option::None => true,
        },
{
    let i = choose|i: int| 0 <= i < a.symbols.len() && a.symbols[i] == s;
    match s.def {
        Option::Some(d) => {
            lemma_merged_secs_lookup(a.sections, b.sections, d.section);
            lemma_sec_idx(a.sections, d.section);
        },
        Option::None => {
            match sym_idx(b.symbols, s.name) {
                Option::Some(bj) => {
                    lemma_sym_idx(b.symbols, s.name);
                    if b.symbols[bj].def is Some {
                        let d = b.symbols[bj].def.unwrap();
                        lemma_merged_secs_lookup(a.sections, b.sections, d.section);
                        lemma_sec_idx(a.sections, d.section);
                        lemma_sec_idx(b.sections, d.section);
                    }
                },
                Option::None => {},
            }
        },
    }
}

/// A rebased second-file symbol keeps a valid definition after the merge.
proof fn lemma_missing_syms_def_ok(a: ObjectFileV, b: ObjectFileV, bs: Seq<SymbolV>, k: int)
    requires
        a.wf(),
        b.wf(),
        0 <= k < missing_syms(a.symbols, a.sections, bs).len(),
        forall|q: int| 0 <= q < bs.len() ==> exists|w: int|
            0 <= w < b.symbols.len() && #[trigger] bs[q] == b.symbols[w],
    ensures
        match missing_syms(a.symbols, a.sections, bs)[k].def {
            Option::Some(d) => match sec_idx(merged_sections(a.sections, b.sections), d.section) {
                Option::Some(j) => d.offset <= merged_sections(a.sections, b.sections)[
                    j].data.len(),
                Option::None => false,
            },
            Option::None => true,
        },
    decreases bs.len(),
{
    if bs.len() != 0 {
        let tail = bs.subrange(1, bs.len() as int);
        let rest = missing_syms(a.symbols, a.sections, tail);
        assert(forall|q: int| 0 <= q < tail.len() ==> #[trigger] tail[q] == bs[q + 1]);
        if has_sym(a.symbols, bs[0].name) {
            lemma_missing_syms_def_ok(a, b, tail, k);
        } else {
            let mm = seq![shift_symbol(bs[0], a.sections)] + rest;
            assert(missing_syms(a.symbols, a.sections, bs) == mm);
            if k == 0 {
                assert(mm[0] == shift_symbol(bs[0], a.sections));
                match bs[0].def {
                    Option::Some(d) => {
                        let w = choose|w: int|
                            0 <= w < b.symbols.len() && #[trigger] bs[0] == b.symbols[w];
                        lemma_merged_secs_lookup(a.sections, b.sections, d.section);
                        lemma_sec_idx(a.sections, d.section);
                        lemma_sec_idx(b.sections, d.section);
                    },
                    Option::None => {},
                }
            } else {
                assert(mm[k] == rest[k - 1]);
                lemma_missing_syms_def_ok(a, b, tail, k - 1);
            }
        }
    }
}

/// Each merged symbol's name and place: first-file entries keep their names
/// in position, and appended entries carry names the first file lacks, in
/// the second file's order.
proof fn lemma_merged_syms_names(a: ObjectFileV, b: ObjectFileV, i: int)
    requires
        a.wf(),
        b.wf(),
        0 <= i < merged_object(a, b).symbols.len(),
    ensures
        i < a.symbols.len() ==> merged_object(a, b).symbols[i].name == a.symbols[i].name,
        i >= a.symbols.len() ==> !has_sym(a.symbols, merged_object(a, b).symbols[i].name)
            && sym_idx(b.symbols, merged_object(a, b).symbols[i].name) is Some,
        forall|j: int|
            a.symbols.len() <= j < merged_object(a, b).symbols.len() && j != i && i
                >= a.symbols.len() ==> merged_object(a, b).symbols[i].name != #[trigger] merged_object(
                a,
                b,
            ).symbols[j].name,
{
    let m = merged_object(a, b);
    let mapped = a.symbols.map_values(|s: SymbolV| merge_sym_entry(s, a.sections, b.symbols));
    if i < a.symbols.len() {
        assert(m.symbols[i] == mapped[i]);
        match a.symbols[i].def {
            Option::Some(_) => {},
            Option::None => {
                lemma_sym_idx(b.symbols, a.symbols[i].name);
            },
        }
    } else {
        lemma_missing_syms_distinct(a.symbols, a.sections, b.symbols);
        assert(m.symbols[i] == missing_syms(a.symbols, a.sections, b.symbols)[i - mapped.len()]);
        assert forall|j: int|
            a.symbols.len() <= j < m.symbols.len() && j != i implies m.symbols[i].name
            != #[trigger] m.symbols[j].name by {
            assert(m.symbols[j] == missing_syms(a.symbols, a.sections, b.symbols)[j
                - mapped.len()]);
        }
    }
}

/// The appended second-file symbols have pairwise distinct names, names the
/// first file lacks, and names found in the second file.
proof fn lemma_missing_syms_distinct(a_syms: Seq<SymbolV>, a_ss: Seq<SectionV>, bs: Seq<SymbolV>)
    requires
        sym_names_unique(bs),
    ensures
        forall|k: int| 0 <= k < missing_syms(a_syms, a_ss, bs).len() ==> !has_sym(
            a_syms,
            (#[trigger] missing_syms(a_syms, a_ss, bs)[k]).name,
        ) && sym_idx(bs, missing_syms(a_syms, a_ss, bs)[k].name) is Some,
        forall|k: int, l: int| 0 <= k < l < missing_syms(a_syms, a_ss, bs).len()
            ==> missing_syms(a_syms, a_ss, bs)[k].name != missing_syms(a_syms, a_ss, bs)[l].name,
    decreases bs.len(),
{
    if bs.len() != 0 {
        let tail = bs.subrange(1, bs.len() as int);
        assert(forall|q: int| 0 <= q < tail.len() ==> #[trigger] tail[q] == bs[q + 1]);
        assert(sym_names_unique(tail));
        lemma_missing_syms_distinct(a_syms, a_ss, tail);
        let rest = missing_syms(a_syms, a_ss, tail);
        assert forall|k: int| 0 <= k < rest.len() implies sym_idx(bs, rest[k].name) is Some by {
            lemma_sym_idx(tail, rest[k].name);
            lemma_sym_idx(bs, rest[k].name);
        }
        if !has_sym(a_syms, bs[0].name) {
            let mm = seq![shift_symbol(bs[0], a_ss)] + rest;
            assert(missing_syms(a_syms, a_ss, bs) == mm);
            assert(mm[0].name == bs[0].name);
            assert(sym_idx(bs, bs[0].name) is Some);
            assert forall|l: int| 1 <= l < mm.len() implies mm[0].name != (#[trigger] mm[
            l]).name by {
                assert(mm[l] == rest[l - 1]);
                lemma_sym_idx(tail, rest[l - 1].name);
                let w = sym_idx(tail, rest[l - 1].name).unwrap();
                assert(tail[w].name == rest[l - 1].name);
                assert(bs[w + 1].name == tail[w].name);
            }
        }
    }
}


/// The new-section entries have pairwise distinct names, names the first
/// file lacks.
proof fn lemma_missing_secs_distinct(a_ss: Seq<SectionV>, bs: Seq<SectionV>)
    requires
        sec_names_unique(bs),
    ensures
        forall|k: int| 0 <= k < missing_secs(a_ss, bs).len() ==> !has_sec(
            a_ss,
            (#[trigger] missing_secs(a_ss, bs)[k]).name,
        ),
        forall|k: int, l: int| 0 <= k < l < missing_secs(a_ss, bs).len() ==> missing_secs(
            a_ss,
            bs,
        )[k].name != missing_secs(a_ss, bs)[l].name,
    decreases bs.len(),
{
    if bs.len() != 0 {
        let tail = bs.subrange(1, bs.len() as int);
        assert(forall|q: int| 0 <= q < tail.len() ==> #[trigger] tail[q] == bs[q + 1]);
        assert(sec_names_unique(tail));
        lemma_missing_secs_distinct(a_ss, tail);
        let rest = missing_secs(a_ss, tail);
        lemma_missing_secs_names(a_ss, tail);
        if !has_sec(a_ss, bs[0].name) {
            let mm = seq![bs[0]] + rest;
            assert(missing_secs(a_ss, bs) == mm);
            assert(mm[0] == bs[0]);
            assert forall|l: int| 1 <= l < mm.len() implies mm[0].name != (#[trigger] mm[
            l]).name by {
                assert(mm[l] == rest[l - 1]);
                let q0 = choose|q: int|
                    0 <= q < tail.len() && #[trigger] rest[l - 1] == tail[q] && !has_sec(
                        a_ss,
                        tail[q].name,
                    );
                assert(bs[q0 + 1] == tail[q0]);
            }
        }
    }
}

} // verus!

verus! {

/// Lookup distributes over concatenation of symbol tables.
proof fn lemma_sym_idx_concat(s1: Seq<SymbolV>, s2: Seq<SymbolV>, name: Seq<u8>)
    ensures
        sym_idx(s1 + s2, name) == match sym_idx(s1, name) {
            Option::Some(i) => Option::Some(i),
            Option::None => match sym_idx(s2, name) {
                Option::Some(j) => Option::Some(s1.len() + j),
                Option::None => Option::<int>::None,
            },
        },
    decreases s1.len(),
{
    if s1.len() == 0 {
        assert(s1 + s2 =~= s2);
    } else {
        assert((s1 + s2)[0] == s1[0]);
        if s1[0].name != name {
            assert((s1 + s2).subrange(1, (s1 + s2).len() as int) =~= s1.subrange(
                1,
                s1.len() as int,
            ) + s2);
            lemma_sym_idx_concat(s1.subrange(1, s1.len() as int), s2, name);
        }
    }
}

/// Lookup in the merged first-file part matches lookup in the first file.
proof fn lemma_sym_idx_mapped(a: ObjectFileV, b: ObjectFileV, a_syms: Seq<SymbolV>, name: Seq<u8>)
    ensures
        sym_idx(
            a_syms.map_values(|s: SymbolV| merge_sym_entry(s, a.sections, b.symbols)),
            name,
        ) == sym_idx(a_syms, name),
    decreases a_syms.len(),
{
    let mapped = a_syms.map_values(|s: SymbolV| merge_sym_entry(s, a.sections, b.symbols));
    if a_syms.len() != 0 {
        lemma_sym_idx(b.symbols, a_syms[0].name);
        assert(mapped[0].name == a_syms[0].name);
        if a_syms[0].name != name {
            assert(mapped.subrange(1, mapped.len() as int) =~= a_syms.subrange(
                1,
                a_syms.len() as int,
            ).map_values(|s: SymbolV| merge_sym_entry(s, a.sections, b.symbols)));
            lemma_sym_idx_mapped(a, b, a_syms.subrange(1, a_syms.len() as int), name);
        }
    }
}

/// What the appended-symbols list holds for a name that the first file
/// lacks.
proof fn lemma_missing_syms_lookup(
    a_syms: Seq<SymbolV>,
    a_ss: Seq<SectionV>,
    bs: Seq<SymbolV>,
    name: Seq<u8>,
)
    requires
        !has_sym(a_syms, name),
    ensures
        match sym_idx(bs, name) {
            Option::Some(j) => {
                &&& sym_idx(missing_syms(a_syms, a_ss, bs), name) is Some
                &&& missing_syms(a_syms, a_ss, bs)[sym_idx(
                    missing_syms(a_syms, a_ss, bs),
                    name,
                ).unwrap()] == shift_symbol(bs[j], a_ss)
            },
            Option::None => sym_idx(missing_syms(a_syms, a_ss, bs), name) is None,
        },
    decreases bs.len(),
{
    if bs.len() != 0 {
        let tail = bs.subrange(1, bs.len() as int);
        lemma_missing_syms_lookup(a_syms, a_ss, tail, name);
        let rest = missing_syms(a_syms, a_ss, tail);
        assert(forall|k: int| 1 <= k < bs.len() ==> (#[trigger] bs[k]) == tail[k - 1]);
        lemma_sym_idx(bs, name);
        lemma_sym_idx(tail, name);
        if bs[0].name == name {
            assert(!has_sym(a_syms, bs[0].name));
            let m = seq![shift_symbol(bs[0], a_ss)] + rest;
            assert(missing_syms(a_syms, a_ss, bs) == m);
            assert(m[0] == shift_symbol(bs[0], a_ss));
            assert(m[0].name == name);
        } else {
            if has_sym(a_syms, bs[0].name) {
                assert(missing_syms(a_syms, a_ss, bs) == rest);
            } else {
                let m = seq![shift_symbol(bs[0], a_ss)] + rest;
                assert(missing_syms(a_syms, a_ss, bs) == m);
                assert(m[0] == shift_symbol(bs[0], a_ss));
                assert(m[0].name == bs[0].name);
                assert(m.subrange(1, m.len() as int) =~= rest);
                match sym_idx(bs, name) {
                    Option::Some(j) => {
                        let k = sym_idx(rest, name).unwrap();
                        lemma_sym_idx(rest, name);
                        assert(sym_idx(m, name) == Option::Some(k + 1));
                        assert(m[k + 1] == rest[k]);
                    },
                    Option::None => {
                        assert(sym_idx(m, name) is None);
                    },
                }
            }
        }
    }
}

/// A name is defined in a merged object file exactly when it is defined in
/// one of the inputs.
pub proof fn lemma_merged_defined(a: ObjectFileV, b: ObjectFileV, name: Seq<u8>)
    requires
        a.wf(),
        b.wf(),
    ensures
        defined(merged_object(a, b), name) <==> (defined(a, name) || defined(b, name)),
{
    let m = merged_object(a, b);
    let mapped = a.symbols.map_values(|s: SymbolV| merge_sym_entry(s, a.sections, b.symbols));
    let missing = missing_syms(a.symbols, a.sections, b.symbols);
    lemma_sym_idx_concat(mapped, missing, name);
    lemma_sym_idx_mapped(a, b, a.symbols, name);
    lemma_sym_idx(a.symbols, name);
    lemma_sym_idx(b.symbols, name);
    match sym_idx(a.symbols, name) {
        Option::Some(i) => {
            assert(m.symbols[i] == mapped[i]);
            assert(mapped[i] == merge_sym_entry(a.symbols[i], a.sections, b.symbols));
        },
        Option::None => {
            lemma_missing_syms_lookup(a.symbols, a.sections, b.symbols, name);
            match sym_idx(b.symbols, name) {
                Option::Some(j) => {
                    let k = sym_idx(missing, name).unwrap();
                    lemma_sym_idx(missing, name);
                    assert(m.symbols[mapped.len() + k] == missing[k]);
                    assert(missing[k] == shift_symbol(b.symbols[j], a.sections));
                },
                Option::None => {},
            }
        },
    }
}

/// Some symbol is defined in two of the three object files.
pub open spec fn any_pairwise_dup(a: ObjectFileV, b: ObjectFileV, c: ObjectFileV) -> bool {
    dup_def(a, b) || dup_def(a, c) || dup_def(b, c)
}

/// Merging a third file into an already merged pair fails exactly when some
/// name is defined in two of the three inputs.
proof fn lemma_fold_fails(a: ObjectFileV, b: ObjectFileV, c: ObjectFileV)
    requires
        a.wf(),
        b.wf(),
        c.wf(),
        !dup_def(a, b),
    ensures
        dup_def(merged_object(a, b), c) <==> (dup_def(a, c) || dup_def(b, c)),
{
    let m = merged_object(a, b);
    if dup_def(m, c) {
        let i = choose|i: int|
            0 <= i < c.symbols.len() && (#[trigger] c.symbols[i]).def is Some && defined(
                m,
                c.symbols[i].name,
            );
        lemma_merged_defined(a, b, c.symbols[i].name);
        assert(dup_def(a, c) || dup_def(b, c));
    }
    if dup_def(a, c) {
        let i = choose|i: int|
            0 <= i < c.symbols.len() && (#[trigger] c.symbols[i]).def is Some && defined(
                a,
                c.symbols[i].name,
            );
        lemma_merged_defined(a, b, c.symbols[i].name);
        assert(dup_def(m, c));
    }
    if dup_def(b, c) {
        let i = choose|i: int|
            0 <= i < c.symbols.len() && (#[trigger] c.symbols[i]).def is Some && defined(
                b,
                c.symbols[i].name,
            );
        lemma_merged_defined(a, b, c.symbols[i].name);
        assert(dup_def(m, c));
    }
}

/// Merging three object files is order-independent in outcome: folding them
/// in either association (and, with `lemma_merge_failure_symmetric`, in any
/// order) fails at some step exactly when some symbol is defined in two of
/// the three inputs — so every order succeeds, or every order fails.
pub proof fn lemma_merge_outcome_order_independent(a: ObjectFileV, b: ObjectFileV, c: ObjectFileV)
    requires
        a.wf(),
        b.wf(),
        c.wf(),
    ensures
        (dup_def(a, b) || (!dup_def(a, b) && dup_def(merged_object(a, b), c)))
            <==> any_pairwise_dup(a, b, c),
        (dup_def(b, c) || (!dup_def(b, c) && dup_def(a, merged_object(b, c))))
            <==> any_pairwise_dup(a, b, c),
{
    if !dup_def(a, b) {
        lemma_fold_fails(a, b, c);
    }
    if !dup_def(b, c) {
        lemma_merged_wf(b, c);
        lemma_fold_fails(b, c, a);
        lemma_merge_failure_symmetric(a, merged_object(b, c));
        lemma_merge_failure_symmetric(a, b);
        lemma_merge_failure_symmetric(a, c);
    }
}

} // verus!
