//! The shared data model: sections, symbols, relocations, object files and
//! executables, together with their mathematical views and well-formedness
//! conditions, and the small executable helpers (byte comparison, lookup by
//! name, copying) that the other stages build on.

use vstd::prelude::*;

verus! {

/// What a section holds.
#[derive(Clone, Copy, Debug, PartialEq, Eq, Structural)]
pub enum SectionKind {
    Code,
    Data,
}

/// Whether a symbol is visible to other compilation units.
#[derive(Clone, Copy, Debug, PartialEq, Eq, Structural)]
pub enum Visibility {
    Local,
    Global,
}

/// How a resolved address is written at a patch site.
#[derive(Clone, Copy, Debug, PartialEq, Eq, Structural)]
pub enum PatchKind {
    /// Absolute address, one byte.
    Abs1,
    /// Absolute address, two bytes little-endian.
    Abs2,
}

/// The number of image bytes a patch of this kind overwrites.
pub open spec fn patch_width(k: PatchKind) -> nat {
    match k {
        PatchKind::Abs1 => 1,
        PatchKind::Abs2 => 2,
    }
}

/// Executable mirror of [`patch_width`].
pub fn patch_width_of(k: PatchKind) -> (r: usize)
    ensures
        r == patch_width(k),
{
    match k {
        PatchKind::Abs1 => 1,
        PatchKind::Abs2 => 2,
    }
}

/// A named, ordered byte buffer with a kind and an alignment requirement.
#[derive(Debug, PartialEq, Eq)]
pub struct Section {
    pub name: Vec<u8>,
    pub kind: SectionKind,
    pub alignment: usize,
    pub data: Vec<u8>,
}

/// Where a defined symbol lives: a section (by name) and an offset into it.
#[derive(Debug, PartialEq, Eq)]
pub struct SymbolDef {
    pub section: Vec<u8>,
    pub offset: usize,
}

/// A named location (defined) or a named reference (no definition yet).
#[derive(Debug, PartialEq, Eq)]
pub struct Symbol {
    pub name: Vec<u8>,
    pub visibility: Visibility,
    pub def: Option<SymbolDef>,
}

/// A patch site: where in which section a symbol's final address must be
/// written, and how.
#[derive(Debug, PartialEq, Eq)]
pub struct Relocation {
    pub section: Vec<u8>,
    pub offset: usize,
    pub symbol: Vec<u8>,
    pub kind: PatchKind,
}

/// Relocatable assembler output: sections, a symbol table and a relocation
/// list.  Section and symbol names are unique within one object file.
#[derive(Debug, PartialEq, Eq)]
pub struct ObjectFile {
    pub sections: Vec<Section>,
    pub symbols: Vec<Symbol>,
    pub relocations: Vec<Relocation>,
}

/// Fully resolved, loadable output of linking: an entry address and one
/// flattened byte image.
#[derive(Debug, PartialEq, Eq)]
pub struct Executable {
    pub entry: usize,
    pub image: Vec<u8>,
}

/// Mathematical view of a [`Section`].
#[verifier::ext_equal]
pub ghost struct SectionV {
    pub name: Seq<u8>,
    pub kind: SectionKind,
    pub alignment: nat,
    pub data: Seq<u8>,
}

/// Mathematical view of a [`SymbolDef`].
#[verifier::ext_equal]
pub ghost struct SymbolDefV {
    pub section: Seq<u8>,
    pub offset: nat,
}

/// Mathematical view of a [`Symbol`].
#[verifier::ext_equal]
pub ghost struct SymbolV {
    pub name: Seq<u8>,
    pub visibility: Visibility,
    pub def: Option<SymbolDefV>,
}

/// Mathematical view of a [`Relocation`].
#[verifier::ext_equal]
pub ghost struct RelocationV {
    pub section: Seq<u8>,
    pub offset: nat,
    pub symbol: Seq<u8>,
    pub kind: PatchKind,
}

/// Mathematical view of an [`ObjectFile`].
#[verifier::ext_equal]
pub ghost struct ObjectFileV {
    pub sections: Seq<SectionV>,
    pub symbols: Seq<SymbolV>,
    pub relocations: Seq<RelocationV>,
}

/// Mathematical view of an [`Executable`].
#[verifier::ext_equal]
pub ghost struct ExecutableV {
    pub entry: nat,
    pub image: Seq<u8>,
}

impl View for Section {
    type V = SectionV;

    open spec fn view(&self) -> SectionV {
        SectionV {
            name: self.name@,
            kind: self.kind,
            alignment: self.alignment as nat,
            data: self.data@,
        }
    }
}

impl View for SymbolDef {
    type V = SymbolDefV;

    open spec fn view(&self) -> SymbolDefV {
        SymbolDefV { section: self.section@, offset: self.offset as nat }
    }
}

impl View for Symbol {
    type V = SymbolV;

    open spec fn view(&self) -> SymbolV {
        SymbolV {
            name: self.name@,
            visibility: self.visibility,
            def: match self.def {
                Option::Some(d) => Option::Some(d@),
                Option::None => Option::None,
            },
        }
    }
}

impl View for Relocation {
    type V = RelocationV;

    open spec fn view(&self) -> RelocationV {
        RelocationV {
            section: self.section@,
            offset: self.offset as nat,
            symbol: self.symbol@,
            kind: self.kind,
        }
    }
}

impl View for ObjectFile {
    type V = ObjectFileV;

    open spec fn view(&self) -> ObjectFileV {
        ObjectFileV {
            sections: self.sections@.map_values(|s: Section| s@),
            symbols: self.symbols@.map_values(|s: Symbol| s@),
            relocations: self.relocations@.map_values(|r: Relocation| r@),
        }
    }
}

impl View for Executable {
    type V = ExecutableV;

    open spec fn view(&self) -> ExecutableV {
        ExecutableV { entry: self.entry as nat, image: self.image@ }
    }
}

/// Index of the first section named `name`, if any.
pub open spec fn sec_idx(ss: Seq<SectionV>, name: Seq<u8>) -> Option<int>
    decreases ss.len(),
{
    if ss.len() == 0 {
        Option::None
    } else if ss[0].name == name {
        Option::Some(0)
    } else {
        match sec_idx(ss.subrange(1, ss.len() as int), name) {
            Option::Some(i) => Option::Some(i + 1),
            Option::None => Option::None,
        }
    }
}

/// Whether some section is named `name`.
pub open spec fn has_sec(ss: Seq<SectionV>, name: Seq<u8>) -> bool {
    sec_idx(ss, name) is Some
}

/// Index of the first symbol named `name`, if any.
pub open spec fn sym_idx(ss: Seq<SymbolV>, name: Seq<u8>) -> Option<int>
    decreases ss.len(),
{
    if ss.len() == 0 {
        Option::None
    } else if ss[0].name == name {
        Option::Some(0)
    } else {
        match sym_idx(ss.subrange(1, ss.len() as int), name) {
            Option::Some(i) => Option::Some(i + 1),
            Option::None => Option::None,
        }
    }
}

/// Whether some symbol is named `name`.
pub open spec fn has_sym(ss: Seq<SymbolV>, name: Seq<u8>) -> bool {
    sym_idx(ss, name) is Some
}

/// What a `sec_idx` answer means about the sequence itself.
pub proof fn lemma_sec_idx(ss: Seq<SectionV>, name: Seq<u8>)
    ensures
        match sec_idx(ss, name) {
            Option::Some(i) => 0 <= i < ss.len() && ss[i].name == name && (forall|k: int|
                0 <= k < i ==> ss[k].name != name),
            Option::None => forall|k: int| 0 <= k < ss.len() ==> ss[k].name != name,
        },
    decreases ss.len(),
{
    if ss.len() != 0 && ss[0].name != name {
        let tail = ss.subrange(1, ss.len() as int);
        lemma_sec_idx(tail, name);
        assert(forall|k: int| 1 <= k < ss.len() ==> (#[trigger] ss[k]) == tail[k - 1]);
    }
}

/// What a `sym_idx` answer means about the sequence itself.
pub proof fn lemma_sym_idx(ss: Seq<SymbolV>, name: Seq<u8>)
    ensures
        match sym_idx(ss, name) {
            Option::Some(i) => 0 <= i < ss.len() && ss[i].name == name && (forall|k: int|
                0 <= k < i ==> ss[k].name != name),
            Option::None => forall|k: int| 0 <= k < ss.len() ==> ss[k].name != name,
        },
    decreases ss.len(),
{
    if ss.len() != 0 && ss[0].name != name {
        let tail = ss.subrange(1, ss.len() as int);
        lemma_sym_idx(tail, name);
        assert(forall|k: int| 1 <= k < ss.len() ==> (#[trigger] ss[k]) == tail[k - 1]);
    }
}

/// The first match determines `sec_idx`.
pub proof fn lemma_sec_idx_at(ss: Seq<SectionV>, name: Seq<u8>, i: int)
    requires
        0 <= i < ss.len(),
        ss[i].name == name,
        forall|k: int| 0 <= k < i ==> ss[k].name != name,
    ensures
        sec_idx(ss, name) == Option::Some(i),
    decreases ss.len(),
{
    if i > 0 {
        let tail = ss.subrange(1, ss.len() as int);
        assert forall|k: int| 0 <= k < i - 1 implies tail[k].name != name by {
            assert(tail[k] == ss[k + 1]);
        }
        lemma_sec_idx_at(tail, name, i - 1);
    }
}

/// The first match determines `sym_idx`.
pub proof fn lemma_sym_idx_at(ss: Seq<SymbolV>, name: Seq<u8>, i: int)
    requires
        0 <= i < ss.len(),
        ss[i].name == name,
        forall|k: int| 0 <= k < i ==> ss[k].name != name,
    ensures
        sym_idx(ss, name) == Option::Some(i),
    decreases ss.len(),
{
    if i > 0 {
        let tail = ss.subrange(1, ss.len() as int);
        assert forall|k: int| 0 <= k < i - 1 implies tail[k].name != name by {
            assert(tail[k] == ss[k + 1]);
        }
        lemma_sym_idx_at(tail, name, i - 1);
    }
}

/// No match anywhere means `sec_idx` answers nothing.
pub proof fn lemma_sec_idx_none(ss: Seq<SectionV>, name: Seq<u8>)
    requires
        forall|k: int| 0 <= k < ss.len() ==> ss[k].name != name,
    ensures
        sec_idx(ss, name) is None,
    decreases ss.len(),
{
    if ss.len() != 0 {
        let tail = ss.subrange(1, ss.len() as int);
        assert forall|k: int| 0 <= k < tail.len() implies tail[k].name != name by {
            assert(tail[k] == ss[k + 1]);
        }
        lemma_sec_idx_none(tail, name);
    }
}

/// No match anywhere means `sym_idx` answers nothing.
pub proof fn lemma_sym_idx_none(ss: Seq<SymbolV>, name: Seq<u8>)
    requires
        forall|k: int| 0 <= k < ss.len() ==> ss[k].name != name,
    ensures
        sym_idx(ss, name) is None,
    decreases ss.len(),
{
    if ss.len() != 0 {
        let tail = ss.subrange(1, ss.len() as int);
        assert forall|k: int| 0 <= k < tail.len() implies tail[k].name != name by {
            assert(tail[k] == ss[k + 1]);
        }
        lemma_sym_idx_none(tail, name);
    }
}

/// All section names are distinct.
pub open spec fn sec_names_unique(ss: Seq<SectionV>) -> bool {
    forall|i: int, j: int| 0 <= i < j < ss.len() ==> ss[i].name != ss[j].name
}

/// All symbol names are distinct.
pub open spec fn sym_names_unique(ss: Seq<SymbolV>) -> bool {
    forall|i: int, j: int| 0 <= i < j < ss.len() ==> ss[i].name != ss[j].name
}

impl ObjectFileV {
    /// Well-formedness: unique section and symbol names, no zero alignment,
    /// every symbol definition and relocation points into an existing
    /// section, and every patch site lies within its section's bytes.
    pub open spec fn wf(self) -> bool {
        &&& sec_names_unique(self.sections)
        &&& (forall|i: int|
            0 <= i < self.sections.len() ==> (#[trigger] self.sections[i]).alignment >= 1)
        &&& sym_names_unique(self.symbols)
        &&& (forall|i: int|
            0 <= i < self.symbols.len() ==> match (#[trigger] self.symbols[i]).def {
                Option::Some(d) => match sec_idx(self.sections, d.section) {
                    Option::Some(j) => d.offset <= self.sections[j].data.len(),
                    Option::None => false,
                },
                Option::None => true,
            })
        &&& (forall|i: int|
            0 <= i < self.relocations.len() ==> {
                let r = #[trigger] self.relocations[i];
                match sec_idx(self.sections, r.section) {
                    Option::Some(j) => r.offset + patch_width(r.kind)
                        <= self.sections[j].data.len(),
                    Option::None => false,
                }
            })
    }

    /// Every length, offset and alignment is machine-representable, so the
    /// value can exist as an in-memory [`ObjectFile`] and every count fits
    /// the codec's length fields.
    pub open spec fn fits(self) -> bool {
        &&& self.sections.len() <= usize::MAX
        &&& self.symbols.len() <= usize::MAX
        &&& self.relocations.len() <= usize::MAX
        &&& (forall|i: int|
            0 <= i < self.sections.len() ==> {
                let s = #[trigger] self.sections[i];
                s.name.len() <= usize::MAX && s.data.len() <= usize::MAX && s.alignment
                    <= usize::MAX
            })
        &&& (forall|i: int|
            0 <= i < self.symbols.len() ==> {
                let s = #[trigger] self.symbols[i];
                s.name.len() <= usize::MAX && match s.def {
                    Option::Some(d) => d.section.len() <= usize::MAX && d.offset <= usize::MAX,
                    Option::None => true,
                }
            })
        &&& (forall|i: int|
            0 <= i < self.relocations.len() ==> {
                let r = #[trigger] self.relocations[i];
                r.section.len() <= usize::MAX && r.symbol.len() <= usize::MAX && r.offset
                    <= usize::MAX
            })
    }
}

/// Byte-vector equality, decided by content.
pub fn bytes_eq(a: &Vec<u8>, b: &Vec<u8>) -> (r: bool)
    ensures
        r == (a@ == b@),
{
    if a.len() != b.len() {
        return false;
    }
    let mut i: usize = 0;
    while i < a.len()
        invariant
            0 <= i <= a.len(),
            a.len() == b.len(),
            forall|k: int| 0 <= k < i ==> a@[k] == b@[k],
        decreases a.len() - i,
    {
        if a[i] != b[i] {
            return false;
        }
        i += 1;
    }
    proof {
        assert(a@ =~= b@);
    }
    true
}

/// Copy of a byte vector.
pub fn copy_bytes(v: &Vec<u8>) -> (r: Vec<u8>)
    ensures
        r@ == v@,
{
    let mut out: Vec<u8> = Vec::new();
    let mut i: usize = 0;
    while i < v.len()
        invariant
            0 <= i <= v.len(),
            out@ == v@.subrange(0, i as int),
        decreases v.len() - i,
    {
        out.push(v[i]);
        proof {
            assert(out@ =~= v@.subrange(0, i + 1 as int));
        }
        i += 1;
    }
    proof {
        assert(v@.subrange(0, v@.len() as int) =~= v@);
    }
    out
}

/// Index of the first section named `name`, if any.
pub fn find_section(ss: &Vec<Section>, name: &Vec<u8>) -> (r: Option<usize>)
    ensures
        match r {
            Option::Some(i) => i < ss.len() && sec_idx(ss@.map_values(|s: Section| s@), name@)
                == Option::Some(i as int),
            Option::None => sec_idx(ss@.map_values(|s: Section| s@), name@) is None,
        },
{
    let ghost view = ss@.map_values(|s: Section| s@);
    let mut i: usize = 0;
    while i < ss.len()
        invariant
            0 <= i <= ss.len(),
            view == ss@.map_values(|s: Section| s@),
            forall|k: int| 0 <= k < i ==> view[k].name != name@,
        decreases ss.len() - i,
    {
        if bytes_eq(&ss[i].name, name) {
            proof {
                lemma_sec_idx_at(view, name@, i as int);
            }
            return Option::Some(i);
        }
        i += 1;
    }
    proof {
        lemma_sec_idx_none(view, name@);
    }
    Option::None
}

/// Index of the first symbol named `name`, if any.
pub fn find_symbol(ss: &Vec<Symbol>, name: &Vec<u8>) -> (r: Option<usize>)
    ensures
        match r {
            Option::Some(i) => i < ss.len() && sym_idx(ss@.map_values(|s: Symbol| s@), name@)
                == Option::Some(i as int),
            Option::None => sym_idx(ss@.map_values(|s: Symbol| s@), name@) is None,
        },
{
    let ghost view = ss@.map_values(|s: Symbol| s@);
    let mut i: usize = 0;
    while i < ss.len()
        invariant
            0 <= i <= ss.len(),
            view == ss@.map_values(|s: Symbol| s@),
            forall|k: int| 0 <= k < i ==> view[k].name != name@,
        decreases ss.len() - i,
    {
        if bytes_eq(&ss[i].name, name) {
            proof {
                lemma_sym_idx_at(view, name@, i as int);
            }
            return Option::Some(i);
        }
        i += 1;
    }
    proof {
        lemma_sym_idx_none(view, name@);
    }
    Option::None
}

impl Section {
    /// Copy of this section.
    pub fn duplicate(&self) -> (r: Section)
        ensures
            r@ == self@,
    {
        Section {
            name: copy_bytes(&self.name),
            kind: self.kind,
            alignment: self.alignment,
            data: copy_bytes(&self.data),
        }
    }
}

impl Symbol {
    /// Copy of this symbol.
    pub fn duplicate(&self) -> (r: Symbol)
        ensures
            r@ == self@,
    {
        Symbol {
            name: copy_bytes(&self.name),
            visibility: self.visibility,
            def: match &self.def {
                Option::Some(d) => Option::Some(
                    SymbolDef { section: copy_bytes(&d.section), offset: d.offset },
                ),
                Option::None => Option::None,
            },
        }
    }
}

impl Relocation {
    /// Copy of this relocation.
    pub fn duplicate(&self) -> (r: Relocation)
        ensures
            r@ == self@,
    {
        Relocation {
            section: copy_bytes(&self.section),
            offset: self.offset,
            symbol: copy_bytes(&self.symbol),
            kind: self.kind,
        }
    }
}

impl ObjectFile {
    /// An object file with no sections, symbols or relocations.
    pub fn empty() -> (r: ObjectFile)
        ensures
            r@.sections.len() == 0,
            r@.symbols.len() == 0,
            r@.relocations.len() == 0,
            r@.wf(),
    {
        ObjectFile { sections: Vec::new(), symbols: Vec::new(), relocations: Vec::new() }
    }

    /// Copy of this object file.
    pub fn duplicate(&self) -> (r: ObjectFile)
        ensures
            r@ == self@,
    {
        let mut sections: Vec<Section> = Vec::new();
        let mut i: usize = 0;
        while i < self.sections.len()
            invariant
                0 <= i <= self.sections.len(),
                sections@.len() == i,
                forall|k: int| 0 <= k < i ==> (#[trigger] sections@[k])@ == self.sections@[k]@,
            decreases self.sections.len() - i,
        {
            sections.push(self.sections[i].duplicate());
            i += 1;
        }
        let mut symbols: Vec<Symbol> = Vec::new();
        let mut j: usize = 0;
        while j < self.symbols.len()
            invariant
                0 <= j <= self.symbols.len(),
                symbols@.len() == j,
                forall|k: int| 0 <= k < j ==> (#[trigger] symbols@[k])@ == self.symbols@[k]@,
            decreases self.symbols.len() - j,
        {
            symbols.push(self.symbols[j].duplicate());
            j += 1;
        }
        let mut relocations: Vec<Relocation> = Vec::new();
        let mut k: usize = 0;
        while k < self.relocations.len()
            invariant
                0 <= k <= self.relocations.len(),
                relocations@.len() == k,
                forall|m: int| 0 <= m < k ==> (#[trigger] relocations@[m])@
                    == self.relocations@[m]@,
            decreases self.relocations.len() - k,
        {
            relocations.push(self.relocations[k].duplicate());
            k += 1;
        }
        let r = ObjectFile { sections, symbols, relocations };
        proof {
            assert(r@.sections =~= self@.sections);
            assert(r@.symbols =~= self@.symbols);
            assert(r@.relocations =~= self@.relocations);
            assert(r@ =~= self@);
        }
        r
    }
}

} // verus!
