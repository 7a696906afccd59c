//! Lowering parsed statements into an object file for the stack dialect.
//! Code collects in the `text` section, data in the `data` section (created
//! on first use); a label binds a symbol to the current section and offset;
//! an instruction's symbol operand emits a two-byte placeholder and records
//! a relocation, so forward references never fail; a numeric operand wider
//! than sixteen bits is a range error, and a label defined twice is a
//! duplicate-symbol error.

use vstd::prelude::*;
use vstd::pervasive::VecAdditionalExecFns;

use crate::errors::{AssemblerError, ParseError, UnsupportedTargetError};
use crate::model::{
    bytes_eq, copy_bytes, find_symbol, has_sym, sec_idx, sym_idx, sym_names_unique, ObjectFile,
    ObjectFileV, PatchKind, Relocation, RelocationV, Section, SectionKind, SectionV, Symbol,
    SymbolDef, SymbolDefV, SymbolV, Visibility,
};
use crate::parse::{parse_source, ArgOp, Operand, OperandV, PlainOp, Statement, StatementV};

verus! {

/// Name of the section that holds a kind's content.
pub open spec fn sect_name(k: SectionKind) -> Seq<u8> {
    match k {
        SectionKind::Code => seq![116u8, 101u8, 120u8, 116u8],
        SectionKind::Data => seq![100u8, 97u8, 116u8, 97u8],
    }
}

/// Opcode of a no-operand instruction.
pub open spec fn opcode_plain(op: PlainOp) -> u8 {
    match op {
        PlainOp::Halt => 0x00,
        PlainOp::Nop => 0x01,
        PlainOp::Add => 0x02,
    }
}

/// Opcode of a one-operand instruction.
pub open spec fn opcode_arg(op: ArgOp) -> u8 {
    match op {
        ArgOp::Push => 0x10,
        ArgOp::Jmp => 0x11,
    }
}

/// Assembler state: the two section buffers, whether the data section
/// exists, the active section, and the tables built so far.
#[verifier::ext_equal]
pub ghost struct AsmStateV {
    pub text: Seq<u8>,
    pub data: Seq<u8>,
    pub has_data: bool,
    pub cur: SectionKind,
    pub symbols: Seq<SymbolV>,
    pub relocs: Seq<RelocationV>,
}

/// An assembler failure.
#[verifier::ext_equal]
pub ghost enum AsmErrV {
    Dup(Seq<u8>),
    Range(u32, u64),
}

/// The state before any statement.
pub open spec fn asm_init() -> AsmStateV {
    AsmStateV {
        text: Seq::empty(),
        data: Seq::empty(),
        has_data: false,
        cur: SectionKind::Code,
        symbols: Seq::empty(),
        relocs: Seq::empty(),
    }
}

/// Length of the active section.
pub open spec fn cur_len(st: AsmStateV) -> nat {
    match st.cur {
        SectionKind::Code => st.text.len(),
        SectionKind::Data => st.data.len(),
    }
}

/// Bytes appended to the active section.
pub open spec fn append_bytes(st: AsmStateV, bs: Seq<u8>) -> AsmStateV {
    match st.cur {
        SectionKind::Code => AsmStateV { text: st.text + bs, ..st },
        SectionKind::Data => AsmStateV { data: st.data + bs, ..st },
    }
}

/// Effect of one statement on the assembler state.
pub open spec fn asm_step(st: AsmStateV, s: StatementV) -> Result<AsmStateV, AsmErrV> {
    match s {
        StatementV::Label(n) => match sym_idx(st.symbols, n) {
            Option::Some(i) => if st.symbols[i].def is Some {
                Result::Err(AsmErrV::Dup(n))
            } else {
                Result::Ok(
                    AsmStateV {
                        symbols: st.symbols.update(
                            i,
                            SymbolV {
                                name: st.symbols[i].name,
                                visibility: st.symbols[i].visibility,
                                def: Option::Some(
                                    SymbolDefV {
                                        section: sect_name(st.cur),
                                        offset: cur_len(st),
                                    },
                                ),
                            },
                        ),
                        ..st
                    },
                )
            },
            Option::None => Result::Ok(
                AsmStateV {
                    symbols: st.symbols.push(
                        SymbolV {
                            name: n,
                            visibility: Visibility::Global,
                            def: Option::Some(
                                SymbolDefV { section: sect_name(st.cur), offset: cur_len(st) },
                            ),
                        },
                    ),
                    ..st
                },
            ),
        },
        StatementV::SetSection(k) => Result::Ok(
            AsmStateV { cur: k, has_data: st.has_data || k == SectionKind::Data, ..st },
        ),
        StatementV::Plain(op) => Result::Ok(append_bytes(st, seq![opcode_plain(op)])),
        StatementV::WithArg(op, a) => match a {
            OperandV::Num(v) => if v > 0xffff {
                Result::Err(AsmErrV::Range(16, v))
            } else {
                Result::Ok(
                    append_bytes(
                        st,
                        seq![opcode_arg(op), (v % 256) as u8, ((v / 256) % 256) as u8],
                    ),
                )
            },
            OperandV::Sym(n) => {
                let st1 = append_bytes(st, seq![opcode_arg(op), 0u8, 0u8]);
                let st2 = AsmStateV {
                    relocs: st1.relocs.push(
                        RelocationV {
                            section: sect_name(st.cur),
                            offset: (cur_len(st) + 1) as nat,
                            symbol: n,
                            kind: PatchKind::Abs2,
                        },
                    ),
                    ..st1
                };
                if has_sym(st.symbols, n) {
                    Result::Ok(st2)
                } else {
                    Result::Ok(
                        AsmStateV {
                            symbols: st2.symbols.push(
                                SymbolV {
                                    name: n,
                                    visibility: Visibility::Global,
                                    def: Option::None,
                                },
                            ),
                            ..st2
                        },
                    )
                }
            },
        },
    }
}

/// All statements applied in order.
pub open spec fn asm_all(ss: Seq<StatementV>, st: AsmStateV) -> Result<AsmStateV, AsmErrV>
    decreases ss.len(),
{
    if ss.len() == 0 {
        Result::Ok(st)
    } else {
        match asm_step(st, ss[0]) {
            Result::Ok(st2) => asm_all(ss.subrange(1, ss.len() as int), st2),
            Result::Err(e) => Result::Err(e),
        }
    }
}

/// The object file a final state denotes.
pub open spec fn obj_of(st: AsmStateV) -> ObjectFileV {
    ObjectFileV {
        sections: seq![
            SectionV {
                name: sect_name(SectionKind::Code),
                kind: SectionKind::Code,
                alignment: 1,
                data: st.text,
            },
        ] + if st.has_data {
            seq![
                SectionV {
                    name: sect_name(SectionKind::Data),
                    kind: SectionKind::Data,
                    alignment: 1,
                    data: st.data,
                },
            ]
        } else {
            Seq::empty()
        },
        symbols: st.symbols,
        relocations: st.relocs,
    }
}

/// Invariant of the assembler state.
pub open spec fn st_wf(st: AsmStateV) -> bool {
    &&& sym_names_unique(st.symbols)
    &&& (st.cur == SectionKind::Data ==> st.has_data)
    &&& (forall|i: int|
        0 <= i < st.symbols.len() ==> match (#[trigger] st.symbols[i]).def {
            Option::Some(d) => (d.section == sect_name(SectionKind::Code) && d.offset
                <= st.text.len()) || (st.has_data && d.section == sect_name(SectionKind::Data)
                && d.offset <= st.data.len()),
            Option::None => true,
        })
    &&& (forall|i: int|
        0 <= i < st.relocs.len() ==> {
            let r = #[trigger] st.relocs[i];
            r.kind == PatchKind::Abs2 && ((r.section == sect_name(SectionKind::Code) && r.offset
                + 2 <= st.text.len()) || (st.has_data && r.section == sect_name(
                SectionKind::Data,
            ) && r.offset + 2 <= st.data.len()))
        })
}

/// One step keeps the assembler state invariant.
proof fn lemma_step_wf(st: AsmStateV, s: StatementV)
    requires
        st_wf(st),
    ensures
        match asm_step(st, s) {
            Result::Ok(st2) => st_wf(st2),
            Result::Err(_) => true,
        },
{
    match s {
        StatementV::Label(n) => {
            crate::model::lemma_sym_idx(st.symbols, n);
        },
        StatementV::SetSection(_) => {},
        StatementV::Plain(_) => {},
        StatementV::WithArg(op, a) => {
            match a {
                OperandV::Num(_) => {},
                OperandV::Sym(n) => {
                    crate::model::lemma_sym_idx(st.symbols, n);
                },
            }
        },
    }
}

/// The final state denotes a well-formed object file.
proof fn lemma_obj_wf(st: AsmStateV)
    requires
        st_wf(st),
    ensures
        obj_of(st).wf(),
{
    let o = obj_of(st);
    let tn = sect_name(SectionKind::Code);
    let dn = sect_name(SectionKind::Data);
    assert(tn != dn) by {
        assert(tn[0] == 116u8 && dn[0] == 100u8);
    }
    assert(sec_idx(o.sections, tn) == Option::Some(0int)) by {
        assert(o.sections[0].name == tn);
    }
    if st.has_data {
        assert(o.sections.len() == 2);
        assert(o.sections[1].name == dn);
        assert(sec_idx(o.sections, dn) == Option::Some(1int)) by {
            crate::model::lemma_sec_idx_at(o.sections, dn, 1);
        }
    } else {
        assert(o.sections.len() == 1);
        assert(sec_idx(o.sections, dn) is None) by {
            crate::model::lemma_sec_idx_none(o.sections, dn);
        }
    }
    assert(crate::model::sec_names_unique(o.sections));
}

/// Referencing a symbol never fails and always records a relocation for it,
/// whether or not the symbol is defined yet: forward references are legal.
pub proof fn lemma_forward_reference(st: AsmStateV, op: ArgOp, n: Seq<u8>)
    ensures
        asm_step(st, StatementV::WithArg(op, OperandV::Sym(n))) is Ok,
        asm_step(st, StatementV::WithArg(op, OperandV::Sym(n)))->Ok_0.relocs == st.relocs.push(
            RelocationV {
                section: sect_name(st.cur),
                offset: (cur_len(st) + 1) as nat,
                symbol: n,
                kind: PatchKind::Abs2,
            },
        ),
{
}

} // verus!

verus! {

/// The name of a kind's section, as a vector.
fn sect_name_vec(k: SectionKind) -> (r: Vec<u8>)
    ensures
        r@ == sect_name(k),
{
    match k {
        SectionKind::Code => {
            let v: Vec<u8> = vec![116, 101, 120, 116];
            proof {
                assert(v@ =~= sect_name(SectionKind::Code));
            }
            v
        },
        SectionKind::Data => {
            let v: Vec<u8> = vec![100, 97, 116, 97];
            proof {
                assert(v@ =~= sect_name(SectionKind::Data));
            }
            v
        },
    }
}

/// A combined failure of the source-to-object pipeline.
#[derive(Debug, PartialEq, Eq)]
pub enum AssembleSourceError {
    /// The requested target dialect is not known.
    UnsupportedTarget(UnsupportedTargetError),
    /// The source did not parse.
    Parse(ParseError),
    /// The statements did not assemble.
    Assemble(AssemblerError),
}

/// Assemble a statement sequence into an object file.
pub fn assemble(stmts: &Vec<Statement>) -> (r: Result<ObjectFile, AssemblerError>)
    ensures
        r is Err <==> asm_all(stmts@.map_values(|s: Statement| s@), asm_init()) is Err,
        match r {
            Result::Ok(o) => asm_all(stmts@.map_values(|s: Statement| s@), asm_init())
                matches Result::Ok(st) && o@ == obj_of(st) && o@.wf(),
            Result::Err(AssemblerError::DuplicateSymbol(n)) => asm_all(
                stmts@.map_values(|s: Statement| s@),
                asm_init(),
            ) == Result::<AsmStateV, AsmErrV>::Err(AsmErrV::Dup(n@)),
            Result::Err(AssemblerError::ValueOutOfRange { width, value }) => asm_all(
                stmts@.map_values(|s: Statement| s@),
                asm_init(),
            ) == Result::<AsmStateV, AsmErrV>::Err(AsmErrV::Range(width, value)),
        },
{
    let ghost all = stmts@.map_values(|s: Statement| s@);
    let mut text_data: Vec<u8> = Vec::new();
    let mut data_data: Vec<u8> = Vec::new();
    let mut has_data = false;
    let mut cur = SectionKind::Code;
    let mut symbols: Vec<Symbol> = Vec::new();
    let mut relocations: Vec<Relocation> = Vec::new();
    let mut i: usize = 0;
    proof {
        assert(all.subrange(0, all.len() as int) =~= all);
        let st0 = AsmStateV {
            text: text_data@,
            data: data_data@,
            has_data,
            cur,
            symbols: symbols@.map_values(|s: Symbol| s@),
            relocs: relocations@.map_values(|s: Relocation| s@),
        };
        assert(st0 =~= asm_init());
        assert(st0.symbols =~= Seq::<SymbolV>::empty());
        assert(st0.relocs =~= Seq::<RelocationV>::empty());
    }
    while i < stmts.len()
        invariant
            0 <= i <= stmts@.len(),
            all == stmts@.map_values(|s: Statement| s@),
            all.len() == stmts@.len(),
            st_wf(
                AsmStateV {
                    text: text_data@,
                    data: data_data@,
                    has_data,
                    cur,
                    symbols: symbols@.map_values(|s: Symbol| s@),
                    relocs: relocations@.map_values(|s: Relocation| s@),
                },
            ),
            asm_all(all, asm_init()) == asm_all(
                all.subrange(i as int, all.len() as int),
                AsmStateV {
                    text: text_data@,
                    data: data_data@,
                    has_data,
                    cur,
                    symbols: symbols@.map_values(|s: Symbol| s@),
                    relocs: relocations@.map_values(|s: Relocation| s@),
                },
            ),
        decreases stmts@.len() - i,
    {
        let ghost st = AsmStateV {
            text: text_data@,
            data: data_data@,
            has_data,
            cur,
            symbols: symbols@.map_values(|s: Symbol| s@),
            relocs: relocations@.map_values(|s: Relocation| s@),
        };
        let ghost rem = all.subrange(i as int, all.len() as int);
        proof {
            assert(rem[0] == all[i as int]);
            assert(all[i as int] == stmts@[i as int]@);
            assert(rem.subrange(1, rem.len() as int) =~= all.subrange(i + 1, all.len() as int));
            lemma_step_wf(st, rem[0]);
        }
        match &stmts[i] {
            Statement::Label(n) => {
                match find_symbol(&symbols, n) {
                    Option::Some(si) => {
                        if symbols[si].def.is_some() {
                            return Result::Err(AssemblerError::DuplicateSymbol(copy_bytes(n)));
                        }
                        let off = if cur == SectionKind::Code {
                            text_data.len()
                        } else {
                            data_data.len()
                        };
                        let vis = symbols[si].visibility;
                        let nm = copy_bytes(&symbols[si].name);
                        symbols.set(
                            si,
                            Symbol {
                                name: nm,
                                visibility: vis,
                                def: Option::Some(
                                    SymbolDef { section: sect_name_vec(cur), offset: off },
                                ),
                            },
                        );
                        proof {
                            assert(symbols@.map_values(|s: Symbol| s@) =~= asm_step(
                                st,
                                rem[0],
                            )->Ok_0.symbols);
                        }
                    },
                    Option::None => {
                        let off = if cur == SectionKind::Code {
                            text_data.len()
                        } else {
                            data_data.len()
                        };
                        symbols.push(
                            Symbol {
                                name: copy_bytes(n),
                                visibility: Visibility::Global,
                                def: Option::Some(
                                    SymbolDef { section: sect_name_vec(cur), offset: off },
                                ),
                            },
                        );
                        proof {
                            assert(symbols@.map_values(|s: Symbol| s@) =~= asm_step(
                                st,
                                rem[0],
                            )->Ok_0.symbols);
                        }
                    },
                }
            },
            Statement::SetSection(k) => {
                let k = *k;
                cur = k;
                if k == SectionKind::Data {
                    has_data = true;
                }
            },
            Statement::Plain(op) => {
                let b = match op {
                    PlainOp::Halt => 0x00u8,
                    PlainOp::Nop => 0x01u8,
                    PlainOp::Add => 0x02u8,
                };
                if cur == SectionKind::Code {
                    text_data.push(b);
                    proof {
                        assert(text_data@ =~= st.text + seq![opcode_plain(*op)]);
                    }
                } else {
                    data_data.push(b);
                    proof {
                        assert(data_data@ =~= st.data + seq![opcode_plain(*op)]);
                    }
                }
            },
            Statement::WithArg(op, a) => {
                let b = match op {
                    ArgOp::Push => 0x10u8,
                    ArgOp::Jmp => 0x11u8,
                };
                match a {
                    Operand::Num(v) => {
                        let v = *v;
                        if v > 0xffff {
                            return Result::Err(
                                AssemblerError::ValueOutOfRange { width: 16, value: v },
                            );
                        }
                        let lo = (v % 256) as u8;
                        let hi = ((v / 256) % 256) as u8;
                        if cur == SectionKind::Code {
                            text_data.push(b);
                            text_data.push(lo);
                            text_data.push(hi);
                            proof {
                                assert(text_data@ =~= st.text + seq![
                                    opcode_arg(*op),
                                    (v % 256) as u8,
                                    ((v / 256) % 256) as u8,
                                ]);
                            }
                        } else {
                            data_data.push(b);
                            data_data.push(lo);
                            data_data.push(hi);
                            proof {
                                assert(data_data@ =~= st.data + seq![
                                    opcode_arg(*op),
                                    (v % 256) as u8,
                                    ((v / 256) % 256) as u8,
                                ]);
                            }
                        }
                    },
                    Operand::Sym(n) => {
                        let off: usize;
                        if cur == SectionKind::Code {
                            text_data.push(b);
                            off = text_data.len() - 1;
                            text_data.push(0);
                            text_data.push(0);
                            proof {
                                assert(text_data@ =~= st.text + seq![opcode_arg(*op), 0u8, 0u8]);
                            }
                        } else {
                            data_data.push(b);
                            off = data_data.len() - 1;
                            data_data.push(0);
                            data_data.push(0);
                            proof {
                                assert(data_data@ =~= st.data + seq![opcode_arg(*op), 0u8, 0u8]);
                            }
                        }
                        relocations.push(
                            Relocation {
                                section: sect_name_vec(cur),
                                offset: off + 1,
                                symbol: copy_bytes(n),
                                kind: PatchKind::Abs2,
                            },
                        );
                        proof {
                            assert(relocations@.map_values(|s: Relocation| s@)
                                =~= st.relocs.push(
                                RelocationV {
                                    section: sect_name(cur),
                                    offset: (cur_len(st) + 1) as nat,
                                    symbol: n@,
                                    kind: PatchKind::Abs2,
                                },
                            ));
                        }
                        match find_symbol(&symbols, n) {
                            Option::Some(_) => {},
                            Option::None => {
                                symbols.push(
                                    Symbol {
                                        name: copy_bytes(n),
                                        visibility: Visibility::Global,
                                        def: Option::None,
                                    },
                                );
                                proof {
                                    assert(symbols@.map_values(|s: Symbol| s@) =~= st.symbols.push(
                                        SymbolV {
                                            name: n@,
                                            visibility: Visibility::Global,
                                            def: Option::None,
                                        },
                                    ));
                                }
                            },
                        }
                    },
                }
            },
        }
        proof {
            let st2 = AsmStateV {
                text: text_data@,
                data: data_data@,
                has_data,
                cur,
                symbols: symbols@.map_values(|s: Symbol| s@),
                relocs: relocations@.map_values(|s: Relocation| s@),
            };
            assert(asm_step(st, rem[0]) matches Result::Ok(x) && x =~= st2);
        }
        i += 1;
    }
    let ghost stf = AsmStateV {
        text: text_data@,
        data: data_data@,
        has_data,
        cur,
        symbols: symbols@.map_values(|s: Symbol| s@),
        relocs: relocations@.map_values(|s: Relocation| s@),
    };
    proof {
        assert(asm_all(all.subrange(all.len() as int, all.len() as int), stf) == Result::<
            AsmStateV,
            AsmErrV,
        >::Ok(stf));
        lemma_obj_wf(stf);
    }
    let mut sections: Vec<Section> = Vec::new();
    sections.push(
        Section {
            name: sect_name_vec(SectionKind::Code),
            kind: SectionKind::Code,
            alignment: 1,
            data: text_data,
        },
    );
    if has_data {
        sections.push(
            Section {
                name: sect_name_vec(SectionKind::Data),
                kind: SectionKind::Data,
                alignment: 1,
                data: data_data,
            },
        );
    }
    let o = ObjectFile { sections, symbols, relocations };
    proof {
        assert(o@.sections =~= obj_of(stf).sections);
        assert(o@ =~= obj_of(stf));
    }
    Result::Ok(o)
}

/// Assemble source text for the named target dialect into an object file.
/// The only known dialect is `stack`; any other name is rejected before
/// parsing begins.
pub fn assemble_source(src: &Vec<u8>, target: &Vec<u8>) -> (r: Result<
    ObjectFile,
    AssembleSourceError,
>)
    ensures
        target@ != seq![115u8, 116u8, 97u8, 99u8, 107u8] <==> (r matches Result::Err(
            AssembleSourceError::UnsupportedTarget(e),
        ) && e.name@ == target@),
        match r {
            Result::Ok(o) => {
                &&& crate::parse::parse_spec(src@) matches Result::Ok(ss)
                &&& asm_all(ss, asm_init()) matches Result::Ok(st)
                &&& o@ == obj_of(st)
                &&& o@.wf()
            },
            Result::Err(AssembleSourceError::UnsupportedTarget(e)) => target@ != seq![
                115u8,
                116u8,
                97u8,
                99u8,
                107u8,
            ] && e.name@ == target@,
            Result::Err(AssembleSourceError::Parse(e)) => crate::parse::parse_spec(src@)
                == Result::<Seq<StatementV>, ParseError>::Err(e),
            Result::Err(AssembleSourceError::Assemble(e)) => {
                &&& crate::parse::parse_spec(src@) matches Result::Ok(ss)
                &&& asm_all(ss, asm_init()) is Err
                &&& match e {
                    AssemblerError::DuplicateSymbol(n) => asm_all(ss, asm_init()) == Result::<
                        AsmStateV,
                        AsmErrV,
                    >::Err(AsmErrV::Dup(n@)),
                    AssemblerError::ValueOutOfRange { width, value } => asm_all(ss, asm_init())
                        == Result::<AsmStateV, AsmErrV>::Err(AsmErrV::Range(width, value)),
                }
            },
        },
{
    let stack_name: Vec<u8> = vec![115, 116, 97, 99, 107];
    proof {
        assert(stack_name@ =~= seq![115u8, 116u8, 97u8, 99u8, 107u8]);
    }
    if !bytes_eq(target, &stack_name) {
        return Result::Err(
            AssembleSourceError::UnsupportedTarget(
                UnsupportedTargetError { name: copy_bytes(target) },
            ),
        );
    }
    match parse_source(src) {
        Result::Ok(stmts) => match assemble(&stmts) {
            Result::Ok(o) => Result::Ok(o),
            Result::Err(e) => Result::Err(AssembleSourceError::Assemble(e)),
        },
        Result::Err(e) => Result::Err(AssembleSourceError::Parse(e)),
    }
}

} // verus!
