use monistode_tools::assemble::{assemble, assemble_source, AssembleSourceError};
use monistode_tools::codec::{
    check_wf, deserialize_executable, deserialize_object, serialize_executable, serialize_object,
};
use monistode_tools::errors::{
    AssemblerError, DecodeError, LinkError, MergeError, ParseError, ParseErrorKind,
};
use monistode_tools::model::{
    Executable, ObjectFile, PatchKind, Relocation, Section, SectionKind, Symbol, SymbolDef,
    Visibility,
};
use monistode_tools::parse::{parse_source, ArgOp, Operand, PlainOp, Statement};

fn section(name: &str, kind: SectionKind, alignment: usize, data: &[u8]) -> Section {
    Section { name: name.as_bytes().to_vec(), kind, alignment, data: data.to_vec() }
}

fn defined_symbol(name: &str, section_name: &str, offset: usize) -> Symbol {
    Symbol {
        name: name.as_bytes().to_vec(),
        visibility: Visibility::Global,
        def: Some(SymbolDef { section: section_name.as_bytes().to_vec(), offset }),
    }
}

fn undefined_symbol(name: &str) -> Symbol {
    Symbol { name: name.as_bytes().to_vec(), visibility: Visibility::Global, def: None }
}

fn local_symbol(name: &str, section_name: &str, offset: usize) -> Symbol {
    Symbol {
        name: name.as_bytes().to_vec(),
        visibility: Visibility::Local,
        def: Some(SymbolDef { section: section_name.as_bytes().to_vec(), offset }),
    }
}

fn sample_object() -> ObjectFile {
    ObjectFile {
        sections: vec![
            section("text", SectionKind::Code, 4, &[0x11, 0, 0, 0x00]),
            section("data", SectionKind::Data, 8, &[7, 8, 9]),
        ],
        symbols: vec![
            defined_symbol("start", "text", 0),
            local_symbol("tbl", "data", 1),
            undefined_symbol("ext"),
        ],
        relocations: vec![Relocation {
            section: "text".as_bytes().to_vec(),
            offset: 1,
            symbol: "tbl".as_bytes().to_vec(),
            kind: PatchKind::Abs2,
        }],
    }
}

#[test]
fn object_round_trip() {
    let o = sample_object();
    assert!(check_wf(&o));
    let bytes = serialize_object(&o);
    let (back, used) = deserialize_object(&bytes).expect("decodes");
    assert_eq!(used, bytes.len());
    assert_eq!(back, o);
}

#[test]
fn executable_round_trip() {
    let e = Executable { entry: 0x1234, image: vec![1, 2, 3, 4, 5] };
    let bytes = serialize_executable(&e);
    let (back, used) = deserialize_executable(&bytes).expect("decodes");
    assert_eq!(used, bytes.len());
    assert_eq!(back, e);
}

#[test]
fn empty_object_bytes_are_exact() {
    let o = ObjectFile { sections: vec![], symbols: vec![], relocations: vec![] };
    let bytes = serialize_object(&o);
    let mut expected = vec![0x4d, 0x4f, 0x42, 0x4a];
    expected.extend_from_slice(&1u64.to_le_bytes());
    expected.extend_from_slice(&0u64.to_le_bytes());
    expected.extend_from_slice(&0u64.to_le_bytes());
    expected.extend_from_slice(&0u64.to_le_bytes());
    assert_eq!(bytes, expected);
}

#[test]
fn decode_truncated() {
    let o = sample_object();
    let mut bytes = serialize_object(&o);
    bytes.truncate(bytes.len() - 1);
    assert_eq!(deserialize_object(&bytes), Err(DecodeError::Truncated));
    assert_eq!(deserialize_object(&vec![0x4d, 0x4f]), Err(DecodeError::Truncated));
}

#[test]
fn decode_malformed_header() {
    let o = sample_object();
    let mut bytes = serialize_object(&o);
    bytes[0] = 0x58;
    assert_eq!(deserialize_object(&bytes), Err(DecodeError::MalformedHeader));
    let good = serialize_object(&o);
    let mut wrong_version = good.clone();
    wrong_version[4] = 9;
    assert_eq!(deserialize_object(&wrong_version), Err(DecodeError::MalformedHeader));
}

#[test]
fn decode_invalid_field() {
    // Two sections with the same name violate well-formedness.
    let o = ObjectFile {
        sections: vec![
            section("text", SectionKind::Code, 1, &[1]),
            section("text", SectionKind::Code, 1, &[2]),
        ],
        symbols: vec![],
        relocations: vec![],
    };
    assert!(!check_wf(&o));
    let bytes = serialize_object(&o);
    assert_eq!(deserialize_object(&bytes), Err(DecodeError::InvalidFieldValue));
}

#[test]
fn parse_simple_program() {
    let src = b"start: push 5 ; comment\n  add\n.data\njmp start\n".to_vec();
    let stmts = parse_source(&src).expect("parses");
    assert_eq!(
        stmts,
        vec![
            Statement::Label(b"start".to_vec()),
            Statement::WithArg(ArgOp::Push, Operand::Num(5)),
            Statement::Plain(PlainOp::Add),
            Statement::SetSection(SectionKind::Data),
            Statement::WithArg(ArgOp::Jmp, Operand::Sym(b"start".to_vec())),
        ]
    );
}

#[test]
fn parse_unknown_mnemonic() {
    let src = b"nop\n  frob x\n".to_vec();
    let err = parse_source(&src).unwrap_err();
    assert_eq!(err, ParseError { line: 2, col: 2, kind: ParseErrorKind::UnknownMnemonic });
}

#[test]
fn parse_missing_operand() {
    let src = b"push\n".to_vec();
    let err = parse_source(&src).unwrap_err();
    assert_eq!(err, ParseError { line: 1, col: 0, kind: ParseErrorKind::MissingOperand });
}

#[test]
fn parse_extra_token() {
    let src = b"halt now\n".to_vec();
    let err = parse_source(&src).unwrap_err();
    assert_eq!(err, ParseError { line: 1, col: 5, kind: ParseErrorKind::ExtraToken });
}

#[test]
fn parse_malformed_label() {
    let src = b"b!d: halt\n".to_vec();
    let err = parse_source(&src).unwrap_err();
    assert_eq!(err, ParseError { line: 1, col: 0, kind: ParseErrorKind::MalformedLabel });
    let src2 = b": halt\n".to_vec();
    let err2 = parse_source(&src2).unwrap_err();
    assert_eq!(err2, ParseError { line: 1, col: 0, kind: ParseErrorKind::MalformedLabel });
}

#[test]
fn parse_unknown_directive() {
    let src = b".word 5\n".to_vec();
    let err = parse_source(&src).unwrap_err();
    assert_eq!(err, ParseError { line: 1, col: 0, kind: ParseErrorKind::UnknownDirective });
}

#[test]
fn parse_number_too_wide_for_u64() {
    let src = b"push 99999999999999999999999\n".to_vec();
    let err = parse_source(&src).unwrap_err();
    assert_eq!(err, ParseError { line: 1, col: 5, kind: ParseErrorKind::MalformedOperand });
}

#[test]
fn assemble_value_out_of_range() {
    let src = b"push 70000\n".to_vec();
    let stmts = parse_source(&src).expect("parses");
    let err = assemble(&stmts).unwrap_err();
    assert_eq!(err, AssemblerError::ValueOutOfRange { width: 16, value: 70000 });
}

#[test]
fn assemble_duplicate_symbol() {
    let src = b"a: halt\na: nop\n".to_vec();
    let stmts = parse_source(&src).expect("parses");
    let err = assemble(&stmts).unwrap_err();
    assert_eq!(err, AssemblerError::DuplicateSymbol(b"a".to_vec()));
}

#[test]
fn forward_reference_assembles_with_relocation() {
    let src = b"start: jmp done\ndone: halt\n".to_vec();
    let stmts = parse_source(&src).expect("parses");
    let o = assemble(&stmts).expect("forward references are legal");
    assert_eq!(
        o.relocations,
        vec![Relocation {
            section: b"text".to_vec(),
            offset: 1,
            symbol: b"done".to_vec(),
            kind: PatchKind::Abs2,
        }]
    );
    // "done" is defined later in the same file, so it ends up defined.
    let done = o.symbols.iter().find(|s| s.name == b"done".to_vec()).unwrap();
    assert_eq!(done.def, Some(SymbolDef { section: b"text".to_vec(), offset: 3 }));
}

#[test]
fn undefined_symbol_at_link_time() {
    let src = b"start: jmp nowhere\nhalt\n".to_vec();
    let stmts = parse_source(&src).expect("parses");
    let o = assemble(&stmts).expect("assembles");
    match o.build_executable() {
        Err(LinkError::UndefinedSymbols(names)) => {
            assert_eq!(names, vec![b"nowhere".to_vec()]);
        }
        other => panic!("expected undefined-symbol failure, got {:?}", other),
    }
}

#[test]
fn duplicate_global_definition_on_merge() {
    let a_src = b"foo: halt\n".to_vec();
    let b_src = b"foo: nop\n".to_vec();
    let mut a = assemble(&parse_source(&a_src).unwrap()).unwrap();
    let b = assemble(&parse_source(&b_src).unwrap()).unwrap();
    let a_before = a.duplicate();
    let err = a.merge(b).unwrap_err();
    assert_eq!(err, MergeError::DuplicateDefinition(b"foo".to_vec()));
    assert_eq!(a, a_before);
}

#[test]
fn merge_failure_is_order_independent() {
    let a_src = b"foo: halt\n".to_vec();
    let b_src = b"foo: nop\n".to_vec();
    let mut a = assemble(&parse_source(&a_src).unwrap()).unwrap();
    let mut b = assemble(&parse_source(&b_src).unwrap()).unwrap();
    let a2 = a.duplicate();
    let b2 = b.duplicate();
    assert!(a.merge(b2).is_err());
    assert!(b.merge(a2).is_err());
}

#[test]
fn merge_appends_and_rebases() {
    let a_src = b"start: push 1\n".to_vec();
    let b_src = b"done: halt\n".to_vec();
    let mut a = assemble(&parse_source(&a_src).unwrap()).unwrap();
    let b = assemble(&parse_source(&b_src).unwrap()).unwrap();
    a.merge(b).expect("no duplicate definitions");
    assert!(check_wf(&a));
    // text is a's three bytes then b's one byte.
    assert_eq!(a.sections.len(), 1);
    assert_eq!(a.sections[0].data, vec![0x10, 1, 0, 0x00]);
    let done = a.symbols.iter().find(|s| s.name == b"done".to_vec()).unwrap();
    assert_eq!(done.def, Some(SymbolDef { section: b"text".to_vec(), offset: 3 }));
}

#[test]
fn merge_failure_is_order_independent_for_three_files() {
    // "foo" is defined in the first and third files; every fold order must
    // fail at some step, whichever association or order is used.
    let srcs: Vec<Vec<u8>> = vec![
        b"foo: halt\n".to_vec(),
        b"bar: nop\n".to_vec(),
        b"foo: push 1\n".to_vec(),
    ];
    let objs: Vec<ObjectFile> =
        srcs.iter().map(|s| assemble(&parse_source(s).unwrap()).unwrap()).collect();
    let orders: Vec<[usize; 3]> =
        vec![[0, 1, 2], [0, 2, 1], [1, 0, 2], [1, 2, 0], [2, 0, 1], [2, 1, 0]];
    for order in orders {
        let mut acc = objs[order[0]].duplicate();
        let first = acc.merge(objs[order[1]].duplicate());
        let failed = match first {
            Err(MergeError::DuplicateDefinition(_)) => true,
            Ok(()) => acc.merge(objs[order[2]].duplicate()).is_err(),
        };
        assert!(failed, "order {:?} should fail on the duplicate definition", order);
    }
}

#[test]
fn merge_is_associative_in_content() {
    let srcs: Vec<Vec<u8>> = vec![
        b"start: push 1\njmp c3\n".to_vec(),
        b"c2: nop\n".to_vec(),
        b"c3: halt\n".to_vec(),
    ];
    let objs: Vec<ObjectFile> =
        srcs.iter().map(|s| assemble(&parse_source(s).unwrap()).unwrap()).collect();
    // ((a + b) + c)
    let mut left = objs[0].duplicate();
    left.merge(objs[1].duplicate()).unwrap();
    left.merge(objs[2].duplicate()).unwrap();
    // (a + (b + c))
    let mut bc = objs[1].duplicate();
    bc.merge(objs[2].duplicate()).unwrap();
    let mut right = objs[0].duplicate();
    right.merge(bc).unwrap();
    assert_eq!(left, right);
}

#[test]
fn alignment_places_sections_on_boundaries() {
    let o = ObjectFile {
        sections: vec![
            section("text", SectionKind::Code, 4, &[1, 2, 3]),
            section("data", SectionKind::Data, 8, &[9]),
        ],
        symbols: vec![defined_symbol("start", "text", 0)],
        relocations: vec![],
    };
    assert!(check_wf(&o));
    let exe = o.build_executable().expect("links");
    // text at 0 (multiple of 4), data padded with zeros to 8 (multiple of 8).
    assert_eq!(exe.image, vec![1, 2, 3, 0, 0, 0, 0, 0, 9]);
    assert_eq!(exe.entry, 0);
}

#[test]
fn relocation_overflow_reported() {
    let o = ObjectFile {
        sections: vec![section("text", SectionKind::Code, 1, &[0, 0])],
        symbols: vec![
            defined_symbol("start", "text", 0),
            defined_symbol("far", "text", 1),
        ],
        relocations: vec![Relocation {
            section: b"text".to_vec(),
            offset: 0,
            symbol: b"far".to_vec(),
            kind: PatchKind::Abs1,
        }],
    };
    // Address 1 fits one byte, so this links; shrink the field instead by
    // placing the target past 255.
    let mut big = vec![0u8; 300];
    big[299] = 0;
    let o2 = ObjectFile {
        sections: vec![section("text", SectionKind::Code, 1, &big)],
        symbols: vec![
            defined_symbol("start", "text", 0),
            defined_symbol("far", "text", 299),
        ],
        relocations: vec![Relocation {
            section: b"text".to_vec(),
            offset: 0,
            symbol: b"far".to_vec(),
            kind: PatchKind::Abs1,
        }],
    };
    assert!(o.build_executable().is_ok());
    match o2.build_executable() {
        Err(LinkError::RelocationOverflow { symbol, site }) => {
            assert_eq!(symbol, b"far".to_vec());
            assert_eq!(site, 0);
        }
        other => panic!("expected relocation overflow, got {:?}", other),
    }
}

#[test]
fn no_entry_point() {
    let o = ObjectFile {
        sections: vec![section("text", SectionKind::Code, 1, &[0])],
        symbols: vec![defined_symbol("other", "text", 0)],
        relocations: vec![],
    };
    match o.build_executable() {
        Err(LinkError::NoEntryPoint) => {}
        other => panic!("expected missing entry point, got {:?}", other),
    }
}

#[test]
fn unsupported_target() {
    let src = b"halt\n".to_vec();
    match assemble_source(&src, &b"riscv".to_vec()) {
        Err(AssembleSourceError::UnsupportedTarget(e)) => {
            assert_eq!(e.name, b"riscv".to_vec());
        }
        other => panic!("expected unsupported target, got {:?}", other),
    }
}

#[test]
fn end_to_end_scenario() {
    let src = b"start: jmp done\ndone: halt\n".to_vec();
    let o = assemble_source(&src, &b"stack".to_vec()).expect("assembles");
    // Single-file link: the one object file is the merged whole.
    let exe = o.build_executable().expect("links");
    // start is at address 0 and becomes the entry point; the jmp operand at
    // bytes 1..3 is patched with done's final address, 3.
    assert_eq!(exe.entry, 0);
    assert_eq!(exe.image, vec![0x11, 3, 0, 0x00]);
    // The serialized executable loads back unchanged.
    let bytes = serialize_executable(&exe);
    let (back, used) = deserialize_executable(&bytes).unwrap();
    assert_eq!(used, bytes.len());
    assert_eq!(back, exe);
}
