use nailhammer::vm::wire::{put_u16, Reader, Wire, WireError, FORMAT_VERSION, TAG_EXT};
use nailhammer::vm::{Cmp, Emit, FnDef, FnTable, Op, Program, Value};

/// The extension type of a language that has none.
#[derive(Clone, Copy, Debug)]
enum NoExt {}

impl Wire for NoExt {
    fn encode(&self, _out: &mut Vec<u8>) {
        match *self {}
    }
    fn decode(_r: &mut Reader<'_>) -> Result<Self, WireError> {
        Err(WireError::UnknownOpcode(TAG_EXT))
    }
}

fn num(n: f64) -> Value {
    Value::Num(n.to_bits())
}

fn sample() -> Program<NoExt> {
    let mut fns = FnTable::new();
    fns.insert("double".to_string(), FnDef { addr: 4, arity: 1, frame: 2 });
    Program {
        code: vec![
            Op::LoadK { dst: 0, value: num(21.0) },
            Op::Call { dst: 0, base: 0, argc: 1, key: "double".into(), shown: "DOUBLE".into() },
            Op::Print { src: 0 },
            Op::Halt,
            Op::Add { dst: 1, a: 0, b: 0 },
            Op::Return { src: 1 },
        ],
        fns,
        frame: 2,
        globals: 0,
    }
}

#[test]
fn a_program_survives_the_round_trip() {
    let before = sample();
    let bytes = before.to_bytes();
    let after = Program::<NoExt>::from_bytes(&bytes).expect("decodes");

    assert_eq!(format!("{:?}", before.code), format!("{:?}", after.code));
    assert_eq!(before.frame, after.frame);
    assert_eq!(before.globals, after.globals);
    assert_eq!(before.fns.len(), after.fns.len());
    let d = after.fns.get("double").expect("the function survives");
    assert_eq!((d.addr, d.arity, d.frame), (4, 1, 2));
    assert_eq!(after.to_bytes(), bytes, "re-encoding gives the same bytes");
}

#[test]
fn values_survive_the_round_trip() {
    let p = Program::<NoExt> {
        code: vec![
            Op::LoadK { dst: 0, value: Value::Nil },
            Op::LoadK { dst: 0, value: Value::Bool(true) },
            Op::LoadK { dst: 0, value: num(-1.5) },
            Op::LoadK { dst: 0, value: Value::str("a string with ünicode") },
            Op::Compare { dst: 0, cmp: Cmp::Ge, a: 0, b: 0 },
            Op::Halt,
        ],
        frame: 1,
        ..Program::default()
    };
    let back = Program::<NoExt>::from_bytes(&p.to_bytes()).expect("decodes");
    assert_eq!(format!("{:?}", p.code), format!("{:?}", back.code));
}

#[test]
fn encoding_is_deterministic() {
    let mut fns = FnTable::new();
    for n in ["zeta", "alpha", "mu", "beta"] {
        fns.insert(n.to_string(), FnDef { addr: 0, arity: 0, frame: 1 });
    }
    let p = Program::<NoExt> { fns, frame: 1, ..Program::default() };

    let a = p.to_bytes();
    for _ in 0..8 {
        assert_eq!(a, p.to_bytes(), "same program, different bytes");
    }
}

#[test]
fn functions_are_written_in_key_order_whatever_order_they_came_in() {
    let mut one = FnTable::new();
    let mut two = FnTable::new();
    for n in ["zeta", "alpha", "mu"] {
        one.insert(n.to_string(), FnDef { addr: 1, arity: 0, frame: 1 });
    }
    for n in ["mu", "zeta", "alpha"] {
        two.insert(n.to_string(), FnDef { addr: 1, arity: 0, frame: 1 });
    }
    let a = Program::<NoExt> { fns: one, ..Program::default() }.to_bytes();
    let b = Program::<NoExt> { fns: two, ..Program::default() }.to_bytes();
    assert_eq!(a, b);
    let back = Program::<NoExt>::from_bytes(&a).unwrap();
    let names: Vec<String> = (0..back.fns.len()).map(|i| back.fns.entry(i).0.clone()).collect();
    assert_eq!(names, ["alpha", "mu", "zeta"]);
}

#[test]
fn a_version_mismatch_is_reported_with_both_versions() {
    let mut bytes = sample().to_bytes();
    bytes[4] = 99;

    match Program::<NoExt>::from_bytes(&bytes) {
        Err(WireError::Version { found, expected }) => {
            assert_eq!(found, 99);
            assert_eq!(expected, FORMAT_VERSION);
            let msg = WireError::Version { found, expected }.to_string();
            assert!(msg.contains("99") && msg.contains(&FORMAT_VERSION.to_string()), "{msg}");
        }
        other => panic!("expected a version error, got {other:?}"),
    }
}

#[test]
fn something_that_is_not_bytecode_is_rejected() {
    assert_eq!(
        Program::<NoExt>::from_bytes(b"not bytecode at all").unwrap_err(),
        WireError::NotBytecode
    );
    assert_eq!(Program::<NoExt>::from_bytes(b"NH").unwrap_err(), WireError::Truncated);
}

#[test]
fn truncation_is_an_error_at_every_length_not_a_panic() {
    let bytes = sample().to_bytes();
    for n in 0..bytes.len() {
        match Program::<NoExt>::from_bytes(&bytes[..n]) {
            Err(_) => {}
            Ok(_) => panic!("a prefix of {n} bytes decoded as a whole program"),
        }
    }
    assert!(Program::<NoExt>::from_bytes(&bytes).is_ok());
}

#[test]
fn a_huge_declared_count_fails_rather_than_allocating() {
    let mut bytes = Vec::new();
    bytes.extend_from_slice(b"NHVM");
    bytes.extend_from_slice(&FORMAT_VERSION.to_le_bytes());
    bytes.extend_from_slice(&1u32.to_le_bytes());
    bytes.extend_from_slice(&0u32.to_le_bytes());
    bytes.extend_from_slice(&0u32.to_le_bytes());
    bytes.extend_from_slice(&u32::MAX.to_le_bytes());

    assert_eq!(Program::<NoExt>::from_bytes(&bytes).unwrap_err(), WireError::Truncated);
}

#[test]
fn an_unknown_opcode_and_an_unknown_tag_are_named() {
    let mut bytes = Vec::new();
    bytes.extend_from_slice(b"NHVM");
    bytes.extend_from_slice(&FORMAT_VERSION.to_le_bytes());
    bytes.extend_from_slice(&1u32.to_le_bytes());
    bytes.extend_from_slice(&0u32.to_le_bytes());
    bytes.extend_from_slice(&0u32.to_le_bytes());
    bytes.extend_from_slice(&1u32.to_le_bytes());
    let mut bad_op = bytes.clone();
    bad_op.push(200);
    assert_eq!(Program::<NoExt>::from_bytes(&bad_op).unwrap_err(), WireError::UnknownOpcode(200));

    let mut bad_value = bytes.clone();
    bad_value.push(0); // LoadK
    bad_value.extend_from_slice(&[0, 0]); // dst
    bad_value.push(9); // no value has tag 9
    assert_eq!(
        Program::<NoExt>::from_bytes(&bad_value).unwrap_err(),
        WireError::UnknownTag { what: "value", tag: 9 }
    );

    let mut bad_cmp = bytes.clone();
    bad_cmp.push(16); // Compare
    bad_cmp.push(6); // no comparison has tag 6
    assert_eq!(
        Program::<NoExt>::from_bytes(&bad_cmp).unwrap_err(),
        WireError::UnknownTag { what: "comparison", tag: 6 }
    );
}

#[test]
fn instructions_have_their_documented_bytes() {
    let p = Program::<NoExt> {
        code: vec![Op::Add { dst: 1, a: 2, b: 3 }, Op::Jump(7), Op::Compare { dst: 4, cmp: Cmp::Lt, a: 5, b: 6 }],
        frame: 3,
        globals: 2,
        ..Program::default()
    };
    let bytes = p.to_bytes();
    let mut want = b"NHVM".to_vec();
    put_u16(&mut want, 1);
    want.extend_from_slice(&3u32.to_le_bytes());
    want.extend_from_slice(&2u32.to_le_bytes());
    want.extend_from_slice(&0u32.to_le_bytes());
    want.extend_from_slice(&3u32.to_le_bytes());
    want.extend_from_slice(&[2, 1, 0, 2, 0, 3, 0]);
    want.extend_from_slice(&[19, 7, 0, 0, 0]);
    want.extend_from_slice(&[16, 2, 4, 0, 5, 0, 6, 0]);
    assert_eq!(bytes, want);
}

#[test]
fn arrays_and_indexing_cross_the_wire() {
    let p = Program::<NoExt> {
        code: vec![
            Op::NewArray { dst: 0, base: 1, len: 3 },
            Op::Index { dst: 2, seq: 0, idx: 1 },
            Op::SetIndex { seq: 0, idx: 1, src: 2 },
            Op::Len { dst: 3, src: 0 },
        ],
        ..Program::default()
    };
    let back = Program::<NoExt>::from_bytes(&p.to_bytes()).unwrap();
    assert_eq!(format!("{:?}", p.code), format!("{:?}", back.code));
}

#[derive(Clone, Debug, PartialEq)]
enum BasicOp {
    Mid { dst: u16, src: u16, start: u16, len: u16 },
}

impl Wire for BasicOp {
    fn encode(&self, out: &mut Vec<u8>) {
        match self {
            BasicOp::Mid { dst, src, start, len } => {
                out.push(0);
                for v in [dst, src, start, len] {
                    put_u16(out, *v);
                }
            }
        }
    }
    fn decode(r: &mut Reader<'_>) -> Result<Self, WireError> {
        match r.u8()? {
            0 => Ok(BasicOp::Mid { dst: r.u16()?, src: r.u16()?, start: r.u16()?, len: r.u16()? }),
            tag => Err(WireError::UnknownTag { what: "BasicOp", tag }),
        }
    }
}

#[test]
fn an_extension_crosses_the_wire() {
    let p = Program::<BasicOp> {
        code: vec![
            Op::LoadK { dst: 0, value: Value::str("NAILHAMMER") },
            Op::LoadK { dst: 1, value: num(4.0) },
            Op::LoadK { dst: 2, value: num(6.0) },
            Op::Ext(BasicOp::Mid { dst: 3, src: 0, start: 1, len: 2 }),
            Op::Print { src: 3 },
            Op::Halt,
        ],
        frame: 4,
        ..Program::default()
    };
    let back = Program::<BasicOp>::from_bytes(&p.to_bytes()).expect("decodes");
    assert_eq!(format!("{:?}", p.code), format!("{:?}", back.code));
}

#[test]
fn the_vm_owns_truthiness() {
    assert!(!Value::Nil.truthy());
    assert!(!Value::Bool(false).truthy());
    assert!(Value::Bool(true).truthy());
    assert!(!num(0.0).truthy());
    assert!(!num(-0.0).truthy());
    assert!(num(0.5).truthy());
    assert!(num(f64::NAN).truthy());
    assert!(!Value::str("").truthy());
    assert!(Value::str("x").truthy());
}

// ---------------------------------------------------------------------------
// The compiler's state
// ---------------------------------------------------------------------------

#[test]
fn globals_get_slots_in_first_seen_order() {
    let mut e = Emit::<NoExt>::new();
    assert_eq!(e.slot_of("x"), 0);
    assert_eq!(e.slot_of("y"), 1);
    assert_eq!(e.slot_of("x"), 0, "a name keeps its slot");
    assert_eq!(e.globals_needed(), 2);
    assert_eq!(Emit::<NoExt>::new().globals_needed(), 1, "at least one slot");
}

#[test]
fn registers_are_taken_and_released_in_stack_order() {
    let mut e = Emit::<NoExt>::new();
    let a = e.allocate();
    let b = e.allocate();
    assert_eq!((a, b), (0, 1));
    e.free(a);
    assert_eq!(e.allocate(), 2, "only the top register is released");
    let mut e = Emit::<NoExt>::new();
    let a = e.allocate();
    let b = e.allocate();
    assert_eq!(e.reuse(&[a, b]), 0, "the result takes the left operand's register");
    assert_eq!(e.frame_size(), 3, "one past the high-water mark");
}

#[test]
fn a_parameter_is_never_freed() {
    let mut e = Emit::<NoExt>::new();
    let at = e.begin_fn(&["n".to_string()]);
    assert_eq!(at, 0);
    assert_eq!(e.local_of("n"), Some(0));
    e.free(0);
    assert_eq!(e.allocate(), 1, "the parameter's register stays its own");
    e.reset_regs();
    assert_eq!(e.allocate(), 1, "resetting goes back to just above the parameters");
}

#[test]
fn reading_a_parameter_emits_nothing_and_a_global_is_loaded() {
    let mut e = Emit::<NoExt>::new();
    e.begin_fn(&["n".to_string()]);
    assert_eq!(e.read_var("n"), 0);
    assert_eq!(e.here(), 0);
    let r = e.read_var("g");
    assert_eq!(r, 1);
    assert_eq!(format!("{:?}", e.code), "[LoadGlobal { dst: 1, slot: 0 }]");
}

#[test]
fn a_new_name_inside_a_body_is_a_local_and_at_the_top_a_global() {
    let mut e = Emit::<NoExt>::new();
    e.begin_fn(&["n".to_string()]);
    e.store_var("t", 0);
    assert_eq!(e.local_of("t"), Some(1));
    assert_eq!(format!("{:?}", e.code), "[Move { dst: 1, src: 0 }]");
    e.end_fn("f", 0, 1);
    assert_eq!(e.local_of("t"), None);
    e.store_var("t", 3);
    assert_eq!(format!("{:?}", e.code[2]), "StoreGlobal { slot: 0, src: 3 }");
}

#[test]
fn jumps_are_patched_to_the_next_instruction() {
    let mut e = Emit::<NoExt>::new();
    let j = e.emit(Op::JumpIfFalse { src: 0, target: 0 });
    e.emit(Op::Print { src: 0 });
    e.patch_to_here(j);
    assert_eq!(format!("{:?}", e.code[0]), "JumpIfFalse { src: 0, target: 2 }");
}

#[test]
fn finishing_hands_over_the_program() {
    let mut e = Emit::<NoExt>::new();
    let r = e.konst(num(1.0));
    e.store_var("x", r);
    let at = e.begin_fn(&[]);
    e.end_fn("f", at, 0);
    let p = e.finish();
    assert_eq!(p.code.len(), 4);
    assert!(matches!(p.code[3], Op::Halt));
    assert_eq!(p.frame, 2);
    assert_eq!(p.globals, 1);
    assert_eq!(p.fns.get("f").map(|d| (d.addr, d.arity, d.frame)), Some((2, 0, 2)));
    assert!(e.code.is_empty());
}
