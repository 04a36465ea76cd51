use ref_safety::code::{Bytecode, CallInfo, FunctionContext, SignatureToken, StatusCode};
use ref_safety::code_unit_verifier::{CodeUnitVerifier, CompiledModule, CompiledScript};
use ref_safety::references::RefID;
use ref_safety::set::QueryFilter;
use ref_safety::state::{AbstractState, AbstractValue};

fn ctx(
    parameters: Vec<SignatureToken>,
    locals: Vec<SignatureToken>,
    return_: Vec<SignatureToken>,
    code: Vec<Bytecode>,
) -> FunctionContext {
    FunctionContext { index: 0, parameters, locals, return_, code }
}

use SignatureToken::{MutableReference, Reference, Value};

#[test]
fn alias_of_immutable_parameter() {
    // Copy an immutable reference parameter, freeze it, return it: the
    // returned reference aliases the parameter exactly, which is safe.
    let f = ctx(
        vec![Reference],
        vec![],
        vec![Reference],
        vec![Bytecode::CopyLoc(0), Bytecode::FreezeRef, Bytecode::Ret],
    );
    assert!(ref_safety::absint::verify_function(&f).is_ok());
}

#[test]
fn write_through_aliased_mutable() {
    // A field of the parameter is borrowed and parked in a local; the
    // later write through a fresh copy of the parameter must fail.
    let f = ctx(
        vec![MutableReference],
        vec![MutableReference],
        vec![],
        vec![
            Bytecode::CopyLoc(0),
            Bytecode::BorrowField(true, 0),
            Bytecode::StLoc(1),
            Bytecode::LdValue,
            Bytecode::CopyLoc(0),
            Bytecode::WriteRef,
            Bytecode::Ret,
        ],
    );
    let e = ref_safety::absint::verify_function(&f).unwrap_err();
    assert_eq!(e.status, StatusCode::WriteRefExistsBorrowError);
    assert_eq!(e.offset, 5);
}

#[test]
fn return_reference_to_local() {
    // Returning a reference rooted at a local leaves the frame unsafe to
    // destroy.
    let f = ctx(
        vec![],
        vec![Value],
        vec![Reference],
        vec![Bytecode::BorrowLoc(false, 0), Bytecode::Ret],
    );
    let e = ref_safety::absint::verify_function(&f).unwrap_err();
    assert_eq!(e.status, StatusCode::UnsafeRetLocalOrResourceStillBorrowed);
    assert_eq!(e.offset, 1);
}

#[test]
fn move_from_while_borrowed() {
    // A global resource is borrowed into a local; moving the resource out
    // while the borrow lives must fail.
    let f = ctx(
        vec![],
        vec![Reference],
        vec![],
        vec![
            Bytecode::LdValue,
            Bytecode::BorrowGlobal(false, 7),
            Bytecode::StLoc(0),
            Bytecode::LdValue,
            Bytecode::MoveFrom(7),
            Bytecode::Pop,
            Bytecode::Ret,
        ],
    );
    let e = ref_safety::absint::verify_function(&f).unwrap_err();
    assert_eq!(e.status, StatusCode::GlobalReferenceError);
    assert_eq!(e.offset, 4);
}

#[test]
fn join_at_loop_header_collapses_local() {
    // The reference local is bound on one branch only, so the join at the
    // loop header releases it; using it inside the loop is the error, at
    // that instruction.
    let f = ctx(
        vec![Value, MutableReference],
        vec![MutableReference],
        vec![],
        vec![
            Bytecode::CopyLoc(0),
            Bytecode::BrFalse(5),
            Bytecode::CopyLoc(1),
            Bytecode::BorrowField(true, 0),
            Bytecode::StLoc(2),
            Bytecode::CopyLoc(2),
            Bytecode::Pop,
            Bytecode::Branch(5),
        ],
    );
    let e = ref_safety::absint::verify_function(&f).unwrap_err();
    assert_eq!(e.status, StatusCode::CopyLocUnavailableError);
    assert_eq!(e.offset, 5);
}

#[test]
fn call_with_extended_mutable_argument() {
    // The mutable argument still has a live field extension through a
    // local, so it cannot be handed to the callee.
    let f = ctx(
        vec![MutableReference],
        vec![MutableReference],
        vec![],
        vec![
            Bytecode::CopyLoc(0),
            Bytecode::BorrowField(true, 0),
            Bytecode::StLoc(1),
            Bytecode::CopyLoc(0),
            Bytecode::Call(CallInfo { num_args: 1, acquires: vec![], returns: vec![] }),
            Bytecode::Ret,
        ],
    );
    let e = ref_safety::absint::verify_function(&f).unwrap_err();
    assert_eq!(e.status, StatusCode::CallBorrowedMutableReferenceError);
    assert_eq!(e.offset, 4);
}

#[test]
fn move_borrowed_local() {
    let f = ctx(
        vec![],
        vec![Value],
        vec![],
        vec![Bytecode::BorrowLoc(false, 0), Bytecode::MoveLoc(0), Bytecode::Ret],
    );
    let e = ref_safety::absint::verify_function(&f).unwrap_err();
    assert_eq!(e.status, StatusCode::MoveLocExistsBorrowError);
    assert_eq!(e.offset, 1);
}

#[test]
fn store_over_borrowed_local() {
    let f = ctx(
        vec![],
        vec![Value],
        vec![],
        vec![Bytecode::BorrowLoc(false, 0), Bytecode::LdValue, Bytecode::StLoc(0), Bytecode::Ret],
    );
    let e = ref_safety::absint::verify_function(&f).unwrap_err();
    assert_eq!(e.status, StatusCode::StLocUnsafeToDestroyError);
    assert_eq!(e.offset, 2);
}

#[test]
fn read_through_mutably_extended_reference() {
    let f = ctx(
        vec![MutableReference],
        vec![MutableReference],
        vec![],
        vec![
            Bytecode::CopyLoc(0),
            Bytecode::BorrowField(true, 0),
            Bytecode::StLoc(1),
            Bytecode::CopyLoc(0),
            Bytecode::ReadRef,
            Bytecode::Pop,
            Bytecode::Ret,
        ],
    );
    let e = ref_safety::absint::verify_function(&f).unwrap_err();
    assert_eq!(e.status, StatusCode::ReadRefExistsMutableBorrowError);
    assert_eq!(e.offset, 4);
}

#[test]
fn vector_update_with_live_element_borrow() {
    let f = ctx(
        vec![MutableReference],
        vec![MutableReference],
        vec![],
        vec![
            Bytecode::CopyLoc(0),
            Bytecode::LdValue,
            Bytecode::VecElemBorrow(true),
            Bytecode::StLoc(1),
            Bytecode::CopyLoc(0),
            Bytecode::LdValue,
            Bytecode::VecMutOp,
            Bytecode::Ret,
        ],
    );
    let e = ref_safety::absint::verify_function(&f).unwrap_err();
    assert_eq!(e.status, StatusCode::VecUpdateExistsMutableBorrowError);
    assert_eq!(e.offset, 6);
}

#[test]
fn return_aliased_mutable_references() {
    // Returning the same mutable reference twice: each returned reference
    // has the other as an exact-alias parent in the returned set.
    let f = ctx(
        vec![MutableReference],
        vec![],
        vec![MutableReference, MutableReference],
        vec![Bytecode::CopyLoc(0), Bytecode::CopyLoc(0), Bytecode::Ret],
    );
    let e = ref_safety::absint::verify_function(&f).unwrap_err();
    assert_eq!(e.status, StatusCode::RetBorrowedMutableReferenceError);
    assert_eq!(e.offset, 2);
}

#[test]
fn write_with_exact_alias_is_allowed() {
    // An exact alias — the pinned parameter itself — does not block a
    // write: only proper extensions do.
    let f = ctx(
        vec![MutableReference],
        vec![],
        vec![],
        vec![Bytecode::LdValue, Bytecode::CopyLoc(0), Bytecode::WriteRef, Bytecode::Ret],
    );
    assert!(ref_safety::absint::verify_function(&f).is_ok());
}

#[test]
fn call_releases_arguments_and_tracks_returns() {
    // A call consumes its reference argument and returns a fresh mutable
    // reference extending it; storing and later writing through it is
    // fine once nothing extends it.
    let f = ctx(
        vec![MutableReference],
        vec![MutableReference],
        vec![],
        vec![
            Bytecode::CopyLoc(0),
            Bytecode::Call(
                CallInfo { num_args: 1, acquires: vec![], returns: vec![MutableReference] },
            ),
            Bytecode::StLoc(1),
            Bytecode::LdValue,
            Bytecode::CopyLoc(1),
            Bytecode::WriteRef,
            Bytecode::Ret,
        ],
    );
    assert!(ref_safety::absint::verify_function(&f).is_ok());
}

#[test]
fn call_checks_acquired_resources() {
    let f = ctx(
        vec![],
        vec![Reference],
        vec![],
        vec![
            Bytecode::LdValue,
            Bytecode::BorrowGlobal(false, 3),
            Bytecode::StLoc(0),
            Bytecode::Call(CallInfo { num_args: 0, acquires: vec![3], returns: vec![] }),
            Bytecode::Ret,
        ],
    );
    let e = ref_safety::absint::verify_function(&f).unwrap_err();
    assert_eq!(e.status, StatusCode::GlobalReferenceError);
    assert_eq!(e.offset, 3);
}

#[test]
fn terminating_loop_reaches_fixed_point() {
    let f = ctx(
        vec![Value, MutableReference],
        vec![],
        vec![],
        vec![
            Bytecode::CopyLoc(0),
            Bytecode::BrFalse(4),
            Bytecode::LdValue,
            Bytecode::Pop,
            Bytecode::CopyLoc(0),
            Bytecode::BrTrue(0),
            Bytecode::Ret,
        ],
    );
    assert!(ref_safety::absint::verify_function(&f).is_ok());
}

#[test]
fn module_and_script_verification() {
    let good = ctx(vec![Reference], vec![], vec![Reference], vec![
        Bytecode::CopyLoc(0),
        Bytecode::FreezeRef,
        Bytecode::Ret,
    ]);
    let bad = ctx(vec![], vec![Value], vec![Reference], vec![
        Bytecode::BorrowLoc(false, 0),
        Bytecode::Ret,
    ]);
    let native = ctx(vec![], vec![], vec![], vec![]);
    let module = CompiledModule { function_defs: vec![good.clone(), native, bad] };
    let e = CodeUnitVerifier::verify_module(&module).unwrap_err();
    assert_eq!(e.status, StatusCode::UnsafeRetLocalOrResourceStillBorrowed);
    let script = CompiledScript { main: good };
    assert!(CodeUnitVerifier::verify_script(&script).is_ok());
}

#[test]
fn comparison_releases_references() {
    // Comparing two references releases both; the frame is then safe to
    // leave.
    let f = ctx(
        vec![Reference, Reference],
        vec![],
        vec![],
        vec![Bytecode::CopyLoc(0), Bytecode::CopyLoc(1), Bytecode::Eq, Bytecode::Pop, Bytecode::Ret],
    );
    assert!(ref_safety::absint::verify_function(&f).is_ok());
    let g = ctx(
        vec![Reference, Reference],
        vec![],
        vec![],
        vec![
            Bytecode::CopyLoc(0),
            Bytecode::CopyLoc(1),
            Bytecode::Neq,
            Bytecode::Pop,
            Bytecode::Ret,
        ],
    );
    assert!(ref_safety::absint::verify_function(&g).is_ok());
}

#[test]
fn alias_post_state_shape() {
    // Drive the state by hand through the copy-and-freeze body: the
    // parameter keeps its single path and the frozen copy aliases it
    // exactly.
    let f = ctx(vec![Reference], vec![], vec![Reference], vec![]);
    let mut st = AbstractState::new(&f);
    let copied = st.copy_loc(0, 0).unwrap();
    let id = match copied {
        AbstractValue::Reference(id) => id,
        AbstractValue::NonReference => panic!("expected a reference"),
    };
    let frozen = st.freeze_ref(1, id).unwrap();
    let fid = match frozen {
        AbstractValue::Reference(id) => id,
        AbstractValue::NonReference => panic!("expected a reference"),
    };
    let conflicts = st.borrow_set.borrowed_by(RefID(0), &QueryFilter::empty());
    assert_eq!(conflicts.equal.len(), 1);
    assert_eq!(conflicts.equal[0].0, fid.0);
    assert_eq!(conflicts.existential.len(), 0);
    assert_eq!(conflicts.labeled.len(), 0);
}

#[test]
fn control_flow_graph_blocks() {
    let code = vec![
        Bytecode::CopyLoc(0),
        Bytecode::BrFalse(4),
        Bytecode::LdValue,
        Bytecode::Pop,
        Bytecode::CopyLoc(0),
        Bytecode::BrTrue(0),
        Bytecode::Ret,
    ];
    let cfg = ref_safety::cfg::VMControlFlowGraph::new(&code);
    assert_eq!(cfg.entry_block_id(), 0);
    assert_eq!(cfg.num_blocks(), 4);
    assert_eq!(cfg.blocks[0].entry, 0);
    assert_eq!(cfg.blocks[0].exit, 1);
    assert_eq!(cfg.blocks[1].entry, 2);
    assert_eq!(cfg.blocks[1].exit, 3);
    assert_eq!(cfg.blocks[2].entry, 4);
    assert_eq!(cfg.blocks[2].exit, 5);
    assert_eq!(cfg.blocks[3].entry, 6);
    assert_eq!(cfg.blocks[3].exit, 6);
    let reach = cfg.reachable_from(0);
    assert_eq!(reach.len(), 4);
    assert_eq!(reach[0], 0);
    for i in 0..reach.len() {
        for j in 0..i {
            assert_ne!(reach[i], reach[j]);
        }
    }
    let reach_exit = cfg.reachable_from(6);
    assert_eq!(reach_exit, vec![6]);
    let reach_mid = cfg.reachable_from(4);
    assert_eq!(reach_mid.len(), 4);
    assert_eq!(reach_mid[0], 4);
    for i in 0..reach_mid.len() {
        for j in 0..i {
            assert_ne!(reach_mid[i], reach_mid[j]);
        }
    }
}
