//! The analyzed function as the analyzer sees it: signature tokens with
//! their reference discriminant, the bytecode forms the transfer function
//! interprets, and the diagnostics it produces.

use vstd::prelude::*;

verus! {

/// Status of a reference-safety violation.
#[derive(Clone, Copy, Debug, PartialEq, Eq, Structural)]
pub enum StatusCode {
    /// Copying a local that currently holds no reference.
    CopyLocUnavailableError,
    /// Moving a local that currently holds no reference.
    MoveLocUnavailableError,
    /// Moving a local while it is borrowed.
    MoveLocExistsBorrowError,
    /// Overwriting a borrowed local value.
    StLocUnsafeToDestroyError,
    /// Reading through a reference with a live mutable extension.
    ReadRefExistsMutableBorrowError,
    /// Writing through a reference with any live extension.
    WriteRefExistsBorrowError,
    /// Mutating a vector through a reference with a live extension.
    VecUpdateExistsMutableBorrowError,
    /// Moving from or acquiring a resource that is currently borrowed.
    GlobalReferenceError,
    /// Passing a mutable reference to a call while it has aliases or
    /// parents outside the argument set.
    CallBorrowedMutableReferenceError,
    /// Returning a mutable reference with external aliases.
    RetBorrowedMutableReferenceError,
    /// Returning while a reference is still rooted at a local or global.
    UnsafeRetLocalOrResourceStillBorrowed,
    /// The operand stack or operand kinds disagree with the instruction;
    /// earlier verifier passes rule this out for well-typed input.
    UnknownInvariantViolationError,
}

/// A reference-safety diagnostic: its status, the index of the function
/// definition, and the code offset of the failing instruction.
#[derive(Clone, Copy, Debug, PartialEq, Eq, Structural)]
pub struct PartialVMError {
    pub status: StatusCode,
    pub function: u16,
    pub offset: u16,
}

impl PartialVMError {
    /// Build a diagnostic for the given status at a location.
    pub fn new(status: StatusCode, function: u16, offset: u16) -> (r: PartialVMError)
        ensures
            r == (PartialVMError { status, function, offset }),
    {
        PartialVMError { status, function, offset }
    }
}

/// What the analyzer reads from a type: whether a slot or value is a
/// reference, and of which mutability.
#[derive(Clone, Copy, Debug, PartialEq, Eq, Structural)]
pub enum SignatureToken {
    /// A non-reference value.
    Value,
    /// An immutable reference.
    Reference,
    /// A mutable reference.
    MutableReference,
}

impl SignatureToken {
    /// Whether the token is a reference of either mutability.
    pub fn is_reference(&self) -> (r: bool)
        ensures
            r == (*self is Reference || *self is MutableReference),
    {
        match self {
            SignatureToken::Value => false,
            SignatureToken::Reference => true,
            SignatureToken::MutableReference => true,
        }
    }

    /// Whether the token is a mutable reference.
    pub fn is_mutable_reference(&self) -> (r: bool)
        ensures
            r == (*self is MutableReference),
    {
        match self {
            SignatureToken::MutableReference => true,
            _ => false,
        }
    }
}

/// What a call site carries: how many operands it consumes, the resources
/// its callee acquires, and the callee's return signature.
#[derive(Clone, Debug)]
pub struct CallInfo {
    /// Number of operands popped for the call, rightmost popped first.
    pub num_args: u16,
    /// Struct definition indices of the resources the callee acquires.
    pub acquires: Vec<u16>,
    /// The callee's return types.
    pub returns: Vec<SignatureToken>,
}

/// The bytecode forms the reference-safety analysis distinguishes. Branch
/// targets are code offsets.
#[derive(Clone, Debug)]
pub enum Bytecode {
    /// Push a copy of the local; for a reference slot, a copy of the
    /// reference.
    CopyLoc(u16),
    /// Push the local's value, emptying the slot.
    MoveLoc(u16),
    /// Pop a value into the local.
    StLoc(u16),
    /// Pop a mutable reference, push an immutable one to the same target.
    FreezeRef,
    /// Pop a reference, push the value read through it.
    ReadRef,
    /// Pop a reference and a value, write the value through the reference.
    WriteRef,
    /// Pop two operands, push their equality.
    Eq,
    /// Pop two operands, push their inequality.
    Neq,
    /// Push a reference to the local.
    BorrowLoc(bool, u16),
    /// Pop a reference to a struct, push a reference to one of its fields.
    BorrowField(bool, u16),
    /// Pop a reference to a vector, push a reference to an unknown element.
    VecElemBorrow(bool),
    /// Push a reference to a global resource.
    BorrowGlobal(bool, u16),
    /// Pop an address, move the resource out of global storage.
    MoveFrom(u16),
    /// Pop a mutable reference to a vector and mutate it in place.
    VecMutOp,
    /// Call a function: pop its arguments, push its results.
    Call(CallInfo),
    /// Push a non-reference value, standing for any value-producing form.
    LdValue,
    /// Pop and discard a value.
    Pop,
    /// Jump unconditionally.
    Branch(u16),
    /// Pop a boolean; jump when it is true.
    BrTrue(u16),
    /// Pop a boolean; jump when it is false.
    BrFalse(u16),
    /// Do nothing.
    Nop,
    /// Pop the declared return values and leave the function.
    Ret,
}

/// Whether the instruction ends a basic block: it branches or leaves the
/// function.
pub open spec fn spec_is_branch(b: Bytecode) -> bool {
    b is Branch || b is BrTrue || b is BrFalse || b is Ret
}

/// The branch target the instruction carries, if any.
pub open spec fn spec_target(b: Bytecode) -> Option<u16> {
    match b {
        Bytecode::Branch(t) => Some(t),
        Bytecode::BrTrue(t) => Some(t),
        Bytecode::BrFalse(t) => Some(t),
        _ => None,
    }
}

/// The successor offsets of the instruction at `pc` of `code`: its
/// branch targets and, unless it always transfers control away, the next
/// offset.
pub open spec fn spec_successors(code: Seq<Bytecode>, pc: int) -> Seq<u16> {
    let fall = Seq::<u16>::empty().push((pc + 1) as u16);
    match code[pc] {
        Bytecode::Branch(t) => Seq::<u16>::empty().push(t),
        Bytecode::BrTrue(t) => if pc + 1 < code.len() {
            Seq::<u16>::empty().push(t).push((pc + 1) as u16)
        } else {
            Seq::<u16>::empty().push(t)
        },
        Bytecode::BrFalse(t) => if pc + 1 < code.len() {
            Seq::<u16>::empty().push(t).push((pc + 1) as u16)
        } else {
            Seq::<u16>::empty().push(t)
        },
        Bytecode::Ret => Seq::<u16>::empty(),
        _ => if pc + 1 < code.len() {
            fall
        } else {
            Seq::<u16>::empty()
        },
    }
}

impl Bytecode {
    /// Whether this instruction ends a basic block: it branches or leaves
    /// the function.
    pub fn is_branch(&self) -> (r: bool)
        ensures
            r == (*self is Branch || *self is BrTrue || *self is BrFalse || *self is Ret),
    {
        match self {
            Bytecode::Branch(_) => true,
            Bytecode::BrTrue(_) => true,
            Bytecode::BrFalse(_) => true,
            Bytecode::Ret => true,
            _ => false,
        }
    }

    /// The branch target offset, when the instruction carries one.
    pub fn offset(&self) -> (r: Option<u16>)
        ensures
            r == (match *self {
                Bytecode::Branch(t) => Some(t),
                Bytecode::BrTrue(t) => Some(t),
                Bytecode::BrFalse(t) => Some(t),
                _ => None::<u16>,
            }),
    {
        match self {
            Bytecode::Branch(t) => Some(*t),
            Bytecode::BrTrue(t) => Some(*t),
            Bytecode::BrFalse(t) => Some(*t),
            _ => None,
        }
    }

    /// The successor offsets of the instruction at `pc`: branch targets
    /// and, unless the instruction always transfers control, `pc + 1`.
    pub fn get_successors(pc: u16, code: &Vec<Bytecode>) -> (r: Vec<u16>)
        requires
            (pc as int) < code@.len(),
            code@.len() <= u16::MAX as int,
        ensures
            r@ == spec_successors(code@, pc as int),
    {
        let mut v: Vec<u16> = Vec::new();
        match &code[pc as usize] {
            Bytecode::Branch(t) => {
                v.push(*t);
            },
            Bytecode::BrTrue(t) => {
                v.push(*t);
                if pc as usize + 1 < code.len() {
                    v.push(pc + 1);
                }
            },
            Bytecode::BrFalse(t) => {
                v.push(*t);
                if pc as usize + 1 < code.len() {
                    v.push(pc + 1);
                }
            },
            Bytecode::Ret => {},
            _ => {
                if pc as usize + 1 < code.len() {
                    v.push(pc + 1);
                }
            },
        }
        proof {
            assert(v@ =~= spec_successors(code@, pc as int));
        }
        v
    }
}

/// Everything the analyzer consumes about one function definition: its
/// index for diagnostics, the parameter, local and return signatures, and
/// the bytecode.
#[derive(Clone, Debug)]
pub struct FunctionContext {
    pub index: u16,
    pub parameters: Vec<SignatureToken>,
    pub locals: Vec<SignatureToken>,
    pub return_: Vec<SignatureToken>,
    pub code: Vec<Bytecode>,
}

} // verus!
