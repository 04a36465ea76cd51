//! The abstract state of the reference-safety analysis: a borrow set
//! paired with the fixed mapping from local slots to their pinned
//! references, the derived safety predicates, and the per-instruction
//! transfer rules.

use crate::absint::JoinResult;
use crate::code::{FunctionContext, PartialVMError, SignatureToken, StatusCode};
use crate::paths::{Extension, Label, Offset, Ordering, PathModel};
use crate::references::{RefID, RefModel};
use crate::set::{
    at, bs_wf, consistent_world, ext_paths, in_id_locs, in_ids, in_labeled, live, pair_id,
    pair_rel, starts_with_label, starts_with_matching, BorrowSet, LabelPredicate, QueryFilter,
};
use vstd::prelude::*;

verus! {

/// An operand of the abstract interpretation: a reference with its
/// identifier, or any non-reference value.
#[derive(Clone, Copy, Debug, PartialEq, Eq, Structural)]
pub enum AbstractValue {
    Reference(RefID),
    NonReference,
}

impl AbstractValue {
    /// Whether this operand is a reference.
    pub fn is_reference(&self) -> (r: bool)
        ensures
            r == (*self is Reference),
    {
        match self {
            AbstractValue::Reference(_) => true,
            AbstractValue::NonReference => false,
        }
    }

    /// Whether this operand is a non-reference value.
    pub fn is_value(&self) -> (r: bool)
        ensures
            r == (*self is NonReference),
    {
        !self.is_reference()
    }

    /// The reference identifier, when this operand is a reference.
    pub fn ref_id(&self) -> (r: Option<RefID>)
        ensures
            r == (match *self {
                AbstractValue::Reference(id) => Some(id),
                AbstractValue::NonReference => None::<RefID>,
            }),
    {
        match self {
            AbstractValue::Reference(id) => Some(*id),
            AbstractValue::NonReference => None,
        }
    }
}

/// Some other live reference extends a path of `id` at a wildcard;
/// `mut_only` restricts the other side to mutable references.
pub open spec fn some_star_ext(s: BorrowSet, id: int, mut_only: bool) -> bool {
    exists|oid: int|
        #[trigger] live(s, oid) && oid != id && (!mut_only || at(s, oid).mutable) && pair_rel(
            s,
            id,
            oid,
            Ordering::RightExtendsLeft(Extension::Star),
        )
}

/// Some other live reference extends a path of `id` at a concrete label.
pub open spec fn some_label_ext(s: BorrowSet, id: int, mut_only: bool) -> bool {
    exists|oid: int, lbl: Label|
        #![trigger pair_rel(s, id, oid, Ordering::RightExtendsLeft(Extension::Label(lbl)))]
        live(s, oid) && oid != id && (!mut_only || at(s, oid).mutable) && pair_rel(
            s,
            id,
            oid,
            Ordering::RightExtendsLeft(Extension::Label(lbl)),
        )
}

/// Some other live reference extends a path of `id` exactly at the given
/// field label.
pub open spec fn some_field_ext(s: BorrowSet, id: int, f: u16, mut_only: bool) -> bool {
    exists|oid: int|
        #[trigger] live(s, oid) && oid != id && (!mut_only || at(s, oid).mutable) && pair_rel(
            s,
            id,
            oid,
            Ordering::RightExtendsLeft(Extension::Label(Label::Field(f))),
        )
}

/// A mutable reference may be written through when no other reference
/// properly extends it; exact aliases are permitted.
pub open spec fn is_writable_spec(s: BorrowSet, id: int) -> bool {
    &&& at(s, id).mutable
    &&& !some_star_ext(s, id, false)
    &&& !some_label_ext(s, id, false)
}

/// A reference may be read through: immutable references always; a mutable
/// one when no mutable reference extends it at a wildcard, and none at a
/// label — except, when the read happens at a field, extensions at that
/// very field are the only labeled ones that block it.
pub open spec fn is_readable_spec(s: BorrowSet, id: int, at_field: Option<u16>) -> bool {
    ||| !at(s, id).mutable
    ||| (!some_star_ext(s, id, true) && (match at_field {
        None => !some_label_ext(s, id, true),
        Some(f) => !some_field_ext(s, id, f, true),
    }))
}

/// Some live reference is rooted at the given label.
pub open spec fn label_borrowed(s: BorrowSet, lbl: Label) -> bool {
    exists|oid: int| #[trigger] live(s, oid) && starts_with_label(s, oid, lbl)
}

/// The label kinds that must not be borrowed when the frame is destroyed.
pub open spec fn frame_pred() -> LabelPredicate {
    LabelPredicate { parameter: false, global: true, local: true, field: false }
}

/// Some live reference is still rooted at a local or a global.
pub open spec fn frame_rooted(s: BorrowSet) -> bool {
    exists|oid: int| #[trigger] live(s, oid) && starts_with_matching(s, oid, frame_pred())
}

/// Reference `id` has a parent among the candidate set: another live
/// candidate holding a path that a path of `id` equals or extends.
pub open spec fn some_parent_among(s: BorrowSet, id: int, cands: Seq<RefID>) -> bool {
    exists|oid: int|
        #[trigger] live(s, oid) && oid != id && in_ids(cands, oid) && (pair_rel(
            s,
            oid,
            id,
            Ordering::Equal,
        ) || pair_rel(s, oid, id, Ordering::RightExtendsLeft(Extension::Star)) || exists|lbl: Label|
            pair_rel(s, oid, id, Ordering::RightExtendsLeft(Extension::Label(lbl))))
}

/// The identifier held in an occupied slot.
pub open spec fn slot_id(o: Option<RefID>) -> int {
    match o {
        Some(r) => r.0 as int,
        None => 0,
    }
}

/// The identifier of a reference operand.
pub open spec fn av_id(v: AbstractValue) -> int {
    match v {
        AbstractValue::Reference(id) => id.0 as int,
        AbstractValue::NonReference => 0,
    }
}

/// The abstract state: the index of the analyzed function for
/// diagnostics, the fixed mapping from each slot to the pinned reference
/// standing for it (`None` for non-reference slots), and the borrow set.
#[derive(Debug)]
pub struct AbstractState {
    pub current_function: u16,
    pub locals: Vec<Option<RefID>>,
    pub borrow_set: BorrowSet,
}

/// Every slot's pinned reference is live and pinned in the borrow set.
pub open spec fn st_wf(st: AbstractState) -> bool {
    &&& bs_wf(st.borrow_set)
    &&& forall|i: int|
        0 <= i < st.locals@.len() && (#[trigger] st.locals@[i]) is Some ==> live(
            st.borrow_set,
            slot_id(st.locals@[i]),
        ) && at(st.borrow_set, slot_id(st.locals@[i])).pinned
}

impl Clone for AbstractState {
    /// A clone models the same state.
    fn clone(&self) -> (r: Self)
        ensures
            r.current_function == self.current_function,
            r.locals@ == self.locals@,
            r.borrow_set.refs@.len() == self.borrow_set.refs@.len(),
            forall|id: int| live(self.borrow_set, id) <==> live(r.borrow_set, id),
            forall|id: int|
                #[trigger] live(self.borrow_set, id) ==> at(r.borrow_set, id) == at(
                    self.borrow_set,
                    id,
                ),
            st_wf(*self) ==> st_wf(r),
    {
        let mut locals: Vec<Option<RefID>> = Vec::new();
        let n = self.locals.len();
        let mut i: usize = 0;
        while i < n
            invariant
                n == self.locals@.len(),
                0 <= i <= n,
                locals@ =~= self.locals@.subrange(0, i as int),
            decreases n - i,
        {
            locals.push(self.locals[i]);
            i += 1;
        }
        proof {
            assert(locals@ =~= self.locals@);
        }
        AbstractState {
            current_function: self.current_function,
            locals,
            borrow_set: self.borrow_set.clone(),
        }
    }
}

impl AbstractState {
    /// The initial state of a function: one pinned reference per
    /// reference-typed parameter, holding the single path of that
    /// parameter, and one released pinned reference per reference-typed
    /// local; non-reference slots map to nothing.
    pub fn new(ctx: &FunctionContext) -> (r: AbstractState)
        requires
            ctx.parameters@.len() + ctx.locals@.len() <= u16::MAX as int,
        ensures
            st_wf(r),
            r.current_function == ctx.index,
            r.locals@.len() == ctx.parameters@.len() + ctx.locals@.len(),
            forall|i: int|
                0 <= i < ctx.parameters@.len() ==> ((#[trigger] r.locals@[i]) is Some
                    <==> ctx.parameters@[i] is Reference || ctx.parameters@[i]
                    is MutableReference),
            forall|i: int|
                ctx.parameters@.len() <= i < r.locals@.len() ==> ((#[trigger] r.locals@[i])
                    is Some <==> ctx.locals@[i - ctx.parameters@.len()] is Reference
                    || ctx.locals@[i - ctx.parameters@.len()] is MutableReference),
            forall|i: int|
                0 <= i < ctx.parameters@.len() && (#[trigger] r.locals@[i]) is Some ==> at(
                    r.borrow_set,
                    slot_id(r.locals@[i]),
                ) == (RefModel {
                    mutable: ctx.parameters@[i] is MutableReference,
                    pinned: true,
                    paths: Set::<PathModel>::empty().insert(
                        PathModel {
                            root: None,
                            offsets: Seq::<Offset>::empty().push(
                                Offset::Label(Label::Parameter(i as u16)),
                            ),
                        },
                    ),
                }),
            forall|i: int|
                ctx.parameters@.len() <= i < r.locals@.len() && (#[trigger] r.locals@[i]) is Some
                    ==> at(r.borrow_set, slot_id(r.locals@[i])) == (RefModel {
                    mutable: ctx.locals@[i - ctx.parameters@.len()] is MutableReference,
                    pinned: true,
                    paths: Set::<PathModel>::empty(),
                }),
            forall|j: int| #[trigger] live(r.borrow_set, j) ==> is_slot_ref(r.locals@, j),
            r.borrow_set.refs@.len() <= r.locals@.len(),
    {
        let mut init: Vec<(bool, Option<(u16, Label)>)> = Vec::new();
        let mut locals: Vec<Option<RefID>> = Vec::new();
        let np = ctx.parameters.len();
        let nl = ctx.locals.len();
        let mut i: usize = 0;
        while i < np
            invariant
                np == ctx.parameters@.len(),
                np + nl <= u16::MAX as int,
                0 <= i <= np,
                locals@.len() == i,
                forall|j: int|
                    0 <= j < i ==> ((#[trigger] locals@[j]) is Some <==> ctx.parameters@[j]
                        is Reference || ctx.parameters@[j] is MutableReference),
                forall|j: int|
                    0 <= j < i && (#[trigger] locals@[j]) is Some ==> slot_id(locals@[j]) < init@.len() && init@[slot_id(locals@[j])] == (
                    ctx.parameters@[j] is MutableReference,
                    Some((0u16, Label::Parameter(j as u16))),
                    ),
                init@.len() <= locals@.len(),
                forall|id: int| 0 <= id < init@.len() ==> #[trigger] is_slot_ref(locals@, id),
            decreases np - i,
        {
            let ghost old_locals = locals@;
            let ghost old_init_len = init@.len();
            let tok = ctx.parameters[i];
            if tok.is_reference() {
                locals.push(Some(RefID(init.len())));
                init.push((tok.is_mutable_reference(), Some((0u16, Label::Parameter(i as u16)))));
            } else {
                locals.push(None);
            }
            proof {
                assert forall|id: int| 0 <= id < init@.len() implies #[trigger] is_slot_ref(
                    locals@,
                    id,
                ) by {
                    if id < old_init_len {
                        assert(is_slot_ref(old_locals, id));
                        let w = choose|w: int|
                            0 <= w < old_locals.len() && (#[trigger] old_locals[w]) is Some
                                && slot_id(old_locals[w]) == id;
                        assert(locals@[w] == old_locals[w]);
                    } else {
                        assert(locals@[old_locals.len() as int] is Some && slot_id(
                            locals@[old_locals.len() as int],
                        ) == id);
                    }
                }
            }
            i += 1;
        }
        let ghost params_init_len = init@.len();
        let mut k: usize = 0;
        while k < nl
            invariant
                np == ctx.parameters@.len(),
                nl == ctx.locals@.len(),
                np + nl <= u16::MAX as int,
                0 <= k <= nl,
                locals@.len() == np + k,
                forall|j: int|
                    0 <= j < np ==> ((#[trigger] locals@[j]) is Some <==> ctx.parameters@[j]
                        is Reference || ctx.parameters@[j] is MutableReference),
                forall|j: int|
                    0 <= j < np && (#[trigger] locals@[j]) is Some ==> slot_id(locals@[j]) < init@.len() && init@[slot_id(locals@[j])] == (
                    ctx.parameters@[j] is MutableReference,
                    Some((0u16, Label::Parameter(j as u16))),
                    ),
                forall|j: int|
                    np <= j < np + k ==> ((#[trigger] locals@[j]) is Some <==> ctx.locals@[j - np]
                        is Reference || ctx.locals@[j - np] is MutableReference),
                forall|j: int|
                    np <= j < np + k && (#[trigger] locals@[j]) is Some ==> slot_id(locals@[j]) < init@.len() && init@[slot_id(locals@[j])] == (
                    ctx.locals@[j - np] is MutableReference,
                    None::<(u16, Label)>,
                    ),
                init@.len() <= locals@.len(),
                forall|id: int| 0 <= id < init@.len() ==> #[trigger] is_slot_ref(locals@, id),
            decreases nl - k,
        {
            let ghost old_locals = locals@;
            let ghost old_init_len = init@.len();
            let tok = ctx.locals[k];
            if tok.is_reference() {
                locals.push(Some(RefID(init.len())));
                init.push((tok.is_mutable_reference(), None));
            } else {
                locals.push(None);
            }
            proof {
                assert forall|id: int| 0 <= id < init@.len() implies #[trigger] is_slot_ref(
                    locals@,
                    id,
                ) by {
                    if id < old_init_len {
                        assert(is_slot_ref(old_locals, id));
                        let w = choose|w: int|
                            0 <= w < old_locals.len() && (#[trigger] old_locals[w]) is Some
                                && slot_id(old_locals[w]) == id;
                        assert(locals@[w] == old_locals[w]);
                    } else {
                        assert(locals@[old_locals.len() as int] is Some && slot_id(
                            locals@[old_locals.len() as int],
                        ) == id);
                    }
                }
            }
            k += 1;
        }
        let borrow_set = BorrowSet::new(&init);
        let r = AbstractState { current_function: ctx.index, locals, borrow_set };
        proof {
            assert forall|j: int|
                0 <= j < r.locals@.len() && (#[trigger] r.locals@[j]) is Some implies live(
                r.borrow_set,
                slot_id(r.locals@[j]),
            ) && at(r.borrow_set, slot_id(r.locals@[j])).pinned by {
                assert(slot_id(r.locals@[j]) < init@.len());
            }
            assert forall|j: int| #[trigger] live(r.borrow_set, j) implies is_slot_ref(
                r.locals@,
                j,
            ) by {
                assert(0 <= j < init@.len());
            }
        }
        r
    }

    /// Build a diagnostic at the given code offset of this function.
    pub fn error(&self, status: StatusCode, offset: u16) -> (r: PartialVMError)
        ensures
            r == (PartialVMError { status, function: self.current_function, offset }),
    {
        PartialVMError { status, function: self.current_function, offset }
    }

    /// Whether the mutable reference `id` may be written through: no other
    /// reference properly extends it.
    pub fn is_writable(&self, id: RefID) -> (r: bool)
        requires
            st_wf(*self),
            live(self.borrow_set, id.0 as int),
            at(self.borrow_set, id.0 as int).mutable,
        ensures
            r == is_writable_spec(self.borrow_set, id.0 as int),
    {
        let conflicts = self.borrow_set.borrowed_by(id, &QueryFilter::empty());
        let r = conflicts.existential.len() == 0 && conflicts.labeled.len() == 0;
        proof {
            let s = self.borrow_set;
            let idi = id.0 as int;
            if r {
                if some_star_ext(s, idi, false) {
                    let oid = choose|oid: int|
                        live(s, oid) && oid != idi && pair_rel(
                            s,
                            idi,
                            oid,
                            Ordering::RightExtendsLeft(Extension::Star),
                        );
                    assert(in_id_locs(conflicts.existential@, oid));
                }
                if some_label_ext(s, idi, false) {
                    let (oid, lbl) = choose|oid: int, lbl: Label|
                        #![trigger pair_rel(s, idi, oid, Ordering::RightExtendsLeft(Extension::Label(lbl)))]
                        live(s, oid) && oid != idi && pair_rel(
                            s,
                            idi,
                            oid,
                            Ordering::RightExtendsLeft(Extension::Label(lbl)),
                        );
                    assert(in_labeled(conflicts.labeled@, lbl, oid));
                }
            } else {
                if conflicts.existential@.len() > 0 {
                    let oid = pair_id(conflicts.existential@[0]);
                    assert(in_id_locs(conflicts.existential@, oid));
                    assert(live(s, oid) && oid != idi);
                    assert(some_star_ext(s, idi, false));
                } else {
                    let lbl = conflicts.labeled@[0].0;
                    let oid = pair_id(conflicts.labeled@[0].1@[0]);
                    assert(conflicts.labeled@[0].1@.len() > 0);
                    assert(in_id_locs(conflicts.labeled@[0].1@, oid));
                    assert(in_labeled(conflicts.labeled@, lbl, oid));
                    assert(live(s, oid) && oid != idi);
                    assert(some_label_ext(s, idi, false));
                }
            }
        }
        r
    }

    /// Whether `id` may be read through, possibly at one particular field:
    /// immutable references always; mutable ones unless a mutable
    /// reference extends them at a wildcard or at a blocking label.
    pub fn is_readable(&self, id: RefID, at_field: Option<u16>) -> (r: bool)
        requires
            st_wf(*self),
            live(self.borrow_set, id.0 as int),
        ensures
            r == is_readable_spec(self.borrow_set, id.0 as int, at_field),
    {
        if !self.borrow_set.is_mutable(id) {
            return true;
        }
        let conflicts = self.borrow_set.borrowed_by(id, &QueryFilter::empty().is_mutable(true));
        let ghost s = self.borrow_set;
        let ghost idi = id.0 as int;
        if conflicts.existential.len() != 0 {
            proof {
                let oid = pair_id(conflicts.existential@[0]);
                assert(in_id_locs(conflicts.existential@, oid));
                assert(some_star_ext(s, idi, true));
            }
            return false;
        }
        proof {
            if some_star_ext(s, idi, true) {
                let oid = choose|oid: int|
                    live(s, oid) && oid != idi && at(s, oid).mutable && pair_rel(
                        s,
                        idi,
                        oid,
                        Ordering::RightExtendsLeft(Extension::Star),
                    );
                assert(in_id_locs(conflicts.existential@, oid));
            }
        }
        match at_field {
            None => {
                let r = conflicts.labeled.len() == 0;
                proof {
                    if r {
                        if some_label_ext(s, idi, true) {
                            let (oid, lbl) = choose|oid: int, lbl: Label|
                                #![trigger pair_rel(s, idi, oid, Ordering::RightExtendsLeft(Extension::Label(lbl)))]
                                live(s, oid) && oid != idi && at(s, oid).mutable && pair_rel(
                                    s,
                                    idi,
                                    oid,
                                    Ordering::RightExtendsLeft(Extension::Label(lbl)),
                                );
                            assert(in_labeled(conflicts.labeled@, lbl, oid));
                        }
                    } else {
                        let lbl = conflicts.labeled@[0].0;
                        let oid = pair_id(conflicts.labeled@[0].1@[0]);
                        assert(conflicts.labeled@[0].1@.len() > 0);
                        assert(in_id_locs(conflicts.labeled@[0].1@, oid));
                        assert(in_labeled(conflicts.labeled@, lbl, oid));
                        assert(some_label_ext(s, idi, true));
                    }
                }
                r
            },
            Some(f) => {
                let n = conflicts.labeled.len();
                let mut i: usize = 0;
                let mut hit = false;
                while i < n
                    invariant
                        n == conflicts.labeled@.len(),
                        0 <= i <= n,
                        conflicts.wf(),
                        hit <==> exists|w: int|
                            0 <= w < i && (#[trigger] conflicts.labeled@[w]).0 == Label::Field(f),
                    decreases n - i,
                {
                    if labeled_key_at(&conflicts.labeled, i) == (Label::Field(f)) {
                        hit = true;
                        proof {
                            assert(conflicts.labeled@[i as int].0 == Label::Field(f));
                        }
                    }
                    i += 1;
                }
                proof {
                    if hit {
                        let w = choose|w: int|
                            0 <= w < n && (#[trigger] conflicts.labeled@[w]).0 == Label::Field(f);
                        let oid = pair_id(conflicts.labeled@[w].1@[0]);
                        assert(conflicts.labeled@[w].1@.len() > 0);
                        assert(in_id_locs(conflicts.labeled@[w].1@, oid));
                        assert(in_labeled(conflicts.labeled@, Label::Field(f), oid));
                        assert(some_field_ext(s, idi, f, true));
                    } else {
                        if some_field_ext(s, idi, f, true) {
                            let oid = choose|oid: int|
                                live(s, oid) && oid != idi && at(s, oid).mutable && pair_rel(
                                    s,
                                    idi,
                                    oid,
                                    Ordering::RightExtendsLeft(Extension::Label(Label::Field(f))),
                                );
                            assert(in_labeled(conflicts.labeled@, Label::Field(f), oid));
                            let w = choose|w: int|
                                0 <= w < conflicts.labeled@.len() && conflicts.labeled@[w].0
                                    == Label::Field(f) && in_id_locs(conflicts.labeled@[w].1@, oid);
                            assert(conflicts.labeled@[w].0 == Label::Field(f));
                        }
                    }
                }
                !hit
            },
        }
    }

    /// Whether the local slot is borrowed: some live reference is rooted
    /// at it.
    pub fn is_local_borrowed(&self, idx: u16) -> (r: bool)
        requires
            st_wf(*self),
        ensures
            r == label_borrowed(self.borrow_set, Label::Local(idx)),
    {
        let refs = self.borrow_set.all_starting_with_label(Label::Local(idx));
        let r = refs.len() > 0;
        proof {
            if r {
                assert(in_id_locs(refs@, pair_id(refs@[0])));
            } else {
                if label_borrowed(self.borrow_set, Label::Local(idx)) {
                    let oid = choose|oid: int|
                        live(self.borrow_set, oid) && starts_with_label(
                            self.borrow_set,
                            oid,
                            Label::Local(idx),
                        );
                    assert(in_id_locs(refs@, oid));
                }
            }
        }
        r
    }

    /// Whether the global resource is borrowed: some live reference is
    /// rooted at it.
    pub fn is_global_borrowed(&self, resource: u16) -> (r: bool)
        requires
            st_wf(*self),
        ensures
            r == label_borrowed(self.borrow_set, Label::Global(resource)),
    {
        let refs = self.borrow_set.all_starting_with_label(Label::Global(resource));
        let r = refs.len() > 0;
        proof {
            if r {
                assert(in_id_locs(refs@, pair_id(refs@[0])));
            } else {
                if label_borrowed(self.borrow_set, Label::Global(resource)) {
                    let oid = choose|oid: int|
                        live(self.borrow_set, oid) && starts_with_label(
                            self.borrow_set,
                            oid,
                            Label::Global(resource),
                        );
                    assert(in_id_locs(refs@, oid));
                }
            }
        }
        r
    }

    /// Whether the frame may be destroyed: no live reference is still
    /// rooted at a local or at a global resource.
    pub fn is_frame_safe_to_destroy(&self) -> (r: bool)
        requires
            st_wf(*self),
        ensures
            r == !frame_rooted(self.borrow_set),
    {
        let pred = LabelPredicate { parameter: false, global: true, local: true, field: false };
        let refs = self.borrow_set.all_starting_with_predicate(&pred);
        let r = refs.len() == 0;
        proof {
            if !r {
                assert(in_id_locs(refs@, pair_id(refs@[0])));
            } else {
                if frame_rooted(self.borrow_set) {
                    let oid = choose|oid: int|
                        live(self.borrow_set, oid) && starts_with_matching(
                            self.borrow_set,
                            oid,
                            frame_pred(),
                        );
                    assert(in_id_locs(refs@, oid));
                }
            }
        }
        r
    }

    /// Whether `id` has no parents among the candidate set: no candidate
    /// holds a path that a path of `id` equals or extends.
    pub fn has_no_parents_in_set(&self, id: RefID, candidates: &Vec<RefID>) -> (r: bool)
        requires
            st_wf(*self),
            live(self.borrow_set, id.0 as int),
        ensures
            r == !some_parent_among(self.borrow_set, id.0 as int, candidates@),
    {
        let mut cands: Vec<RefID> = Vec::new();
        let n = candidates.len();
        let mut i: usize = 0;
        while i < n
            invariant
                n == candidates@.len(),
                0 <= i <= n,
                cands@ =~= candidates@.subrange(0, i as int),
            decreases n - i,
        {
            cands.push(candidates[i]);
            i += 1;
        }
        proof {
            assert(cands@ =~= candidates@);
        }
        let parents = self.borrow_set.borrows_from(id, &QueryFilter::empty().candidates(cands));
        let r = parents.is_empty();
        proof {
            let s = self.borrow_set;
            let idi = id.0 as int;
            if r {
                if some_parent_among(s, idi, candidates@) {
                    let oid = choose|oid: int|
                        #[trigger] live(s, oid) && oid != idi && in_ids(candidates@, oid) && (
                        pair_rel(s, oid, idi, Ordering::Equal) || pair_rel(
                            s,
                            oid,
                            idi,
                            Ordering::RightExtendsLeft(Extension::Star),
                        ) || exists|lbl: Label|
                            pair_rel(s, oid, idi, Ordering::RightExtendsLeft(Extension::Label(lbl))));
                    if pair_rel(s, oid, idi, Ordering::Equal) {
                        assert(in_ids(parents.equal@, oid));
                    } else if pair_rel(s, oid, idi, Ordering::RightExtendsLeft(Extension::Star)) {
                        assert(in_id_locs(parents.existential@, oid));
                    } else {
                        let lbl = choose|lbl: Label|
                            pair_rel(s, oid, idi, Ordering::RightExtendsLeft(Extension::Label(lbl)));
                        assert(in_labeled(parents.labeled@, lbl, oid));
                    }
                }
            } else {
                assert(!((forall|oid: int| !in_ids(parents.equal@, oid)) && (forall|oid: int|
                    !in_id_locs(parents.existential@, oid)) && (forall|lbl: Label, oid: int|
                    !in_labeled(parents.labeled@, lbl, oid))));
                if exists|oid: int| in_ids(parents.equal@, oid) {
                    let oid = choose|oid: int| in_ids(parents.equal@, oid);
                    assert(some_parent_among(s, idi, candidates@));
                } else if exists|oid: int| in_id_locs(parents.existential@, oid) {
                    let oid = choose|oid: int| in_id_locs(parents.existential@, oid);
                    assert(some_parent_among(s, idi, candidates@));
                } else {
                    let (lbl, oid) = choose|lbl: Label, oid: int|
                        in_labeled(parents.labeled@, lbl, oid);
                    assert(pair_rel(s, oid, idi, Ordering::RightExtendsLeft(Extension::Label(lbl))));
                    assert(some_parent_among(s, idi, candidates@));
                }
            }
        }
        r
    }

    /// Release a reference operand; a plain value needs no work.
    pub fn release_value(&mut self, value: AbstractValue)
        requires
            st_wf(*old(self)),
            value is Reference ==> live(old(self).borrow_set, av_id(value)),
        ensures
            st_wf(*final(self)),
            final(self).locals@ == old(self).locals@,
            final(self).current_function == old(self).current_function,
            value is NonReference ==> *final(self) == *old(self),
            value is Reference ==> bs_released(
                old(self).borrow_set,
                final(self).borrow_set,
                av_id(value),
            ),
    {
        match value {
            AbstractValue::Reference(id) => {
                self.borrow_set.release(id);
                proof {
                    lemma_st_wf_step(*old(self), self.borrow_set);
                }
            },
            AbstractValue::NonReference => {},
        }
    }

    /// Copy a local. A reference slot yields a fresh copy of its pinned
    /// reference — unless the slot is unbound, which is an error — and a
    /// value slot yields a plain value.
    pub fn copy_loc(&mut self, offset: u16, local: u16) -> (r: Result<
        AbstractValue,
        PartialVMError,
    >)
        requires
            st_wf(*old(self)),
            (local as int) < old(self).locals@.len(),
        ensures
            st_wf(*final(self)),
            final(self).locals@ == old(self).locals@,
            final(self).current_function == old(self).current_function,
            old(self).locals@[local as int] is None ==> r == Ok::<AbstractValue, PartialVMError>(
                AbstractValue::NonReference,
            ) && *final(self) == *old(self),
            old(self).locals@[local as int] is Some ==> {
                let id = slot_id(old(self).locals@[local as int]);
                if at(old(self).borrow_set, id).paths =~= Set::<PathModel>::empty() {
                    &&& r == Err::<AbstractValue, PartialVMError>(
                        PartialVMError {
                            status: StatusCode::CopyLocUnavailableError,
                            function: old(self).current_function,
                            offset,
                        },
                    )
                    &&& *final(self) == *old(self)
                } else {
                    &&& r == Ok::<AbstractValue, PartialVMError>(
                        AbstractValue::Reference(RefID(old(self).borrow_set.refs@.len() as usize)),
                    )
                    &&& bs_plus_ref(
                        old(self).borrow_set,
                        final(self).borrow_set,
                        RefModel {
                            mutable: at(old(self).borrow_set, id).mutable,
                            pinned: false,
                            paths: at(old(self).borrow_set, id).paths,
                        },
                    )
                }
            },
    {
        match self.locals[local as usize] {
            Some(id) => {
                if self.borrow_set.is_pinned_released(id) {
                    Err(self.error(StatusCode::CopyLocUnavailableError, offset))
                } else {
                    let mutable = self.borrow_set.is_mutable(id);
                    let new_id = self.borrow_set.make_copy(offset, id, mutable);
                    proof {
                        lemma_st_wf_step(*old(self), self.borrow_set);
                    }
                    Ok(AbstractValue::Reference(new_id))
                }
            },
            None => Ok(AbstractValue::NonReference),
        }
    }

    /// Move a local out. A bound reference slot yields a copy and the slot
    /// becomes unbound; moving an unbound reference slot is an error, as
    /// is moving a value local that is still borrowed.
    pub fn move_loc(&mut self, offset: u16, local: u16) -> (r: Result<
        AbstractValue,
        PartialVMError,
    >)
        requires
            st_wf(*old(self)),
            (local as int) < old(self).locals@.len(),
        ensures
            st_wf(*final(self)),
            final(self).locals@ == old(self).locals@,
            final(self).current_function == old(self).current_function,
            old(self).locals@[local as int] is None ==> *final(self) == *old(self) && (if
                label_borrowed(old(self).borrow_set, Label::Local(local)) {
                r == Err::<AbstractValue, PartialVMError>(
                    PartialVMError {
                        status: StatusCode::MoveLocExistsBorrowError,
                        function: old(self).current_function,
                        offset,
                    },
                )
            } else {
                r == Ok::<AbstractValue, PartialVMError>(AbstractValue::NonReference)
            }),
            old(self).locals@[local as int] is Some ==> {
                let id = slot_id(old(self).locals@[local as int]);
                if at(old(self).borrow_set, id).paths =~= Set::<PathModel>::empty() {
                    &&& r == Err::<AbstractValue, PartialVMError>(
                        PartialVMError {
                            status: StatusCode::MoveLocUnavailableError,
                            function: old(self).current_function,
                            offset,
                        },
                    )
                    &&& *final(self) == *old(self)
                } else {
                    &&& r == Ok::<AbstractValue, PartialVMError>(
                        AbstractValue::Reference(RefID(old(self).borrow_set.refs@.len() as usize)),
                    )
                    &&& bs_copied_released(
                        old(self).borrow_set,
                        final(self).borrow_set,
                        id,
                        RefModel {
                            mutable: at(old(self).borrow_set, id).mutable,
                            pinned: false,
                            paths: at(old(self).borrow_set, id).paths,
                        },
                    )
                }
            },
    {
        match self.locals[local as usize] {
            Some(id) => {
                if self.borrow_set.is_pinned_released(id) {
                    Err(self.error(StatusCode::MoveLocUnavailableError, offset))
                } else {
                    let mutable = self.borrow_set.is_mutable(id);
                    let new_id = self.borrow_set.make_copy(offset, id, mutable);
                    self.borrow_set.release(id);
                    proof {
                        lemma_st_wf_step(*old(self), self.borrow_set);
                    }
                    Ok(AbstractValue::Reference(new_id))
                }
            },
            None => {
                if self.is_local_borrowed(local) {
                    Err(self.error(StatusCode::MoveLocExistsBorrowError, offset))
                } else {
                    Ok(AbstractValue::NonReference)
                }
            },
        }
    }

    /// Store a value into a local. A reference stored into a reference
    /// slot rebinds the slot's pinned reference; storing a plain value
    /// over a borrowed value local is an error. Kind mismatches are left
    /// to the typing pass and succeed here.
    pub fn st_loc(&mut self, offset: u16, local: u16, new_value: AbstractValue) -> (r: Result<
        (),
        PartialVMError,
    >)
        requires
            st_wf(*old(self)),
            (local as int) < old(self).locals@.len(),
            new_value is Reference ==> live(old(self).borrow_set, av_id(new_value)),
        ensures
            st_wf(*final(self)),
            final(self).locals@ == old(self).locals@,
            final(self).current_function == old(self).current_function,
            old(self).locals@[local as int] is None && new_value is NonReference ==> *final(self)
                == *old(self) && (if label_borrowed(old(self).borrow_set, Label::Local(local)) {
                r == Err::<(), PartialVMError>(
                    PartialVMError {
                        status: StatusCode::StLocUnsafeToDestroyError,
                        function: old(self).current_function,
                        offset,
                    },
                )
            } else {
                r == Ok::<(), PartialVMError>(())
            }),
            (old(self).locals@[local as int] is Some && new_value is NonReference) || (old(
                self,
            ).locals@[local as int] is None && new_value is Reference) ==> r == Ok::<
                (),
                PartialVMError,
            >(()) && *final(self) == *old(self),
            old(self).locals@[local as int] is Some && new_value is Reference ==> {
                let pin = slot_id(old(self).locals@[local as int]);
                let other = av_id(new_value);
                &&& r == Ok::<(), PartialVMError>(())
                &&& (pin == other ==> *final(self) == *old(self))
                &&& (pin != other ==> {
                    &&& at(final(self).borrow_set, pin) == (RefModel {
                        paths: at(old(self).borrow_set, other).paths,
                        ..at(old(self).borrow_set, pin)
                    })
                    &&& (at(old(self).borrow_set, other).pinned ==> live(
                        final(self).borrow_set,
                        other,
                    ) && at(final(self).borrow_set, other) == (RefModel {
                        paths: Set::<PathModel>::empty(),
                        ..at(old(self).borrow_set, other)
                    }))
                    &&& (!at(old(self).borrow_set, other).pinned ==> !live(
                        final(self).borrow_set,
                        other,
                    ))
                    &&& (forall|j: int|
                        #[trigger] live(old(self).borrow_set, j) && j != pin && j != other
                            ==> live(final(self).borrow_set, j) && at(final(self).borrow_set, j)
                            == at(old(self).borrow_set, j))
                    &&& (forall|j: int|
                        #[trigger] live(final(self).borrow_set, j) ==> live(
                            old(self).borrow_set,
                            j,
                        ))
                })
            },
    {
        match (self.locals[local as usize], new_value) {
            (Some(_), AbstractValue::NonReference) => Ok(()),
            (None, AbstractValue::Reference(_)) => Ok(()),
            (None, AbstractValue::NonReference) => {
                if self.is_local_borrowed(local) {
                    Err(self.error(StatusCode::StLocUnsafeToDestroyError, offset))
                } else {
                    Ok(())
                }
            },
            (Some(pinned_id), AbstractValue::Reference(new_id)) => {
                self.borrow_set.move_into_pinned(offset, pinned_id, new_id);
                proof {
                    lemma_st_wf_step(*old(self), self.borrow_set);
                }
                Ok(())
            },
        }
    }

    /// Freeze a reference: a fresh immutable copy replaces it, and the
    /// operand itself is released.
    pub fn freeze_ref(&mut self, offset: u16, id: RefID) -> (r: Result<
        AbstractValue,
        PartialVMError,
    >)
        requires
            st_wf(*old(self)),
            live(old(self).borrow_set, id.0 as int),
        ensures
            st_wf(*final(self)),
            final(self).locals@ == old(self).locals@,
            final(self).current_function == old(self).current_function,
            r == Ok::<AbstractValue, PartialVMError>(
                AbstractValue::Reference(RefID(old(self).borrow_set.refs@.len() as usize)),
            ),
            bs_copied_released(
                old(self).borrow_set,
                final(self).borrow_set,
                id.0 as int,
                RefModel {
                    mutable: false,
                    pinned: false,
                    paths: at(old(self).borrow_set, id.0 as int).paths,
                },
            ),
    {
        let frozen_id = self.borrow_set.make_copy(offset, id, false);
        self.borrow_set.release(id);
        proof {
            lemma_st_wf_step(*old(self), self.borrow_set);
        }
        Ok(AbstractValue::Reference(frozen_id))
    }

    /// Read through a reference: an error when a mutable extension is
    /// live; otherwise the reference is released and a value produced.
    pub fn read_ref(&mut self, offset: u16, id: RefID) -> (r: Result<
        AbstractValue,
        PartialVMError,
    >)
        requires
            st_wf(*old(self)),
            live(old(self).borrow_set, id.0 as int),
        ensures
            st_wf(*final(self)),
            final(self).locals@ == old(self).locals@,
            final(self).current_function == old(self).current_function,
            if is_readable_spec(old(self).borrow_set, id.0 as int, None) {
                &&& r == Ok::<AbstractValue, PartialVMError>(AbstractValue::NonReference)
                &&& bs_released(old(self).borrow_set, final(self).borrow_set, id.0 as int)
            } else {
                &&& r == Err::<AbstractValue, PartialVMError>(
                    PartialVMError {
                        status: StatusCode::ReadRefExistsMutableBorrowError,
                        function: old(self).current_function,
                        offset,
                    },
                )
                &&& *final(self) == *old(self)
            },
    {
        if !self.is_readable(id, None) {
            return Err(self.error(StatusCode::ReadRefExistsMutableBorrowError, offset));
        }
        self.borrow_set.release(id);
        proof {
            lemma_st_wf_step(*old(self), self.borrow_set);
        }
        Ok(AbstractValue::NonReference)
    }

    /// Compare two operands of the same kind: reference operands are
    /// released, and a boolean value is produced.
    pub fn comparison(&mut self, offset: u16, v1: AbstractValue, v2: AbstractValue) -> (r: Result<
        AbstractValue,
        PartialVMError,
    >)
        requires
            st_wf(*old(self)),
            v1 is Reference <==> v2 is Reference,
            v1 is Reference ==> live(old(self).borrow_set, av_id(v1)),
            v2 is Reference ==> live(old(self).borrow_set, av_id(v2)),
        ensures
            st_wf(*final(self)),
            final(self).locals@ == old(self).locals@,
            final(self).current_function == old(self).current_function,
            r == Ok::<AbstractValue, PartialVMError>(AbstractValue::NonReference),
            v1 is NonReference ==> *final(self) == *old(self),
            v1 is Reference ==> bs_released2(
                old(self).borrow_set,
                final(self).borrow_set,
                av_id(v1),
                av_id(v2),
            ),
    {
        match (v1, v2) {
            (AbstractValue::Reference(id1), AbstractValue::Reference(id2)) => {
                self.borrow_set.release(id1);
                if self.borrow_set.is_live(id2) {
                    self.borrow_set.release(id2);
                }
                proof {
                    lemma_st_wf_step(*old(self), self.borrow_set);
                }
            },
            _ => {},
        }
        Ok(AbstractValue::NonReference)
    }

    /// Write through a reference: an error when any extension is live;
    /// otherwise the reference is released.
    pub fn write_ref(&mut self, offset: u16, id: RefID) -> (r: Result<(), PartialVMError>)
        requires
            st_wf(*old(self)),
            live(old(self).borrow_set, id.0 as int),
            at(old(self).borrow_set, id.0 as int).mutable,
        ensures
            st_wf(*final(self)),
            final(self).locals@ == old(self).locals@,
            final(self).current_function == old(self).current_function,
            if is_writable_spec(old(self).borrow_set, id.0 as int) {
                &&& r == Ok::<(), PartialVMError>(())
                &&& bs_released(old(self).borrow_set, final(self).borrow_set, id.0 as int)
            } else {
                &&& r == Err::<(), PartialVMError>(
                    PartialVMError {
                        status: StatusCode::WriteRefExistsBorrowError,
                        function: old(self).current_function,
                        offset,
                    },
                )
                &&& *final(self) == *old(self)
            },
    {
        if !self.is_writable(id) {
            return Err(self.error(StatusCode::WriteRefExistsBorrowError, offset));
        }
        self.borrow_set.release(id);
        proof {
            lemma_st_wf_step(*old(self), self.borrow_set);
        }
        Ok(())
    }

    /// Borrow a local directly: a fresh reference rooted at the local.
    pub fn borrow_loc(&mut self, offset: u16, mut_: bool, local: u16) -> (r: Result<
        AbstractValue,
        PartialVMError,
    >)
        requires
            st_wf(*old(self)),
        ensures
            st_wf(*final(self)),
            final(self).locals@ == old(self).locals@,
            final(self).current_function == old(self).current_function,
            r == Ok::<AbstractValue, PartialVMError>(
                AbstractValue::Reference(RefID(old(self).borrow_set.refs@.len() as usize)),
            ),
            bs_plus_ref(
                old(self).borrow_set,
                final(self).borrow_set,
                RefModel {
                    mutable: mut_,
                    pinned: false,
                    paths: ext_paths(
                        old(self).borrow_set,
                        Seq::<RefID>::empty(),
                        Offset::Label(Label::Local(local)),
                    ),
                },
            ),
    {
        let sources: Vec<RefID> = Vec::new();
        let new_id = self.borrow_set.extend_by_label(&sources, offset, mut_, Label::Local(local));
        proof {
            lemma_st_wf_step(*old(self), self.borrow_set);
        }
        Ok(AbstractValue::Reference(new_id))
    }

    /// Borrow a field through a reference: a fresh reference one field
    /// deeper; the operand is released.
    pub fn borrow_field(&mut self, offset: u16, mut_: bool, id: RefID, field: u16) -> (r: Result<
        AbstractValue,
        PartialVMError,
    >)
        requires
            st_wf(*old(self)),
            live(old(self).borrow_set, id.0 as int),
        ensures
            st_wf(*final(self)),
            final(self).locals@ == old(self).locals@,
            final(self).current_function == old(self).current_function,
            r == Ok::<AbstractValue, PartialVMError>(
                AbstractValue::Reference(RefID(old(self).borrow_set.refs@.len() as usize)),
            ),
            bs_copied_released(
                old(self).borrow_set,
                final(self).borrow_set,
                id.0 as int,
                RefModel {
                    mutable: mut_,
                    pinned: false,
                    paths: ext_paths(
                        old(self).borrow_set,
                        Seq::<RefID>::empty().push(id),
                        Offset::Label(Label::Field(field)),
                    ),
                },
            ),
    {
        let mut sources: Vec<RefID> = Vec::new();
        sources.push(id);
        proof {
            assert(sources@ =~= Seq::<RefID>::empty().push(id));
        }
        let new_id = self.borrow_set.extend_by_label(&sources, offset, mut_, Label::Field(field));
        self.borrow_set.release(id);
        proof {
            lemma_st_wf_step(*old(self), self.borrow_set);
        }
        Ok(AbstractValue::Reference(new_id))
    }

    /// Borrow an unknown vector element through a reference: a fresh
    /// reference extended at a wildcard tagged with this instruction; the
    /// operand is released.
    pub fn vector_element_borrow(&mut self, offset: u16, mut_: bool, id: RefID) -> (r: Result<
        AbstractValue,
        PartialVMError,
    >)
        requires
            st_wf(*old(self)),
            live(old(self).borrow_set, id.0 as int),
        ensures
            st_wf(*final(self)),
            final(self).locals@ == old(self).locals@,
            final(self).current_function == old(self).current_function,
            r == Ok::<AbstractValue, PartialVMError>(
                AbstractValue::Reference(RefID(old(self).borrow_set.refs@.len() as usize)),
            ),
            bs_copied_released(
                old(self).borrow_set,
                final(self).borrow_set,
                id.0 as int,
                RefModel {
                    mutable: mut_,
                    pinned: false,
                    paths: ext_paths(
                        old(self).borrow_set,
                        Seq::<RefID>::empty().push(id),
                        Offset::Star(offset, 0),
                    ),
                },
            ),
    {
        let mut sources: Vec<RefID> = Vec::new();
        sources.push(id);
        proof {
            assert(sources@ =~= Seq::<RefID>::empty().push(id));
        }
        let new_id = self.borrow_set.extend_by_unknown(&sources, offset, mut_, offset, 0);
        self.borrow_set.release(id);
        proof {
            lemma_st_wf_step(*old(self), self.borrow_set);
        }
        Ok(AbstractValue::Reference(new_id))
    }

    /// Borrow a global resource: a fresh reference rooted at it.
    pub fn borrow_global(&mut self, offset: u16, mut_: bool, resource: u16) -> (r: Result<
        AbstractValue,
        PartialVMError,
    >)
        requires
            st_wf(*old(self)),
        ensures
            st_wf(*final(self)),
            final(self).locals@ == old(self).locals@,
            final(self).current_function == old(self).current_function,
            r == Ok::<AbstractValue, PartialVMError>(
                AbstractValue::Reference(RefID(old(self).borrow_set.refs@.len() as usize)),
            ),
            bs_plus_ref(
                old(self).borrow_set,
                final(self).borrow_set,
                RefModel {
                    mutable: mut_,
                    pinned: false,
                    paths: ext_paths(
                        old(self).borrow_set,
                        Seq::<RefID>::empty(),
                        Offset::Label(Label::Global(resource)),
                    ),
                },
            ),
    {
        let sources: Vec<RefID> = Vec::new();
        let new_id = self.borrow_set.extend_by_label(
            &sources,
            offset,
            mut_,
            Label::Global(resource),
        );
        proof {
            lemma_st_wf_step(*old(self), self.borrow_set);
        }
        Ok(AbstractValue::Reference(new_id))
    }

    /// Move a resource out of global storage: an error exactly when the
    /// resource is still borrowed.
    pub fn move_from(&mut self, offset: u16, resource: u16) -> (r: Result<
        AbstractValue,
        PartialVMError,
    >)
        requires
            st_wf(*old(self)),
        ensures
            st_wf(*final(self)),
            *final(self) == *old(self),
            if label_borrowed(old(self).borrow_set, Label::Global(resource)) {
                r == Err::<AbstractValue, PartialVMError>(
                    PartialVMError {
                        status: StatusCode::GlobalReferenceError,
                        function: old(self).current_function,
                        offset,
                    },
                )
            } else {
                r == Ok::<AbstractValue, PartialVMError>(AbstractValue::NonReference)
            },
    {
        if self.is_global_borrowed(resource) {
            Err(self.error(StatusCode::GlobalReferenceError, offset))
        } else {
            Ok(AbstractValue::NonReference)
        }
    }

    /// Mutate a vector in place through a reference: an error when any
    /// extension is live; otherwise the reference is released.
    pub fn vector_mut_op(&mut self, offset: u16, id: RefID) -> (r: Result<(), PartialVMError>)
        requires
            st_wf(*old(self)),
            live(old(self).borrow_set, id.0 as int),
            at(old(self).borrow_set, id.0 as int).mutable,
        ensures
            st_wf(*final(self)),
            final(self).locals@ == old(self).locals@,
            final(self).current_function == old(self).current_function,
            if is_writable_spec(old(self).borrow_set, id.0 as int) {
                &&& r == Ok::<(), PartialVMError>(())
                &&& bs_released(old(self).borrow_set, final(self).borrow_set, id.0 as int)
            } else {
                &&& r == Err::<(), PartialVMError>(
                    PartialVMError {
                        status: StatusCode::VecUpdateExistsMutableBorrowError,
                        function: old(self).current_function,
                        offset,
                    },
                )
                &&& *final(self) == *old(self)
            },
    {
        if !self.is_writable(id) {
            return Err(self.error(StatusCode::VecUpdateExistsMutableBorrowError, offset));
        }
        self.borrow_set.release(id);
        proof {
            lemma_st_wf_step(*old(self), self.borrow_set);
        }
        Ok(())
    }

    /// Transfer control to a callee. An acquired resource that is still
    /// borrowed is an error; so is a mutable reference argument with an
    /// extension or with a parent among the arguments. On success each
    /// returned reference is tracked as an unknown extension of the
    /// arguments, and every argument reference is released.
    pub fn call(
        &mut self,
        offset: u16,
        arguments: &Vec<AbstractValue>,
        acquired_resources: &Vec<u16>,
        return_: &Vec<SignatureToken>,
    ) -> (r: Result<Vec<AbstractValue>, PartialVMError>)
        requires
            st_wf(*old(self)),
            forall|k: int|
                0 <= k < arguments@.len() && (#[trigger] arguments@[k]) is Reference ==> live(
                    old(self).borrow_set,
                    av_id(arguments@[k]),
                ),
        ensures
            st_wf(*final(self)),
            final(self).locals@ == old(self).locals@,
            final(self).current_function == old(self).current_function,
            if some_acquired_borrowed(old(self).borrow_set, acquired_resources@) {
                &&& r == Err::<Vec<AbstractValue>, PartialVMError>(
                    PartialVMError {
                        status: StatusCode::GlobalReferenceError,
                        function: old(self).current_function,
                        offset,
                    },
                )
                &&& *final(self) == *old(self)
            } else if !call_args_ok(old(self).borrow_set, arguments@) {
                &&& r == Err::<Vec<AbstractValue>, PartialVMError>(
                    PartialVMError {
                        status: StatusCode::CallBorrowedMutableReferenceError,
                        function: old(self).current_function,
                        offset,
                    },
                )
                &&& *final(self) == *old(self)
            } else {
                &&& r is Ok
                &&& r->Ok_0@.len() == return_@.len()
                &&& (forall|k: int|
                    0 <= k < return_@.len() ==> ((#[trigger] r->Ok_0@[k]) is Reference <==> (
                    return_@[k] is Reference || return_@[k] is MutableReference)))
                &&& (forall|k: int|
                    0 <= k < return_@.len() && (#[trigger] r->Ok_0@[k]) is Reference ==> live(
                        final(self).borrow_set,
                        av_id(r->Ok_0@[k]),
                    ) && av_id(r->Ok_0@[k]) >= old(self).borrow_set.refs@.len() && at(
                        final(self).borrow_set,
                        av_id(r->Ok_0@[k]),
                    ) == (RefModel {
                        mutable: return_@[k] is MutableReference,
                        pinned: false,
                        paths: call_ret_paths(
                            old(self).borrow_set,
                            arguments@,
                            return_@[k] is MutableReference,
                            offset,
                            k as u16,
                        ),
                    }))
                &&& (forall|k1: int, k2: int|
                    0 <= k1 < k2 < return_@.len() && (#[trigger] r->Ok_0@[k1]) is Reference && (
                    #[trigger] r->Ok_0@[k2]) is Reference ==> av_id(r->Ok_0@[k1]) != av_id(
                        r->Ok_0@[k2],
                    ))
                &&& (forall|id: int|
                    #[trigger] is_arg_ref(arguments@, id) && live(old(self).borrow_set, id) ==> (if
                        at(old(self).borrow_set, id).pinned {
                        live(final(self).borrow_set, id) && at(final(self).borrow_set, id)
                            == (RefModel {
                            paths: Set::<PathModel>::empty(),
                            ..at(old(self).borrow_set, id)
                        })
                    } else {
                        !live(final(self).borrow_set, id)
                    }))
                &&& (forall|j: int|
                    #[trigger] live(old(self).borrow_set, j) && !is_arg_ref(arguments@, j)
                        ==> live(final(self).borrow_set, j) && at(final(self).borrow_set, j) == at(
                        old(self).borrow_set,
                        j,
                    ))
            },
    {
        let na = acquired_resources.len();
        let mut ai: usize = 0;
        while ai < na
            invariant
                na == acquired_resources@.len(),
                0 <= ai <= na,
                st_wf(*self),
                *self == *old(self),
                forall|k: int|
                    0 <= k < ai ==> !label_borrowed(
                        self.borrow_set,
                        Label::Global(#[trigger] acquired_resources@[k]),
                    ),
            decreases na - ai,
        {
            if self.is_global_borrowed(acquired_resources[ai]) {
                proof {
                    assert(label_borrowed(
                        self.borrow_set,
                        Label::Global(acquired_resources@[ai as int]),
                    ));
                    assert(some_acquired_borrowed(self.borrow_set, acquired_resources@));
                }
                return Err(self.error(StatusCode::GlobalReferenceError, offset));
            }
            ai += 1;
        }
        proof {
            assert(!some_acquired_borrowed(self.borrow_set, acquired_resources@));
        }
        // Gather the distinct reference arguments.
        let mut all_refs: Vec<RefID> = Vec::new();
        let nargs = arguments.len();
        let mut k: usize = 0;
        while k < nargs
            invariant
                nargs == arguments@.len(),
                0 <= k <= nargs,
                st_wf(*self),
                *self == *old(self),
                forall|w: int|
                    0 <= w < arguments@.len() && (#[trigger] arguments@[w]) is Reference ==> live(
                        old(self).borrow_set,
                        av_id(arguments@[w]),
                    ),
                forall|w1: int, w2: int|
                    0 <= w1 < w2 < all_refs@.len() ==> (#[trigger] all_refs@[w1]).0 != (
                    #[trigger] all_refs@[w2]).0,
                forall|id: int|
                    #[trigger] in_ids(all_refs@, id) <==> exists|w: int|
                        0 <= w < k && (#[trigger] arguments@[w]) is Reference && av_id(
                            arguments@[w],
                        ) == id,
                forall|w: int|
                    0 <= w < all_refs@.len() ==> live(
                        self.borrow_set,
                        (#[trigger] all_refs@[w]).0 as int,
                    ),
            decreases nargs - k,
        {
            match arguments[k] {
                AbstractValue::Reference(id) => {
                    if !contains_id_local(&all_refs, id.0) {
                        let ghost old_a = all_refs@;
                        all_refs.push(id);
                        proof {
                            assert(arguments@[k as int] == AbstractValue::Reference(id));
                            assert(live(old(self).borrow_set, av_id(arguments@[k as int])));
                            assert(live(self.borrow_set, id.0 as int));
                            assert forall|id2: int| #[trigger] in_ids(all_refs@, id2) implies (
                            exists|w: int|
                                0 <= w < k + 1 && (#[trigger] arguments@[w]) is Reference
                                    && av_id(arguments@[w]) == id2) by {
                                let wi = choose|wi: int|
                                    0 <= wi < all_refs@.len() && all_refs@[wi].0 == id2;
                                if wi < old_a.len() {
                                    assert(in_ids(old_a, id2));
                                } else {
                                    assert(all_refs@[wi] == id);
                                    assert(arguments@[k as int] is Reference && av_id(
                                        arguments@[k as int],
                                    ) == id2);
                                }
                            }
                            assert forall|id2: int|
                                (exists|w: int|
                                    0 <= w < k + 1 && (#[trigger] arguments@[w]) is Reference
                                        && av_id(arguments@[w]) == id2) implies #[trigger] in_ids(
                                all_refs@,
                                id2,
                            ) by {
                                let w = choose|w: int|
                                    0 <= w < k + 1 && (#[trigger] arguments@[w]) is Reference
                                        && av_id(arguments@[w]) == id2;
                                if w < k {
                                    assert(in_ids(old_a, id2));
                                    let wi = choose|wi: int|
                                        0 <= wi < old_a.len() && old_a[wi].0 == id2;
                                    assert(all_refs@[wi].0 == id2);
                                } else {
                                    assert(arguments@[w] == AbstractValue::Reference(id));
                                    assert(all_refs@[all_refs@.len() - 1].0 == id2);
                                }
                            }
                        }
                    } else {
                        proof {
                            assert forall|id2: int| #[trigger] in_ids(all_refs@, id2) implies (
                            exists|w: int|
                                0 <= w < k + 1 && (#[trigger] arguments@[w]) is Reference
                                    && av_id(arguments@[w]) == id2) by {}
                            assert forall|id2: int|
                                (exists|w: int|
                                    0 <= w < k + 1 && (#[trigger] arguments@[w]) is Reference
                                        && av_id(arguments@[w]) == id2) implies #[trigger] in_ids(
                                all_refs@,
                                id2,
                            ) by {
                                let w = choose|w: int|
                                    0 <= w < k + 1 && (#[trigger] arguments@[w]) is Reference
                                        && av_id(arguments@[w]) == id2;
                                if w == k as int {
                                    assert(arguments@[k as int] is Reference && av_id(
                                        arguments@[k as int],
                                    ) == id2);
                                    assert(id2 == id.0 as int);
                                    assert(in_ids(all_refs@, id2));
                                }
                            }
                        }
                    }
                },
                AbstractValue::NonReference => {},
            }
            k += 1;
        }
        proof {
            assert forall|id: int| #[trigger] in_ids(all_refs@, id) <==> is_arg_ref(
                arguments@,
                id,
            ) by {}
        }
        // Check that every mutable argument can be transferred.
        let nr = all_refs.len();
        let mut w: usize = 0;
        while w < nr
            invariant
                nr == all_refs@.len(),
                0 <= w <= nr,
                st_wf(*self),
                *self == *old(self),
                forall|w1: int, w2: int|
                    0 <= w1 < w2 < all_refs@.len() ==> (#[trigger] all_refs@[w1]).0 != (
                    #[trigger] all_refs@[w2]).0,
                forall|id: int| #[trigger] in_ids(all_refs@, id) <==> is_arg_ref(arguments@, id),
                !some_acquired_borrowed(old(self).borrow_set, acquired_resources@),
                forall|wi: int|
                    0 <= wi < all_refs@.len() ==> live(
                        self.borrow_set,
                        (#[trigger] all_refs@[wi]).0 as int,
                    ),
                forall|wi: int|
                    0 <= wi < w && at(self.borrow_set, (#[trigger] all_refs@[wi]).0 as int).mutable
                        ==> is_writable_spec(self.borrow_set, all_refs@[wi].0 as int)
                        && !some_parent_among(self.borrow_set, all_refs@[wi].0 as int, all_refs@),
            decreases nr - w,
        {
            let id = all_refs[w];
            if self.borrow_set.is_mutable(id) {
                let ok = self.is_writable(id) && self.has_no_parents_in_set(id, &all_refs);
                if !ok {
                    proof {
                        let idi = id.0 as int;
                        assert(in_ids(all_refs@, idi)) by {
                            assert(all_refs@[w as int].0 == idi);
                        }
                        assert(is_arg_ref(arguments@, idi));
                        if !is_writable_spec(self.borrow_set, idi) {
                            assert(!call_args_ok(self.borrow_set, arguments@));
                        } else {
                            assert(some_parent_among(self.borrow_set, idi, all_refs@));
                            let oid = choose|oid: int|
                                #[trigger] live(self.borrow_set, oid) && oid != idi && in_ids(
                                    all_refs@,
                                    oid,
                                ) && (pair_rel(self.borrow_set, oid, idi, Ordering::Equal)
                                    || pair_rel(
                                    self.borrow_set,
                                    oid,
                                    idi,
                                    Ordering::RightExtendsLeft(Extension::Star),
                                ) || exists|lbl: Label|
                                    pair_rel(
                                        self.borrow_set,
                                        oid,
                                        idi,
                                        Ordering::RightExtendsLeft(Extension::Label(lbl)),
                                    ));
                            assert(some_parent_among_args(self.borrow_set, idi, arguments@));
                            assert(!call_args_ok(self.borrow_set, arguments@));
                        }
                    }
                    return Err(self.error(StatusCode::CallBorrowedMutableReferenceError, offset));
                }
            }
            w += 1;
        }
        proof {
            assert forall|id: int|
                #[trigger] is_arg_ref(arguments@, id) && live(self.borrow_set, id) && at(
                    self.borrow_set,
                    id,
                ).mutable implies is_writable_spec(self.borrow_set, id) && !some_parent_among_args(
                self.borrow_set,
                id,
                arguments@,
            ) by {
                let kk = choose|kk: int|
                    0 <= kk < arguments@.len() && (#[trigger] arguments@[kk]) is Reference
                        && av_id(arguments@[kk]) == id;
                assert(in_ids(all_refs@, id));
                let wi = choose|wi: int| 0 <= wi < all_refs@.len() && all_refs@[wi].0 == id;
                assert(is_writable_spec(self.borrow_set, id));
                assert(!some_parent_among(self.borrow_set, id, all_refs@));
                if some_parent_among_args(self.borrow_set, id, arguments@) {
                    let oid = choose|oid: int|
                        #[trigger] live(self.borrow_set, oid) && oid != id && is_arg_ref(
                            arguments@,
                            oid,
                        ) && (pair_rel(self.borrow_set, oid, id, Ordering::Equal) || pair_rel(
                            self.borrow_set,
                            oid,
                            id,
                            Ordering::RightExtendsLeft(Extension::Star),
                        ) || exists|lbl: Label|
                            pair_rel(
                                self.borrow_set,
                                oid,
                                id,
                                Ordering::RightExtendsLeft(Extension::Label(lbl)),
                            ));
                    assert(in_ids(all_refs@, oid));
                    assert(some_parent_among(self.borrow_set, id, all_refs@));
                }
            }
            assert(call_args_ok(self.borrow_set, arguments@));
        }
        // Gather the mutable arguments that return values may extend.
        let mut mut_refs: Vec<RefID> = Vec::new();
        let mut w2: usize = 0;
        while w2 < nr
            invariant
                nr == all_refs@.len(),
                0 <= w2 <= nr,
                st_wf(*self),
                *self == *old(self),
                forall|wi: int|
                    0 <= wi < all_refs@.len() ==> live(
                        self.borrow_set,
                        (#[trigger] all_refs@[wi]).0 as int,
                    ),
                forall|wi: int|
                    0 <= wi < mut_refs@.len() ==> live(
                        self.borrow_set,
                        (#[trigger] mut_refs@[wi]).0 as int,
                    ),
                forall|id: int|
                    #[trigger] in_ids(mut_refs@, id) <==> (exists|wi: int|
                        0 <= wi < w2 && (#[trigger] all_refs@[wi]).0 == id) && at(
                        self.borrow_set,
                        id,
                    ).mutable,
            decreases nr - w2,
        {
            let id = all_refs[w2];
            let ghost old_m = mut_refs@;
            if self.borrow_set.is_mutable(id) {
                mut_refs.push(id);
                proof {
                    crate::set::lemma_in_ids_push(old_m, id);
                }
            }
            proof {
                assert forall|id2: int| #[trigger] in_ids(mut_refs@, id2) implies (exists|wi: int|
                    0 <= wi < w2 + 1 && (#[trigger] all_refs@[wi]).0 == id2) && at(
                    self.borrow_set,
                    id2,
                ).mutable by {
                    if in_ids(old_m, id2) {
                        let wi = choose|wi: int|
                            0 <= wi < w2 && (#[trigger] all_refs@[wi]).0 == id2;
                        assert(0 <= wi < w2 + 1 && all_refs@[wi].0 == id2);
                    } else {
                        assert(id2 == id.0 as int);
                        assert(all_refs@[w2 as int].0 == id2);
                    }
                }
                assert forall|id2: int|
                    (exists|wi: int| 0 <= wi < w2 + 1 && (#[trigger] all_refs@[wi]).0 == id2)
                        && at(self.borrow_set, id2).mutable implies #[trigger] in_ids(
                    mut_refs@,
                    id2,
                ) by {
                    let wi = choose|wi: int|
                        0 <= wi < w2 + 1 && (#[trigger] all_refs@[wi]).0 == id2;
                    if wi < w2 {
                        assert(in_ids(old_m, id2));
                        if at(self.borrow_set, id2).mutable {
                            let v = choose|v: int| 0 <= v < old_m.len() && old_m[v].0 == id2;
                            assert(mut_refs@[v].0 == id2);
                        }
                    } else {
                        assert(id2 == id.0 as int);
                    }
                }
            }
            w2 += 1;
        }
        proof {
            assert forall|id: int| #[trigger] in_ids(all_refs@, id) <==> call_arg_qualifies(
                old(self).borrow_set,
                arguments@,
                false,
                id,
            ) by {}
            assert forall|id: int| #[trigger] in_ids(mut_refs@, id) <==> call_arg_qualifies(
                old(self).borrow_set,
                arguments@,
                true,
                id,
            ) by {
                if in_ids(mut_refs@, id) {
                    let wi = choose|wi: int| 0 <= wi < nr && (#[trigger] all_refs@[wi]).0 == id;
                    assert(in_ids(all_refs@, id));
                }
                if call_arg_qualifies(old(self).borrow_set, arguments@, true, id) {
                    assert(in_ids(all_refs@, id));
                    let wi = choose|wi: int|
                        0 <= wi < all_refs@.len() && (#[trigger] all_refs@[wi]).0 == id;
                    assert(0 <= wi < nr && all_refs@[wi].0 == id);
                }
            }
        }
        // Create the return values.
        let ghost old_len = self.borrow_set.refs@.len() as int;
        let mut return_values: Vec<AbstractValue> = Vec::new();
        let nret = return_.len();
        let mut s: usize = 0;
        while s < nret
            invariant
                nret == return_@.len(),
                0 <= s <= nret,
                st_wf(*self),
                self.locals@ == old(self).locals@,
                self.current_function == old(self).current_function,
                old_len <= self.borrow_set.refs@.len(),
                forall|j: int|
                    #[trigger] live(old(self).borrow_set, j) ==> live(self.borrow_set, j) && at(
                        self.borrow_set,
                        j,
                    ) == at(old(self).borrow_set, j),
                forall|j: int|
                    #[trigger] live(self.borrow_set, j) && j < old_len ==> live(
                        old(self).borrow_set,
                        j,
                    ),
                old(self).borrow_set.refs@.len() == old_len,
                forall|wi: int|
                    0 <= wi < all_refs@.len() ==> live(
                        self.borrow_set,
                        (#[trigger] all_refs@[wi]).0 as int,
                    ) && (all_refs@[wi]).0 < old_len,
                forall|wi: int|
                    0 <= wi < mut_refs@.len() ==> live(
                        self.borrow_set,
                        (#[trigger] mut_refs@[wi]).0 as int,
                    ),
                return_values@.len() == s,
                forall|kk: int|
                    0 <= kk < s ==> ((#[trigger] return_values@[kk]) is Reference <==> (
                    return_@[kk] is Reference || return_@[kk] is MutableReference)),
                forall|kk: int|
                    0 <= kk < s && (#[trigger] return_values@[kk]) is Reference ==> live(
                        self.borrow_set,
                        av_id(return_values@[kk]),
                    ) && !at(self.borrow_set, av_id(return_values@[kk])).pinned && av_id(
                        return_values@[kk],
                    ) >= old_len && av_id(return_values@[kk]) < self.borrow_set.refs@.len(),
                forall|k1: int, k2: int|
                    0 <= k1 < k2 < s && (#[trigger] return_values@[k1]) is Reference && (
                    #[trigger] return_values@[k2]) is Reference ==> av_id(return_values@[k1])
                        != av_id(return_values@[k2]),
                forall|id: int|
                    #[trigger] in_ids(all_refs@, id) <==> call_arg_qualifies(
                        old(self).borrow_set,
                        arguments@,
                        false,
                        id,
                    ),
                forall|id: int|
                    #[trigger] in_ids(mut_refs@, id) <==> call_arg_qualifies(
                        old(self).borrow_set,
                        arguments@,
                        true,
                        id,
                    ),
                forall|kk: int|
                    0 <= kk < s && (#[trigger] return_values@[kk]) is Reference ==> at(
                        self.borrow_set,
                        av_id(return_values@[kk]),
                    ) == (RefModel {
                        mutable: return_@[kk] is MutableReference,
                        pinned: false,
                        paths: call_ret_paths(
                            old(self).borrow_set,
                            arguments@,
                            return_@[kk] is MutableReference,
                            offset,
                            kk as u16,
                        ),
                    }),
            decreases nret - s,
        {
            let tok = return_[s];
            let ghost pre_bs = self.borrow_set;
            match tok {
                SignatureToken::MutableReference => {
                    let id = self.borrow_set.extend_by_unknown(
                        &mut_refs,
                        offset,
                        true,
                        offset,
                        s as u16,
                    );
                    proof {
                        assert forall|k: int|
                            0 <= k < mut_refs@.len() implies at(
                            pre_bs,
                            (#[trigger] mut_refs@[k]).0 as int,
                        ) == at(old(self).borrow_set, mut_refs@[k].0 as int) by {
                            assert(in_ids(mut_refs@, mut_refs@[k].0 as int)) by {
                                assert(mut_refs@[k].0 == mut_refs@[k].0);
                            }
                            assert(live(old(self).borrow_set, mut_refs@[k].0 as int));
                        }
                        lemma_ext_paths_congruence(
                            pre_bs,
                            old(self).borrow_set,
                            mut_refs@,
                            Offset::Star(offset, s as u16),
                        );
                        lemma_ret_paths_bridge(
                            old(self).borrow_set,
                            arguments@,
                            mut_refs@,
                            true,
                            offset,
                            s as u16,
                        );
                    }
                    return_values.push(AbstractValue::Reference(id));
                },
                SignatureToken::Reference => {
                    let id = self.borrow_set.extend_by_unknown(
                        &all_refs,
                        offset,
                        false,
                        offset,
                        s as u16,
                    );
                    proof {
                        assert forall|k: int|
                            0 <= k < all_refs@.len() implies at(
                            pre_bs,
                            (#[trigger] all_refs@[k]).0 as int,
                        ) == at(old(self).borrow_set, all_refs@[k].0 as int) by {
                            assert(live(old(self).borrow_set, all_refs@[k].0 as int));
                        }
                        lemma_ext_paths_congruence(
                            pre_bs,
                            old(self).borrow_set,
                            all_refs@,
                            Offset::Star(offset, s as u16),
                        );
                        lemma_ret_paths_bridge(
                            old(self).borrow_set,
                            arguments@,
                            all_refs@,
                            false,
                            offset,
                            s as u16,
                        );
                    }
                    return_values.push(AbstractValue::Reference(id));
                },
                SignatureToken::Value => {
                    return_values.push(AbstractValue::NonReference);
                },
            }
            s += 1;
        }
        // Release the argument references.
        let ghost mid = *self;
        let mut w3: usize = 0;
        while w3 < nr
            invariant
                nr == all_refs@.len(),
                0 <= w3 <= nr,
                bs_wf(self.borrow_set),
                self.locals@ == old(self).locals@,
                self.current_function == old(self).current_function,
                self.borrow_set.refs@.len() == mid.borrow_set.refs@.len(),
                forall|i: int|
                    0 <= i < mid.locals@.len() && (#[trigger] mid.locals@[i]) is Some ==> live(
                        mid.borrow_set,
                        slot_id(mid.locals@[i]),
                    ) && at(mid.borrow_set, slot_id(mid.locals@[i])).pinned,
                forall|w1: int, wb: int|
                    0 <= w1 < wb < all_refs@.len() ==> (#[trigger] all_refs@[w1]).0 != (
                    #[trigger] all_refs@[wb]).0,
                forall|wi: int|
                    0 <= wi < all_refs@.len() ==> live(
                        mid.borrow_set,
                        (#[trigger] all_refs@[wi]).0 as int,
                    ),
                forall|wi: int|
                    w3 <= wi < nr ==> live(self.borrow_set, (#[trigger] all_refs@[wi]).0 as int)
                        && at(self.borrow_set, all_refs@[wi].0 as int) == at(
                        mid.borrow_set,
                        all_refs@[wi].0 as int,
                    ),
                forall|wi: int|
                    0 <= wi < w3 ==> (if at(mid.borrow_set, (#[trigger] all_refs@[wi]).0 as int).pinned {
                        live(self.borrow_set, all_refs@[wi].0 as int) && at(
                            self.borrow_set,
                            all_refs@[wi].0 as int,
                        ) == (RefModel {
                            paths: Set::<PathModel>::empty(),
                            ..at(mid.borrow_set, all_refs@[wi].0 as int)
                        })
                    } else {
                        !live(self.borrow_set, all_refs@[wi].0 as int)
                    }),
                forall|j: int|
                    #[trigger] live(mid.borrow_set, j) && !in_ids(all_refs@, j) ==> live(
                        self.borrow_set,
                        j,
                    ) && at(self.borrow_set, j) == at(mid.borrow_set, j),
                forall|j: int| #[trigger] live(self.borrow_set, j) ==> live(mid.borrow_set, j),
                old(self).borrow_set.refs@.len() == old_len,
                forall|wi: int| 0 <= wi < all_refs@.len() ==> (#[trigger] all_refs@[wi]).0 < old_len,
                return_values@.len() == return_@.len(),
                forall|kk: int|
                    0 <= kk < return_values@.len() && (#[trigger] return_values@[kk])
                        is Reference ==> av_id(return_values@[kk]) >= old_len && live(
                        mid.borrow_set,
                        av_id(return_values@[kk]),
                    ) && at(mid.borrow_set, av_id(return_values@[kk])) == (RefModel {
                        mutable: return_@[kk] is MutableReference,
                        pinned: false,
                        paths: call_ret_paths(
                            old(self).borrow_set,
                            arguments@,
                            return_@[kk] is MutableReference,
                            offset,
                            kk as u16,
                        ),
                    }),
                forall|kk: int|
                    0 <= kk < return_values@.len() && (#[trigger] return_values@[kk])
                        is Reference ==> live(self.borrow_set, av_id(return_values@[kk])) && at(
                        self.borrow_set,
                        av_id(return_values@[kk]),
                    ) == at(mid.borrow_set, av_id(return_values@[kk])),
            decreases nr - w3,
        {
            let id = all_refs[w3];
            proof {
                assert(live(self.borrow_set, id.0 as int));
            }
            self.borrow_set.release(id);
            proof {
                assert forall|wi: int|
                    w3 + 1 <= wi < nr implies live(
                    self.borrow_set,
                    (#[trigger] all_refs@[wi]).0 as int,
                ) && at(self.borrow_set, all_refs@[wi].0 as int) == at(
                    mid.borrow_set,
                    all_refs@[wi].0 as int,
                ) by {
                    assert(all_refs@[wi].0 != all_refs@[w3 as int].0);
                }
                assert forall|kk: int|
                    0 <= kk < return_values@.len() && (#[trigger] return_values@[kk])
                        is Reference implies live(self.borrow_set, av_id(return_values@[kk]))
                    && at(self.borrow_set, av_id(return_values@[kk])) == at(
                    mid.borrow_set,
                    av_id(return_values@[kk]),
                ) by {
                    assert(av_id(return_values@[kk]) != all_refs@[w3 as int].0 as int);
                }
            }
            w3 += 1;
        }
        proof {
            assert forall|i: int|
                0 <= i < self.locals@.len() && (#[trigger] self.locals@[i]) is Some implies live(
                self.borrow_set,
                slot_id(self.locals@[i]),
            ) && at(self.borrow_set, slot_id(self.locals@[i])).pinned by {
                let sid = slot_id(mid.locals@[i]);
                assert(live(mid.borrow_set, sid) && at(mid.borrow_set, sid).pinned);
                if in_ids(all_refs@, sid) {
                    let wi = choose|wi: int| 0 <= wi < all_refs@.len() && all_refs@[wi].0 == sid;
                    assert(at(mid.borrow_set, sid).pinned);
                } else {
                    assert(live(self.borrow_set, sid));
                }
            }
            assert forall|id: int|
                #[trigger] is_arg_ref(arguments@, id) && live(old(self).borrow_set, id) implies (
            if at(old(self).borrow_set, id).pinned {
                live(self.borrow_set, id) && at(self.borrow_set, id) == (RefModel {
                    paths: Set::<PathModel>::empty(),
                    ..at(old(self).borrow_set, id)
                })
            } else {
                !live(self.borrow_set, id)
            }) by {
                assert(in_ids(all_refs@, id));
                let wi = choose|wi: int| 0 <= wi < all_refs@.len() && all_refs@[wi].0 == id;
                assert(at(mid.borrow_set, id) == at(old(self).borrow_set, id));
            }
            assert forall|j: int|
                #[trigger] live(old(self).borrow_set, j) && !is_arg_ref(arguments@, j) implies
            live(self.borrow_set, j) && at(self.borrow_set, j) == at(old(self).borrow_set, j) by {
                assert(live(mid.borrow_set, j) && at(mid.borrow_set, j) == at(
                    old(self).borrow_set,
                    j,
                ));
                assert(!in_ids(all_refs@, j));
            }
            assert forall|kk: int|
                0 <= kk < return_@.len() && (#[trigger] return_values@[kk])
                    is Reference implies live(self.borrow_set, av_id(return_values@[kk])) && at(
                self.borrow_set,
                av_id(return_values@[kk]),
            ) == (RefModel {
                mutable: return_@[kk] is MutableReference,
                pinned: false,
                paths: call_ret_paths(
                    old(self).borrow_set,
                    arguments@,
                    return_@[kk] is MutableReference,
                    offset,
                    kk as u16,
                ),
            }) by {
                let rid = av_id(return_values@[kk]);
                assert(live(mid.borrow_set, rid) && !at(mid.borrow_set, rid).pinned);
                assert(rid >= old_len);
                if in_ids(all_refs@, rid) {
                    let wi = choose|wi: int| 0 <= wi < all_refs@.len() && all_refs@[wi].0 == rid;
                    assert(all_refs@[wi].0 < old_len);
                    assert(false);
                }
                assert(live(self.borrow_set, rid) && at(self.borrow_set, rid) == at(
                    mid.borrow_set,
                    rid,
                ));
            }
        }
        Ok(return_values)
    }

    /// Leave the function. Every local slot is released first; returning
    /// while a reference is still rooted at a local or a global is an
    /// error, as is returning a mutable reference with an extension or
    /// with a parent among the returned references.
    pub fn ret(&mut self, offset: u16, values: &Vec<AbstractValue>) -> (r: Result<
        (),
        PartialVMError,
    >)
        requires
            st_wf(*old(self)),
            forall|k: int|
                0 <= k < values@.len() && (#[trigger] values@[k]) is Reference ==> live(
                    old(self).borrow_set,
                    av_id(values@[k]),
                ) && !at(old(self).borrow_set, av_id(values@[k])).pinned,
        ensures
            st_wf(*final(self)),
            final(self).locals@ == old(self).locals@,
            final(self).current_function == old(self).current_function,
            forall|j: int| live(old(self).borrow_set, j) <==> live(final(self).borrow_set, j),
            forall|i: int|
                0 <= i < old(self).locals@.len() && (#[trigger] old(self).locals@[i]) is Some
                    ==> at(final(self).borrow_set, slot_id(old(self).locals@[i])) == (RefModel {
                    paths: Set::<PathModel>::empty(),
                    ..at(old(self).borrow_set, slot_id(old(self).locals@[i]))
                }),
            forall|j: int|
                #[trigger] live(old(self).borrow_set, j) && !is_slot_ref(old(self).locals@, j)
                    ==> at(final(self).borrow_set, j) == at(old(self).borrow_set, j),
            if frame_rooted(final(self).borrow_set) {
                r == Err::<(), PartialVMError>(
                    PartialVMError {
                        status: StatusCode::UnsafeRetLocalOrResourceStillBorrowed,
                        function: old(self).current_function,
                        offset,
                    },
                )
            } else if !call_args_ok(final(self).borrow_set, values@) {
                r == Err::<(), PartialVMError>(
                    PartialVMError {
                        status: StatusCode::RetBorrowedMutableReferenceError,
                        function: old(self).current_function,
                        offset,
                    },
                )
            } else {
                r == Ok::<(), PartialVMError>(())
            },
    {
        // Release every local slot.
        let nslots = self.locals.len();
        let mut i: usize = 0;
        while i < nslots
            invariant
                nslots == self.locals@.len(),
                0 <= i <= nslots,
                self.locals@ == old(self).locals@,
                self.current_function == old(self).current_function,
                st_wf(*old(self)),
                bs_wf(self.borrow_set),
                self.borrow_set.refs@.len() == old(self).borrow_set.refs@.len(),
                forall|j: int| live(old(self).borrow_set, j) <==> live(self.borrow_set, j),
                forall|w: int|
                    0 <= w < i && (#[trigger] self.locals@[w]) is Some ==> at(
                        self.borrow_set,
                        slot_id(self.locals@[w]),
                    ) == (RefModel {
                        paths: Set::<PathModel>::empty(),
                        ..at(old(self).borrow_set, slot_id(self.locals@[w]))
                    }),
                forall|j: int|
                    #[trigger] live(old(self).borrow_set, j) ==> at(self.borrow_set, j) == at(
                        old(self).borrow_set,
                        j,
                    ) || at(self.borrow_set, j) == (RefModel {
                        paths: Set::<PathModel>::empty(),
                        ..at(old(self).borrow_set, j)
                    }),
                forall|j: int|
                    #[trigger] live(old(self).borrow_set, j) && !is_slot_ref(old(self).locals@, j)
                        ==> at(self.borrow_set, j) == at(old(self).borrow_set, j),
            decreases nslots - i,
        {
            match self.locals[i] {
                Some(id) => {
                    proof {
                        assert(old(self).locals@[i as int] is Some);
                        assert(live(old(self).borrow_set, id.0 as int) && at(
                            old(self).borrow_set,
                            id.0 as int,
                        ).pinned);
                        assert(at(self.borrow_set, id.0 as int).pinned);
                    }
                    self.borrow_set.release(id);
                    proof {
                        assert(is_slot_ref(old(self).locals@, id.0 as int)) by {
                            assert(old(self).locals@[i as int] is Some && slot_id(
                                old(self).locals@[i as int],
                            ) == id.0 as int);
                        }
                    }
                },
                None => {},
            }
            i += 1;
        }
        proof {
            assert forall|w: int|
                0 <= w < self.locals@.len() && (#[trigger] self.locals@[w]) is Some implies live(
                self.borrow_set,
                slot_id(self.locals@[w]),
            ) && at(self.borrow_set, slot_id(self.locals@[w])).pinned by {
                assert(live(old(self).borrow_set, slot_id(self.locals@[w])));
            }
        }
        // No reference may be left rooted at a local or a global.
        if !self.is_frame_safe_to_destroy() {
            return Err(self.error(StatusCode::UnsafeRetLocalOrResourceStillBorrowed, offset));
        }
        // Every returned mutable reference must be transferable.
        let mut all_refs: Vec<RefID> = Vec::new();
        let nvals = values.len();
        let mut k: usize = 0;
        while k < nvals
            invariant
                nvals == values@.len(),
                0 <= k <= nvals,
                forall|w: int|
                    0 <= w < values@.len() && (#[trigger] values@[w]) is Reference ==> live(
                        self.borrow_set,
                        av_id(values@[w]),
                    ),
                forall|wi: int|
                    0 <= wi < all_refs@.len() ==> live(
                        self.borrow_set,
                        (#[trigger] all_refs@[wi]).0 as int,
                    ),
                forall|id: int|
                    #[trigger] in_ids(all_refs@, id) <==> exists|w: int|
                        0 <= w < k && (#[trigger] values@[w]) is Reference && av_id(values@[w])
                            == id,
            decreases nvals - k,
        {
            match values[k] {
                AbstractValue::Reference(id) => {
                    let ghost old_a = all_refs@;
                    all_refs.push(id);
                    proof {
                        assert(values@[k as int] == AbstractValue::Reference(id));
                        assert forall|id2: int| #[trigger] in_ids(all_refs@, id2) implies (exists|
                            w: int,
                        |
                            0 <= w < k + 1 && (#[trigger] values@[w]) is Reference && av_id(
                                values@[w],
                            ) == id2) by {
                            let wi = choose|wi: int|
                                0 <= wi < all_refs@.len() && all_refs@[wi].0 == id2;
                            if wi < old_a.len() {
                                assert(in_ids(old_a, id2));
                            } else {
                                assert(values@[k as int] is Reference && av_id(values@[k as int])
                                    == id2);
                            }
                        }
                        assert forall|id2: int|
                            (exists|w: int|
                                0 <= w < k + 1 && (#[trigger] values@[w]) is Reference && av_id(
                                    values@[w],
                                ) == id2) implies #[trigger] in_ids(all_refs@, id2) by {
                            let w = choose|w: int|
                                0 <= w < k + 1 && (#[trigger] values@[w]) is Reference && av_id(
                                    values@[w],
                                ) == id2;
                            if w < k {
                                assert(in_ids(old_a, id2));
                                let wi = choose|wi: int|
                                    0 <= wi < old_a.len() && old_a[wi].0 == id2;
                                assert(all_refs@[wi].0 == id2);
                            } else {
                                assert(all_refs@[all_refs@.len() - 1].0 == id2);
                            }
                        }
                    }
                },
                AbstractValue::NonReference => {},
            }
            k += 1;
        }
        proof {
            assert forall|id: int| #[trigger] in_ids(all_refs@, id) <==> is_arg_ref(
                values@,
                id,
            ) by {}
        }
        let nr = all_refs.len();
        let mut w: usize = 0;
        while w < nr
            invariant
                nr == all_refs@.len(),
                0 <= w <= nr,
                st_wf(*self),
                self.locals@ == old(self).locals@,
                self.current_function == old(self).current_function,
                !frame_rooted(self.borrow_set),
                forall|j: int| live(old(self).borrow_set, j) <==> live(self.borrow_set, j),
                forall|i2: int|
                    0 <= i2 < old(self).locals@.len() && (#[trigger] old(self).locals@[i2])
                        is Some ==> at(self.borrow_set, slot_id(old(self).locals@[i2]))
                        == (RefModel {
                        paths: Set::<PathModel>::empty(),
                        ..at(old(self).borrow_set, slot_id(old(self).locals@[i2]))
                    }),
                forall|j: int|
                    #[trigger] live(old(self).borrow_set, j) && !is_slot_ref(old(self).locals@, j)
                        ==> at(self.borrow_set, j) == at(old(self).borrow_set, j),
                forall|id: int| #[trigger] in_ids(all_refs@, id) <==> is_arg_ref(values@, id),
                forall|wi: int|
                    0 <= wi < all_refs@.len() ==> live(
                        self.borrow_set,
                        (#[trigger] all_refs@[wi]).0 as int,
                    ),
                forall|wi: int|
                    0 <= wi < w && at(self.borrow_set, (#[trigger] all_refs@[wi]).0 as int).mutable
                        ==> is_writable_spec(self.borrow_set, all_refs@[wi].0 as int)
                        && !some_parent_among(self.borrow_set, all_refs@[wi].0 as int, all_refs@),
            decreases nr - w,
        {
            let id = all_refs[w];
            if self.borrow_set.is_mutable(id) {
                let ok = self.is_writable(id) && self.has_no_parents_in_set(id, &all_refs);
                if !ok {
                    proof {
                        let idi = id.0 as int;
                        assert(in_ids(all_refs@, idi)) by {
                            assert(all_refs@[w as int].0 == idi);
                        }
                        assert(is_arg_ref(values@, idi));
                        if is_writable_spec(self.borrow_set, idi) {
                            assert(some_parent_among(self.borrow_set, idi, all_refs@));
                            let oid = choose|oid: int|
                                #[trigger] live(self.borrow_set, oid) && oid != idi && in_ids(
                                    all_refs@,
                                    oid,
                                ) && (pair_rel(self.borrow_set, oid, idi, Ordering::Equal)
                                    || pair_rel(
                                    self.borrow_set,
                                    oid,
                                    idi,
                                    Ordering::RightExtendsLeft(Extension::Star),
                                ) || exists|lbl: Label|
                                    pair_rel(
                                        self.borrow_set,
                                        oid,
                                        idi,
                                        Ordering::RightExtendsLeft(Extension::Label(lbl)),
                                    ));
                            assert(some_parent_among_args(self.borrow_set, idi, values@));
                        }
                        assert(!call_args_ok(self.borrow_set, values@));
                    }
                    return Err(self.error(StatusCode::RetBorrowedMutableReferenceError, offset));
                }
            }
            w += 1;
        }
        proof {
            assert forall|id: int|
                #[trigger] is_arg_ref(values@, id) && live(self.borrow_set, id) && at(
                    self.borrow_set,
                    id,
                ).mutable implies is_writable_spec(self.borrow_set, id) && !some_parent_among_args(
                self.borrow_set,
                id,
                values@,
            ) by {
                assert(in_ids(all_refs@, id));
                let wi = choose|wi: int| 0 <= wi < all_refs@.len() && all_refs@[wi].0 == id;
                assert(is_writable_spec(self.borrow_set, id));
                assert(!some_parent_among(self.borrow_set, id, all_refs@));
                if some_parent_among_args(self.borrow_set, id, values@) {
                    let oid = choose|oid: int|
                        #[trigger] live(self.borrow_set, oid) && oid != id && is_arg_ref(
                            values@,
                            oid,
                        ) && (pair_rel(self.borrow_set, oid, id, Ordering::Equal) || pair_rel(
                            self.borrow_set,
                            oid,
                            id,
                            Ordering::RightExtendsLeft(Extension::Star),
                        ) || exists|lbl: Label|
                            pair_rel(
                                self.borrow_set,
                                oid,
                                id,
                                Ordering::RightExtendsLeft(Extension::Label(lbl)),
                            ));
                    assert(in_ids(all_refs@, oid));
                    assert(some_parent_among(self.borrow_set, id, all_refs@));
                }
            }
            assert(call_args_ok(self.borrow_set, values@));
        }
        Ok(())
    }

    /// Join an incoming post-state into this pre-state, as the driver
    /// does at a control-flow merge. A local slot bound on only one side
    /// is released on both before the borrow sets are joined. The result
    /// is `Unchanged` exactly when no slot's binding status moves and the
    /// existing pre-state already covers the join, in which case this
    /// state is left untouched; otherwise the state becomes the rectified
    /// join. States that do not describe the same function, slots and
    /// reference universe cannot be joined and are reported as an
    /// internal invariant violation.
    pub fn join(&mut self, state: &AbstractState) -> (r: Result<JoinResult, PartialVMError>)
        requires
            st_wf(*old(self)),
            st_wf(*state),
        ensures
            st_wf(*final(self)),
            final(self).locals@ == old(self).locals@,
            final(self).current_function == old(self).current_function,
            r == Ok::<JoinResult, PartialVMError>(JoinResult::Unchanged) ==> *final(self) == *old(
                self,
            ),
            r is Err ==> *final(self) == *old(self),
            r matches Err(e) ==> e.function == old(self).current_function && e.status
                == StatusCode::UnknownInvariantViolationError,
            old(self).current_function == state.current_function && old(self).locals@
                == state.locals@ && joinable(old(self).borrow_set, state.borrow_set) ==> r is Ok,
            r == Ok::<JoinResult, PartialVMError>(JoinResult::Changed) ==> {
                &&& (forall|j: int|
                    live(final(self).borrow_set, j) <==> live(old(self).borrow_set, j))
                &&& (forall|j: int|
                    #[trigger] live(old(self).borrow_set, j) ==> at(final(self).borrow_set, j).mutable
                        == at(old(self).borrow_set, j).mutable && at(
                        final(self).borrow_set,
                        j,
                    ).pinned == at(old(self).borrow_set, j).pinned && at(
                        final(self).borrow_set,
                        j,
                    ).paths == rectified_joined_paths(
                        old(self).borrow_set,
                        state.borrow_set,
                        old(self).locals@,
                        j,
                    ))
            },
            r is Ok ==> (r == Ok::<JoinResult, PartialVMError>(JoinResult::Unchanged) <==> (
            !some_flag_moves(old(self).borrow_set, state.borrow_set, old(self).locals@) && (forall|
                j: int,
            |
                #[trigger] live(old(self).borrow_set, j) ==> crate::set::set_covers(
                    at(old(self).borrow_set, j).paths,
                    rectified_joined_paths(
                        old(self).borrow_set,
                        state.borrow_set,
                        old(self).locals@,
                        j,
                    ),
                )))),
    {
        if self.current_function != state.current_function {
            return Err(self.error(StatusCode::UnknownInvariantViolationError, 0));
        }
        if self.locals.len() != state.locals.len() {
            return Err(self.error(StatusCode::UnknownInvariantViolationError, 0));
        }
        let nslots = self.locals.len();
        let mut c: usize = 0;
        while c < nslots
            invariant
                nslots == self.locals@.len(),
                nslots == state.locals@.len(),
                0 <= c <= nslots,
                *self == *old(self),
                st_wf(*old(self)),
                forall|j: int| 0 <= j < c ==> self.locals@[j] == state.locals@[j],
            decreases nslots - c,
        {
            let same = match (self.locals[c], state.locals[c]) {
                (None, None) => true,
                (Some(x), Some(y)) => x.0 == y.0,
                _ => false,
            };
            if !same {
                return Err(self.error(StatusCode::UnknownInvariantViolationError, 0));
            }
            c += 1;
        }
        proof {
            assert(self.locals@ =~= state.locals@);
        }
        let ghost olds = self.borrow_set;
        let ghost sts = state.borrow_set;
        let ghost locs = self.locals@;
        let mut lhs = self.borrow_set.clone();
        let mut rhs = state.borrow_set.clone();
        lhs.compact();
        rhs.compact();
        if !lhs.check_consistent(&rhs) {
            proof {
                // Compaction cannot break a joinable pair: the two
                // compacted sets would have to be consistent.
                if joinable(self.borrow_set, state.borrow_set) {
                    if lhs.refs@.len() < rhs.refs@.len() {
                        assert(live(rhs, rhs.refs@.len() - 1));
                        assert(live(state.borrow_set, rhs.refs@.len() - 1));
                        assert(live(self.borrow_set, rhs.refs@.len() - 1));
                        assert(live(lhs, rhs.refs@.len() - 1));
                        assert(false);
                    }
                    if rhs.refs@.len() < lhs.refs@.len() {
                        assert(live(lhs, lhs.refs@.len() - 1));
                        assert(live(self.borrow_set, lhs.refs@.len() - 1));
                        assert(live(state.borrow_set, lhs.refs@.len() - 1));
                        assert(live(rhs, lhs.refs@.len() - 1));
                        assert(false);
                    }
                    assert forall|j: int| live(lhs, j) <==> live(rhs, j) by {
                        assert(live(lhs, j) <==> live(self.borrow_set, j));
                        assert(live(rhs, j) <==> live(state.borrow_set, j));
                    }
                    assert forall|j: int|
                        #![trigger at(lhs, j)]
                        #![trigger at(rhs, j)]
                        live(lhs, j) implies at(lhs, j).mutable == at(rhs, j).mutable && at(
                        lhs,
                        j,
                    ).pinned == at(rhs, j).pinned by {
                        assert(live(self.borrow_set, j));
                        assert(at(lhs, j) == at(self.borrow_set, j));
                        assert(at(rhs, j) == at(state.borrow_set, j));
                        assert(at(self.borrow_set, j).mutable == at(state.borrow_set, j).mutable
                            && at(self.borrow_set, j).pinned == at(state.borrow_set, j).pinned);
                    }
                    assert(consistent_world(lhs, rhs));
                    assert(false);
                }
            }
            return Err(self.error(StatusCode::UnknownInvariantViolationError, 0));
        }
        // A slot bound on only one side is treated as unbound on both.
        let mut i: usize = 0;
        while i < nslots
            invariant
                nslots == locs.len(),
                0 <= i <= nslots,
                *self == *old(self),
                st_wf(*old(self)),
                st_wf(*state),
                olds == old(self).borrow_set,
                sts == state.borrow_set,
                locs == self.locals@,
                self.locals@ == state.locals@,
                bs_wf(lhs),
                bs_wf(rhs),
                consistent_world(lhs, rhs),
                forall|j: int| live(lhs, j) <==> live(olds, j),
                forall|j: int| live(rhs, j) <==> live(sts, j),
                lhs.refs@.len() == 0 || live(lhs, lhs.refs@.len() - 1),
                forall|j: int|
                    #[trigger] live(olds, j) ==> at(lhs, j).mutable == at(olds, j).mutable && at(
                        lhs,
                        j,
                    ).pinned == at(olds, j).pinned,
                forall|j: int|
                    #[trigger] live(sts, j) ==> at(rhs, j).mutable == at(sts, j).mutable && at(
                        rhs,
                        j,
                    ).pinned == at(sts, j).pinned,
                forall|j: int|
                    #[trigger] live(olds, j) ==> at(lhs, j).paths == (if rect_l(
                        olds,
                        sts,
                        locs,
                        i as int,
                        j,
                    ) {
                        Set::<PathModel>::empty()
                    } else {
                        at(olds, j).paths
                    }),
                forall|j: int|
                    #[trigger] live(sts, j) ==> at(rhs, j).paths == (if rect_r(
                        olds,
                        sts,
                        locs,
                        i as int,
                        j,
                    ) {
                        Set::<PathModel>::empty()
                    } else {
                        at(sts, j).paths
                    }),
            decreases nslots - i,
        {
            let ghost pre_l = lhs;
            let ghost pre_r = rhs;
            match self.locals[i] {
                Some(id) => {
                    let ghost sid = id.0 as int;
                    proof {
                        assert(old(self).locals@[i as int] is Some);
                        assert(live(olds, sid) && at(olds, sid).pinned);
                        assert(live(lhs, sid));
                        assert(live(rhs, sid));
                        assert(at(lhs, sid).pinned);
                        assert(at(rhs, sid).pinned);
                        lemma_empty_paths_iff(olds, sid);
                        lemma_empty_paths_iff(sts, sid);
                    }
                    let lrel = lhs.is_pinned_released(id);
                    let rrel = rhs.is_pinned_released(id);
                    if !lrel && rrel {
                        proof {
                            assert(!rect_l(olds, sts, locs, i as int, sid));
                            assert(!empty_paths(olds, sid));
                            if !rect_r(olds, sts, locs, i as int, sid) {
                                assert(at(rhs, sid).paths == at(sts, sid).paths);
                            }
                            assert(empty_paths(sts, sid));
                        }
                        lhs.release(id);
                        proof {
                            assert forall|j: int| live(lhs, j) <==> live(olds, j) by {
                                assert(live(lhs, j) <==> live(pre_l, j));
                            }
                            assert forall|j: int| #[trigger] live(olds, j) implies at(
                                lhs,
                                j,
                            ).mutable == at(olds, j).mutable && at(lhs, j).pinned == at(
                                olds,
                                j,
                            ).pinned by {
                                if j != sid {
                                    assert(at(lhs, j) == at(pre_l, j));
                                } else {
                                    assert(at(lhs, j).mutable == at(pre_l, j).mutable && at(
                                        lhs,
                                        j,
                                    ).pinned == at(pre_l, j).pinned);
                                }
                            }
                            assert forall|j: int|
                                #![trigger at(lhs, j)]
                                #![trigger at(rhs, j)]
                                live(lhs, j) implies at(lhs, j).mutable == at(rhs, j).mutable
                                && at(lhs, j).pinned == at(rhs, j).pinned by {
                                assert(live(olds, j) && live(pre_l, j));
                                if j != sid {
                                    assert(at(lhs, j) == at(pre_l, j));
                                } else {
                                    assert(at(lhs, j).mutable == at(pre_l, j).mutable && at(
                                        lhs,
                                        j,
                                    ).pinned == at(pre_l, j).pinned);
                                }
                            }
                            assert forall|j: int| #[trigger] live(olds, j) implies at(
                                lhs,
                                j,
                            ).paths == (if rect_l(olds, sts, locs, i as int + 1, j) {
                                Set::<PathModel>::empty()
                            } else {
                                at(olds, j).paths
                            }) by {
                                lemma_rect_step(olds, sts, locs, i as int, j);
                                if j == sid {
                                    assert(rect_l(olds, sts, locs, i as int + 1, j));
                                    assert(at(lhs, j).paths =~= Set::<PathModel>::empty());
                                } else {
                                    assert(at(lhs, j) == at(pre_l, j));
                                    assert(rect_l(olds, sts, locs, i as int + 1, j) <==> rect_l(
                                        olds,
                                        sts,
                                        locs,
                                        i as int,
                                        j,
                                    ));
                                }
                            }
                            assert forall|j: int| #[trigger] live(sts, j) implies at(
                                rhs,
                                j,
                            ).paths == (if rect_r(olds, sts, locs, i as int + 1, j) {
                                Set::<PathModel>::empty()
                            } else {
                                at(sts, j).paths
                            }) by {
                                lemma_rect_step(olds, sts, locs, i as int, j);
                            }
                        }
                    } else if lrel && !rrel {
                        proof {
                            assert(!rect_r(olds, sts, locs, i as int, sid));
                            assert(!empty_paths(sts, sid));
                            if !rect_l(olds, sts, locs, i as int, sid) {
                                assert(at(lhs, sid).paths == at(olds, sid).paths);
                            }
                            assert(empty_paths(olds, sid));
                        }
                        rhs.release(id);
                        proof {
                            assert forall|j: int| live(rhs, j) <==> live(sts, j) by {
                                assert(live(rhs, j) <==> live(pre_r, j));
                            }
                            assert forall|j: int| #[trigger] live(sts, j) implies at(
                                rhs,
                                j,
                            ).mutable == at(sts, j).mutable && at(rhs, j).pinned == at(
                                sts,
                                j,
                            ).pinned by {
                                if j != sid {
                                    assert(at(rhs, j) == at(pre_r, j));
                                } else {
                                    assert(at(rhs, j).mutable == at(pre_r, j).mutable && at(
                                        rhs,
                                        j,
                                    ).pinned == at(pre_r, j).pinned);
                                }
                            }
                            assert forall|j: int|
                                #![trigger at(lhs, j)]
                                #![trigger at(rhs, j)]
                                live(lhs, j) implies at(lhs, j).mutable == at(rhs, j).mutable
                                && at(lhs, j).pinned == at(rhs, j).pinned by {
                                assert(live(sts, j) && live(pre_r, j));
                                if j != sid {
                                    assert(at(rhs, j) == at(pre_r, j));
                                } else {
                                    assert(at(rhs, j).mutable == at(pre_r, j).mutable && at(
                                        rhs,
                                        j,
                                    ).pinned == at(pre_r, j).pinned);
                                }
                            }
                            assert forall|j: int| #[trigger] live(olds, j) implies at(
                                lhs,
                                j,
                            ).paths == (if rect_l(olds, sts, locs, i as int + 1, j) {
                                Set::<PathModel>::empty()
                            } else {
                                at(olds, j).paths
                            }) by {
                                lemma_rect_step(olds, sts, locs, i as int, j);
                            }
                            assert forall|j: int| #[trigger] live(sts, j) implies at(
                                rhs,
                                j,
                            ).paths == (if rect_r(olds, sts, locs, i as int + 1, j) {
                                Set::<PathModel>::empty()
                            } else {
                                at(sts, j).paths
                            }) by {
                                lemma_rect_step(olds, sts, locs, i as int, j);
                                if j == sid {
                                    assert(rect_r(olds, sts, locs, i as int + 1, j));
                                    assert(at(rhs, j).paths =~= Set::<PathModel>::empty());
                                } else {
                                    assert(at(rhs, j) == at(pre_r, j));
                                    assert(rect_r(olds, sts, locs, i as int + 1, j) <==> rect_r(
                                        olds,
                                        sts,
                                        locs,
                                        i as int,
                                        j,
                                    ));
                                }
                            }
                        }
                    } else {
                        proof {
                            assert forall|j: int| #[trigger] live(olds, j) implies at(
                                lhs,
                                j,
                            ).paths == (if rect_l(olds, sts, locs, i as int + 1, j) {
                                Set::<PathModel>::empty()
                            } else {
                                at(olds, j).paths
                            }) by {
                                lemma_rect_step(olds, sts, locs, i as int, j);
                                if j == sid {
                                    if !rect_l(olds, sts, locs, i as int, j) {
                                        assert(at(lhs, j).paths == at(olds, j).paths);
                                        lemma_empty_paths_iff(olds, j);
                                        lemma_empty_paths_iff(sts, j);
                                        if !rect_r(olds, sts, locs, i as int, j) {
                                            assert(at(rhs, j).paths == at(sts, j).paths);
                                        }
                                        assert(!(
                                        !empty_paths(olds, j) && empty_paths(sts, j)));
                                    }
                                }
                            }
                            assert forall|j: int| #[trigger] live(sts, j) implies at(
                                rhs,
                                j,
                            ).paths == (if rect_r(olds, sts, locs, i as int + 1, j) {
                                Set::<PathModel>::empty()
                            } else {
                                at(sts, j).paths
                            }) by {
                                lemma_rect_step(olds, sts, locs, i as int, j);
                                if j == sid {
                                    if !rect_r(olds, sts, locs, i as int, j) {
                                        assert(at(rhs, j).paths == at(sts, j).paths);
                                        lemma_empty_paths_iff(olds, j);
                                        lemma_empty_paths_iff(sts, j);
                                        if !rect_l(olds, sts, locs, i as int, j) {
                                            assert(at(lhs, j).paths == at(olds, j).paths);
                                        }
                                        assert(!(
                                        empty_paths(olds, j) && !empty_paths(sts, j)));
                                    }
                                }
                            }
                        }
                    }
                },
                None => {
                    proof {
                        assert forall|j: int| #[trigger] live(olds, j) implies at(lhs, j).paths
                            == (if rect_l(olds, sts, locs, i as int + 1, j) {
                            Set::<PathModel>::empty()
                        } else {
                            at(olds, j).paths
                        }) by {
                            lemma_rect_step(olds, sts, locs, i as int, j);
                        }
                        assert forall|j: int| #[trigger] live(sts, j) implies at(rhs, j).paths
                            == (if rect_r(olds, sts, locs, i as int + 1, j) {
                            Set::<PathModel>::empty()
                        } else {
                            at(sts, j).paths
                        }) by {
                            lemma_rect_step(olds, sts, locs, i as int, j);
                        }
                    }
                },
            }
            i += 1;
        }
        let joined_bs = lhs.join(&rhs);
        proof {
            crate::set::lemma_join_consistent(lhs, rhs, joined_bs);
        }
        // Characterize the joined set against the two input states.
        proof {
            assert forall|j: int| #[trigger] live(olds, j) implies live(joined_bs, j) && at(
                joined_bs,
                j,
            ).mutable == at(olds, j).mutable && at(joined_bs, j).pinned == at(olds, j).pinned
                && at(joined_bs, j).paths == rectified_joined_paths(olds, sts, locs, j) by {
                reveal(crate::set::joined_paths);
                assert(live(lhs, j) && live(joined_bs, j));
                assert(at(joined_bs, j) == (RefModel {
                    paths: crate::set::joined_paths(at(lhs, j).paths, at(rhs, j).paths),
                    ..at(lhs, j)
                }));
                lemma_empty_paths_iff(olds, j);
                lemma_empty_paths_iff(sts, j);
                if is_slot_ref(locs, j) && (empty_paths(olds, j) || empty_paths(sts, j)) {
                    let w = choose|w: int|
                        0 <= w < locs.len() && (#[trigger] locs[w]) is Some && slot_id(locs[w])
                            == j;
                    if !empty_paths(olds, j) && empty_paths(sts, j) {
                        assert(rect_l(olds, sts, locs, nslots as int, j));
                        assert(!rect_r(olds, sts, locs, nslots as int, j));
                        assert(at(lhs, j).paths =~= Set::<PathModel>::empty());
                        assert(at(rhs, j).paths =~= Set::<PathModel>::empty());
                    } else if empty_paths(olds, j) && !empty_paths(sts, j) {
                        assert(!rect_l(olds, sts, locs, nslots as int, j));
                        assert(rect_r(olds, sts, locs, nslots as int, j));
                        assert(at(lhs, j).paths =~= Set::<PathModel>::empty());
                        assert(at(rhs, j).paths =~= Set::<PathModel>::empty());
                    } else {
                        assert(!rect_l(olds, sts, locs, nslots as int, j));
                        assert(!rect_r(olds, sts, locs, nslots as int, j));
                        assert(at(lhs, j).paths =~= Set::<PathModel>::empty());
                        assert(at(rhs, j).paths =~= Set::<PathModel>::empty());
                    }
                    assert(crate::set::joined_paths(at(lhs, j).paths, at(rhs, j).paths) =~= Set::<
                        PathModel,
                    >::empty());
                } else {
                    assert(!rect_l(olds, sts, locs, nslots as int, j)) by {
                        if rect_l(olds, sts, locs, nslots as int, j) {
                            let w = choose|w: int|
                                0 <= w < nslots && (#[trigger] locs[w]) is Some && slot_id(
                                    locs[w],
                                ) == j && !empty_paths(olds, j) && empty_paths(sts, j);
                            assert(is_slot_ref(locs, j));
                        }
                    }
                    assert(!rect_r(olds, sts, locs, nslots as int, j)) by {
                        if rect_r(olds, sts, locs, nslots as int, j) {
                            let w = choose|w: int|
                                0 <= w < nslots && (#[trigger] locs[w]) is Some && slot_id(
                                    locs[w],
                                ) == j && empty_paths(olds, j) && !empty_paths(sts, j);
                            assert(is_slot_ref(locs, j));
                        }
                    }
                    assert(at(lhs, j).paths == at(olds, j).paths);
                    assert(at(rhs, j).paths == at(sts, j).paths);
                }
            }
            assert forall|j: int| live(joined_bs, j) <==> live(olds, j) by {
                assert(live(joined_bs, j) <==> live(lhs, j));
            }
        }
        // The pre-state is unchanged only if every slot keeps its binding
        // status and the existing set already covers the join.
        let mut locals_changed = false;
        let mut w: usize = 0;
        while w < nslots
            invariant
                nslots == locs.len(),
                0 <= w <= nslots,
                *self == *old(self),
                st_wf(*old(self)),
                olds == old(self).borrow_set,
                sts == state.borrow_set,
                locs == self.locals@,
                bs_wf(joined_bs),
                joined_bs.refs@.len() == 0 || live(joined_bs, joined_bs.refs@.len() - 1),
                forall|j: int| live(joined_bs, j) <==> live(olds, j),
                forall|j: int|
                    #[trigger] live(olds, j) ==> at(joined_bs, j).mutable == at(
                        olds,
                        j,
                    ).mutable && at(joined_bs, j).pinned == at(olds, j).pinned && at(
                        joined_bs,
                        j,
                    ).paths == rectified_joined_paths(olds, sts, locs, j),
                locals_changed == flag_moved_upto(olds, sts, locs, w as int),
            decreases nslots - w,
        {
            match self.locals[w] {
                Some(id) => {
                    let ghost sid = id.0 as int;
                    proof {
                        assert(old(self).locals@[w as int] is Some);
                        assert(live(olds, sid));
                        assert(live(joined_bs, sid));
                        assert(is_slot_ref(locs, sid)) by {
                            assert(locs[w as int] is Some && slot_id(locs[w as int]) == sid);
                        }
                    }
                    let a = self.borrow_set.is_pinned_released(id);
                    let b = joined_bs.is_pinned_released(id);
                    proof {
                        lemma_empty_paths_iff(olds, sid);
                        lemma_empty_paths_iff(sts, sid);
                        lemma_rect_step(olds, sts, locs, w as int, sid);
                        // The joined slot is released exactly when either
                        // side had it released.
                        assert(b == (empty_paths(olds, sid) || empty_paths(sts, sid))) by {
                            reveal(crate::set::joined_paths);
                            if empty_paths(olds, sid) || empty_paths(sts, sid) {
                                assert(at(joined_bs, sid).paths =~= Set::<PathModel>::empty());
                            } else {
                                let p = choose|p: PathModel| at(olds, sid).paths.contains(p);
                                assert(rectified_joined_paths(olds, sts, locs, sid).contains(p));
                                assert(!(at(joined_bs, sid).paths =~= Set::<
                                    PathModel,
                                >::empty()));
                            }
                        }
                    }
                    if a != b {
                        locals_changed = true;
                    }
                    proof {
                        assert(locals_changed == flag_moved_upto(olds, sts, locs, w as int + 1));
                    }
                },
                None => {
                    proof {
                        lemma_rect_step(olds, sts, locs, w as int, 0);
                        assert(locals_changed == flag_moved_upto(olds, sts, locs, w as int + 1));
                    }
                },
            }
            w += 1;
        }
        if !locals_changed {
            let mut mine = self.borrow_set.clone();
            mine.compact();
            proof {
                // The compacted current set and the joined set describe
                // the same world.
                assert forall|j: int| live(mine, j) <==> live(joined_bs, j) by {
                    assert(live(mine, j) <==> live(olds, j));
                }
                if mine.refs@.len() < joined_bs.refs@.len() {
                    assert(live(joined_bs, joined_bs.refs@.len() - 1));
                    assert(live(mine, joined_bs.refs@.len() - 1));
                    assert(false);
                }
                if joined_bs.refs@.len() < mine.refs@.len() {
                    assert(live(mine, mine.refs@.len() - 1));
                    assert(live(joined_bs, mine.refs@.len() - 1));
                    assert(false);
                }
                assert forall|j: int|
                    #![trigger at(mine, j)]
                    #![trigger at(joined_bs, j)]
                    live(mine, j) implies at(mine, j).mutable == at(joined_bs, j).mutable && at(
                    mine,
                    j,
                ).pinned == at(joined_bs, j).pinned by {
                    assert(live(olds, j));
                    assert(at(mine, j) == at(olds, j));
                }
                assert(consistent_world(mine, joined_bs));
            }
            if mine.covers(&joined_bs) {
                proof {
                    assert forall|j: int| #[trigger] live(olds, j) implies crate::set::set_covers(
                        at(olds, j).paths,
                        rectified_joined_paths(olds, sts, locs, j),
                    ) by {
                        assert(live(joined_bs, j));
                        assert(crate::set::set_covers(at(mine, j).paths, at(joined_bs, j).paths));
                        assert(at(mine, j) == at(olds, j));
                    }
                }
                return Ok(JoinResult::Unchanged);
            }
            proof {
                assert(!(forall|j: int|
                    #[trigger] live(olds, j) ==> crate::set::set_covers(
                        at(olds, j).paths,
                        rectified_joined_paths(olds, sts, locs, j),
                    ))) by {
                    if forall|j: int|
                        #[trigger] live(olds, j) ==> crate::set::set_covers(
                            at(olds, j).paths,
                            rectified_joined_paths(olds, sts, locs, j),
                        ) {
                        assert forall|j: int| #[trigger] live(joined_bs, j) implies
                        crate::set::set_covers(at(mine, j).paths, at(joined_bs, j).paths) by {
                            assert(live(olds, j));
                            assert(at(mine, j) == at(olds, j));
                        }
                        assert(crate::set::covers_spec(mine, joined_bs));
                        assert(false);
                    }
                }
            }
        }
        proof {
            assert forall|i2: int|
                0 <= i2 < self.locals@.len() && (#[trigger] self.locals@[i2]) is Some implies
            live(joined_bs, slot_id(self.locals@[i2])) && at(
                joined_bs,
                slot_id(self.locals@[i2]),
            ).pinned by {
                let sid = slot_id(self.locals@[i2]);
                assert(live(old(self).borrow_set, sid));
                assert(live(joined_bs, sid));
                assert(at(old(self).borrow_set, sid).pinned);
            }
        }
        self.borrow_set = joined_bs;
        Ok(JoinResult::Changed)
    }
}

/// `id` is the identifier of some reference operand among `args`.
pub open spec fn is_arg_ref(args: Seq<AbstractValue>, id: int) -> bool {
    exists|k: int| 0 <= k < args.len() && (#[trigger] args[k]) is Reference && av_id(args[k]) == id
}

/// Reference `id` has a parent among the reference operands of `args`.
pub open spec fn some_parent_among_args(s: BorrowSet, id: int, args: Seq<AbstractValue>) -> bool {
    exists|oid: int|
        #[trigger] live(s, oid) && oid != id && is_arg_ref(args, oid) && (pair_rel(
            s,
            oid,
            id,
            Ordering::Equal,
        ) || pair_rel(s, oid, id, Ordering::RightExtendsLeft(Extension::Star)) || exists|lbl: Label|
            pair_rel(s, oid, id, Ordering::RightExtendsLeft(Extension::Label(lbl))))
}

/// Every mutable reference among the operands may be handed to a call:
/// it is writable and has no parent among the operands themselves.
pub open spec fn call_args_ok(s: BorrowSet, args: Seq<AbstractValue>) -> bool {
    forall|id: int|
        #[trigger] is_arg_ref(args, id) && live(s, id) && at(s, id).mutable ==> is_writable_spec(
            s,
            id,
        ) && !some_parent_among_args(s, id, args)
}

/// Some acquired resource is currently borrowed.
pub open spec fn some_acquired_borrowed(s: BorrowSet, acqs: Seq<u16>) -> bool {
    exists|k: int| 0 <= k < acqs.len() && #[trigger] label_borrowed(s, Label::Global(acqs[k]))
}

/// `j` is the pinned reference of some slot.
pub open spec fn is_slot_ref(locals: Seq<Option<RefID>>, j: int) -> bool {
    exists|k: int|
        0 <= k < locals.len() && (#[trigger] locals[k]) is Some && slot_id(locals[k]) == j
}

/// A reference argument a returned reference may extend: for a mutable
/// return only the mutable arguments qualify, for an immutable return
/// every reference argument does.
pub open spec fn call_arg_qualifies(
    s: BorrowSet,
    args: Seq<AbstractValue>,
    mut_only: bool,
    id: int,
) -> bool {
    is_arg_ref(args, id) && live(s, id) && (!mut_only || at(s, id).mutable)
}

/// The path set of a reference returned by a call: every path of every
/// qualifying argument, extended by the wildcard of the producing site —
/// or, with no qualifying argument, that wildcard alone.
pub open spec fn call_ret_paths(
    s: BorrowSet,
    args: Seq<AbstractValue>,
    mut_only: bool,
    instr: u16,
    slot: u16,
) -> Set<PathModel> {
    if exists|id: int| call_arg_qualifies(s, args, mut_only, id) {
        Set::new(
            |q: PathModel|
                exists|id: int, p: PathModel|
                    #![trigger at(s, id).paths.contains(p)]
                    call_arg_qualifies(s, args, mut_only, id) && at(s, id).paths.contains(p) && q
                        == (PathModel {
                        root: p.root,
                        offsets: p.offsets.push(Offset::Star(instr, slot)),
                    }),
        )
    } else {
        Set::<PathModel>::empty().insert(
            PathModel { root: None, offsets: Seq::<Offset>::empty().push(Offset::Star(instr, slot)) },
        )
    }
}

proof fn lemma_ext_paths_congruence(s1: BorrowSet, s2: BorrowSet, srcs: Seq<RefID>, o: Offset)
    requires
        forall|k: int|
            0 <= k < srcs.len() ==> at(s1, (#[trigger] srcs[k]).0 as int) == at(
                s2,
                srcs[k].0 as int,
            ),
    ensures
        ext_paths(s1, srcs, o) == ext_paths(s2, srcs, o),
{
    if srcs.len() == 0 {
        assert(ext_paths(s1, srcs, o) =~= ext_paths(s2, srcs, o));
    } else {
        assert forall|q: PathModel| ext_paths(s1, srcs, o).contains(q) implies ext_paths(
            s2,
            srcs,
            o,
        ).contains(q) by {
            let (k, p) = choose|k: int, p: PathModel|
                0 <= k < srcs.len() && #[trigger] at(s1, srcs[k].0 as int).paths.contains(p) && q
                    == (PathModel { root: p.root, offsets: p.offsets.push(o) });
            assert(at(s2, srcs[k].0 as int).paths.contains(p));
        }
        assert forall|q: PathModel| ext_paths(s2, srcs, o).contains(q) implies ext_paths(
            s1,
            srcs,
            o,
        ).contains(q) by {
            let (k, p) = choose|k: int, p: PathModel|
                0 <= k < srcs.len() && #[trigger] at(s2, srcs[k].0 as int).paths.contains(p) && q
                    == (PathModel { root: p.root, offsets: p.offsets.push(o) });
            assert(at(s1, srcs[k].0 as int).paths.contains(p));
        }
        assert(ext_paths(s1, srcs, o) =~= ext_paths(s2, srcs, o));
    }
}

proof fn lemma_ret_paths_bridge(
    olds: BorrowSet,
    args: Seq<AbstractValue>,
    srcs: Seq<RefID>,
    mut_only: bool,
    instr: u16,
    slot: u16,
)
    requires
        forall|id: int| #[trigger] in_ids(srcs, id) <==> call_arg_qualifies(olds, args, mut_only, id),
    ensures
        ext_paths(olds, srcs, Offset::Star(instr, slot)) == call_ret_paths(
            olds,
            args,
            mut_only,
            instr,
            slot,
        ),
{
    let o = Offset::Star(instr, slot);
    if srcs.len() == 0 {
        assert(!(exists|id: int| call_arg_qualifies(olds, args, mut_only, id))) by {
            if exists|id: int| call_arg_qualifies(olds, args, mut_only, id) {
                let id = choose|id: int| call_arg_qualifies(olds, args, mut_only, id);
                assert(in_ids(srcs, id));
            }
        }
        assert(ext_paths(olds, srcs, o) =~= call_ret_paths(olds, args, mut_only, instr, slot));
    } else {
        assert(in_ids(srcs, srcs[0].0 as int)) by {
            assert(srcs[0].0 as int == srcs[0].0 as int);
        }
        assert(call_arg_qualifies(olds, args, mut_only, srcs[0].0 as int));
        assert forall|q: PathModel| ext_paths(olds, srcs, o).contains(q) implies call_ret_paths(
            olds,
            args,
            mut_only,
            instr,
            slot,
        ).contains(q) by {
            let (k, p) = choose|k: int, p: PathModel|
                0 <= k < srcs.len() && #[trigger] at(olds, srcs[k].0 as int).paths.contains(p)
                    && q == (PathModel { root: p.root, offsets: p.offsets.push(o) });
            assert(in_ids(srcs, srcs[k].0 as int)) by {
                assert(srcs[k].0 == srcs[k].0);
            }
            assert(call_arg_qualifies(olds, args, mut_only, srcs[k].0 as int));
        }
        assert forall|q: PathModel|
            call_ret_paths(olds, args, mut_only, instr, slot).contains(q) implies ext_paths(
            olds,
            srcs,
            o,
        ).contains(q) by {
            let (id, p) = choose|id: int, p: PathModel|
                #![trigger at(olds, id).paths.contains(p)]
                call_arg_qualifies(olds, args, mut_only, id) && at(olds, id).paths.contains(p)
                    && q == (PathModel { root: p.root, offsets: p.offsets.push(o) });
            assert(in_ids(srcs, id));
            let k = choose|k: int| 0 <= k < srcs.len() && srcs[k].0 == id;
            assert(at(olds, srcs[k].0 as int).paths.contains(p));
        }
        assert(ext_paths(olds, srcs, o) =~= call_ret_paths(olds, args, mut_only, instr, slot));
    }
}

/// Two borrow sets describe the same world up to the removed trailing
/// entries: the same live identifiers, each with the same mutability and
/// pinned bits. Join succeeds exactly on such pairs.
pub open spec fn joinable(a: BorrowSet, b: BorrowSet) -> bool {
    &&& forall|j: int|
        #![trigger live(a, j)]
        #![trigger live(b, j)]
        live(a, j) <==> live(b, j)
    &&& forall|j: int|
        #![trigger at(a, j)]
        #![trigger at(b, j)]
        live(a, j) ==> at(a, j).mutable == at(b, j).mutable && at(a, j).pinned == at(b, j).pinned
}

/// Reference `j` holds no path in `s`: a pinned slot in this state is
/// released.
pub open spec fn empty_paths(s: BorrowSet, j: int) -> bool {
    forall|p: PathModel| !(#[trigger] at(s, j).paths.contains(p))
}

/// The path set of reference `j` after joining `s2` into `s1` under the
/// slot map `locals`, with locals rectification: a slot bound on only one
/// side — or on neither — ends up unbound; every other reference keeps
/// its left paths plus the uncovered right paths.
pub open spec fn rectified_joined_paths(
    s1: BorrowSet,
    s2: BorrowSet,
    locals: Seq<Option<RefID>>,
    j: int,
) -> Set<PathModel> {
    if is_slot_ref(locals, j) && (empty_paths(s1, j) || empty_paths(s2, j)) {
        Set::<PathModel>::empty()
    } else {
        crate::set::joined_paths(at(s1, j).paths, at(s2, j).paths)
    }
}

/// Some slot is bound in `s1` but unbound in `s2`: joining `s2` into `s1`
/// moves that slot's released-flag.
pub open spec fn some_flag_moves(s1: BorrowSet, s2: BorrowSet, locals: Seq<Option<RefID>>) -> bool {
    flag_moved_upto(s1, s2, locals, locals.len() as int)
}

/// `some_flag_moves` restricted to the first `upto` slots.
pub open spec fn flag_moved_upto(
    s1: BorrowSet,
    s2: BorrowSet,
    locals: Seq<Option<RefID>>,
    upto: int,
) -> bool {
    exists|w: int|
        0 <= w < upto && (#[trigger] locals[w]) is Some && !empty_paths(s1, slot_id(locals[w]))
            && empty_paths(s2, slot_id(locals[w]))
}

/// Among the first `upto` slots, some slot holds `j`, is bound in `s1`
/// and unbound in `s2` — the left side is to be rectified at `j`.
spec fn rect_l(s1: BorrowSet, s2: BorrowSet, locals: Seq<Option<RefID>>, upto: int, j: int) -> bool {
    exists|w: int|
        0 <= w < upto && (#[trigger] locals[w]) is Some && slot_id(locals[w]) == j && !empty_paths(
            s1,
            j,
        ) && empty_paths(s2, j)
}

/// The mirror image: the right side is to be rectified at `j`.
spec fn rect_r(s1: BorrowSet, s2: BorrowSet, locals: Seq<Option<RefID>>, upto: int, j: int) -> bool {
    exists|w: int|
        0 <= w < upto && (#[trigger] locals[w]) is Some && slot_id(locals[w]) == j && empty_paths(
            s1,
            j,
        ) && !empty_paths(s2, j)
}

proof fn lemma_rect_step(s1: BorrowSet, s2: BorrowSet, locals: Seq<Option<RefID>>, i: int, j: int)
    requires
        0 <= i < locals.len(),
    ensures
        rect_l(s1, s2, locals, i + 1, j) <==> rect_l(s1, s2, locals, i, j) || (locals[i] is Some
            && slot_id(locals[i]) == j && !empty_paths(s1, j) && empty_paths(s2, j)),
        rect_r(s1, s2, locals, i + 1, j) <==> rect_r(s1, s2, locals, i, j) || (locals[i] is Some
            && slot_id(locals[i]) == j && empty_paths(s1, j) && !empty_paths(s2, j)),
        flag_moved_upto(s1, s2, locals, i + 1) <==> flag_moved_upto(s1, s2, locals, i) || (
        locals[i] is Some && !empty_paths(s1, slot_id(locals[i])) && empty_paths(
            s2,
            slot_id(locals[i]),
        )),
{
    if rect_l(s1, s2, locals, i + 1, j) {
        let w = choose|w: int|
            0 <= w < i + 1 && (#[trigger] locals[w]) is Some && slot_id(locals[w]) == j
                && !empty_paths(s1, j) && empty_paths(s2, j);
        if w < i {
            assert(rect_l(s1, s2, locals, i, j));
        }
    }
    if rect_r(s1, s2, locals, i + 1, j) {
        let w = choose|w: int|
            0 <= w < i + 1 && (#[trigger] locals[w]) is Some && slot_id(locals[w]) == j
                && empty_paths(s1, j) && !empty_paths(s2, j);
        if w < i {
            assert(rect_r(s1, s2, locals, i, j));
        }
    }
    if flag_moved_upto(s1, s2, locals, i + 1) {
        let w = choose|w: int|
            0 <= w < i + 1 && (#[trigger] locals[w]) is Some && !empty_paths(
                s1,
                slot_id(locals[w]),
            ) && empty_paths(s2, slot_id(locals[w]));
        if w < i {
            assert(flag_moved_upto(s1, s2, locals, i));
        }
    }
}

proof fn lemma_empty_paths_iff(s: BorrowSet, j: int)
    ensures
        empty_paths(s, j) <==> (at(s, j).paths =~= Set::<PathModel>::empty()),
{
    if empty_paths(s, j) {
        assert(at(s, j).paths =~= Set::<PathModel>::empty());
    }
}

/// Borrow set `nb` is `ob` with one fresh unpinned reference appended.
pub open spec fn bs_plus_ref(ob: BorrowSet, nb: BorrowSet, m: RefModel) -> bool {
    &&& nb.refs@.len() == ob.refs@.len() + 1
    &&& (forall|j: int| live(ob, j) <==> live(nb, j) && j < ob.refs@.len())
    &&& (forall|j: int| #[trigger] live(ob, j) ==> at(nb, j) == at(ob, j))
    &&& live(nb, ob.refs@.len() as int)
    &&& at(nb, ob.refs@.len() as int) == m
}

/// Borrow set `nb` is `ob` with reference `id` released: removed when
/// unpinned, its path set emptied when pinned.
pub open spec fn bs_released(ob: BorrowSet, nb: BorrowSet, id: int) -> bool {
    &&& nb.refs@.len() == ob.refs@.len()
    &&& (at(ob, id).pinned ==> (forall|j: int| live(ob, j) <==> live(nb, j)) && at(nb, id)
        == (RefModel { paths: Set::<PathModel>::empty(), ..at(ob, id) }))
    &&& (!at(ob, id).pinned ==> (forall|j: int| live(nb, j) <==> live(ob, j) && j != id))
    &&& forall|j: int|
        #[trigger] live(ob, j) && j != id ==> live(nb, j) && at(nb, j) == at(ob, j)
}

/// Borrow set `nb` is `ob` with the references `a` and `b` both released.
pub open spec fn bs_released2(ob: BorrowSet, nb: BorrowSet, a: int, b: int) -> bool {
    &&& nb.refs@.len() == ob.refs@.len()
    &&& (at(ob, a).pinned ==> live(nb, a) && at(nb, a) == (RefModel {
        paths: Set::<PathModel>::empty(),
        ..at(ob, a)
    }))
    &&& (!at(ob, a).pinned ==> !live(nb, a))
    &&& (at(ob, b).pinned ==> live(nb, b) && at(nb, b) == (RefModel {
        paths: Set::<PathModel>::empty(),
        ..at(ob, b)
    }))
    &&& (!at(ob, b).pinned ==> !live(nb, b))
    &&& forall|j: int|
        #[trigger] live(ob, j) && j != a && j != b ==> live(nb, j) && at(nb, j) == at(ob, j)
}

/// Borrow set `nb` is `ob` with a fresh unpinned reference appended and
/// the source reference `src` released afterwards.
pub open spec fn bs_copied_released(ob: BorrowSet, nb: BorrowSet, src: int, m: RefModel) -> bool {
    &&& nb.refs@.len() == ob.refs@.len() + 1
    &&& live(nb, ob.refs@.len() as int)
    &&& at(nb, ob.refs@.len() as int) == m
    &&& (at(ob, src).pinned ==> live(nb, src) && at(nb, src) == (RefModel {
        paths: Set::<PathModel>::empty(),
        ..at(ob, src)
    }))
    &&& (!at(ob, src).pinned ==> !live(nb, src))
    &&& (forall|j: int|
        #[trigger] live(ob, j) && j != src ==> live(nb, j) && at(nb, j) == at(ob, j))
    &&& (forall|j: int|
        #[trigger] live(nb, j) && j != src && j != ob.refs@.len() ==> live(ob, j))
}

/// The pinned references all survive the step from `ob` to `nb`, so every
/// slot of a well-formed state stays mapped to a live pinned reference.
proof fn lemma_st_wf_step(st: AbstractState, nb: BorrowSet)
    requires
        st_wf(st),
        bs_wf(nb),
        forall|j: int|
            #[trigger] live(st.borrow_set, j) && at(st.borrow_set, j).pinned ==> live(nb, j) && at(
                nb,
                j,
            ).pinned,
    ensures
        forall|i: int|
            0 <= i < st.locals@.len() && (#[trigger] st.locals@[i]) is Some ==> live(
                nb,
                slot_id(st.locals@[i]),
            ) && at(nb, slot_id(st.locals@[i])).pinned,
{
    assert forall|i: int|
        0 <= i < st.locals@.len() && (#[trigger] st.locals@[i]) is Some implies live(
        nb,
        slot_id(st.locals@[i]),
    ) && at(nb, slot_id(st.locals@[i])).pinned by {
        assert(live(st.borrow_set, slot_id(st.locals@[i])));
    }
}

/// The operand stack is sound against the borrow set: every reference on
/// it is live and unpinned, and no identifier appears twice.
pub open spec fn stack_wf(stack: Seq<AbstractValue>, s: BorrowSet) -> bool {
    &&& forall|k: int|
        0 <= k < stack.len() && (#[trigger] stack[k]) is Reference ==> live(s, av_id(stack[k]))
            && !at(s, av_id(stack[k])).pinned
    &&& forall|k1: int, k2: int|
        0 <= k1 < k2 < stack.len() && (#[trigger] stack[k1]) is Reference && (#[trigger] stack[k2])
            is Reference ==> av_id(stack[k1]) != av_id(stack[k2])
}

/// Whether an id occurs in a list of identifiers.
fn contains_id_local(v: &Vec<RefID>, id: usize) -> (r: bool)
    ensures
        r == in_ids(v@, id as int),
{
    let n = v.len();
    let mut i: usize = 0;
    while i < n
        invariant
            n == v@.len(),
            0 <= i <= n,
            forall|j: int| 0 <= j < i ==> v@[j].0 != id,
        decreases n - i,
    {
        if v[i].0 == id {
            return true;
        }
        i += 1;
    }
    false
}

/// Read the label key of one group of a labeled partition.
fn labeled_key_at(labeled: &Vec<(Label, Vec<(RefID, u16)>)>, i: usize) -> (r: Label)
    requires
        i < labeled@.len(),
    ensures
        r == labeled@[i as int].0,
{
    labeled[i].0
}

} // verus!
