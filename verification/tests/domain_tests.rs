use ref_safety::paths::{Extension, Label, Offset, Ordering, Path};
use ref_safety::references::RefID;
use ref_safety::set::{BorrowSet, QueryFilter};

fn path(offsets: Vec<Offset>) -> Path {
    Path::new(None, offsets)
}

fn lbl(l: Label) -> Offset {
    Offset::Label(l)
}

#[test]
fn compare_equal_and_extensions() {
    let p = path(vec![lbl(Label::Local(0))]);
    let q = path(vec![lbl(Label::Local(0)), lbl(Label::Field(1))]);
    assert_eq!(p.compare(&p), Ordering::Equal);
    assert_eq!(p.compare(&q), Ordering::RightExtendsLeft(Extension::Label(Label::Field(1))));
    assert_eq!(q.compare(&p), Ordering::LeftExtendsRight);
}

#[test]
fn compare_incomparable_roots_and_labels() {
    let p = path(vec![lbl(Label::Local(0))]);
    let q = path(vec![lbl(Label::Local(1))]);
    assert_eq!(p.compare(&q), Ordering::Incomparable);
    assert_eq!(q.compare(&p), Ordering::Incomparable);
    let f = path(vec![lbl(Label::Local(0)), lbl(Label::Field(0))]);
    let g = path(vec![lbl(Label::Local(0)), lbl(Label::Field(1))]);
    assert_eq!(f.compare(&g), Ordering::Incomparable);
}

#[test]
fn compare_wildcards() {
    // The same wildcard on both sides is consumed as equal.
    let a = path(vec![lbl(Label::Local(0)), Offset::Star(3, 0)]);
    let b = path(vec![lbl(Label::Local(0)), Offset::Star(3, 0)]);
    assert_eq!(a.compare(&b), Ordering::Equal);
    // Distinct wildcards are unrelated unknowns.
    let c = path(vec![lbl(Label::Local(0)), Offset::Star(4, 0)]);
    assert_eq!(a.compare(&c), Ordering::Incomparable);
    // A label specialises a wildcard past the origin.
    let d = path(vec![lbl(Label::Local(0)), lbl(Label::Field(2))]);
    assert_eq!(a.compare(&d), Ordering::RightExtendsLeft(Extension::Label(Label::Field(2))));
    assert_eq!(d.compare(&a), Ordering::LeftExtendsRight);
    // A wildcard at the origin of an unrooted path has an unknown source.
    let e = path(vec![Offset::Star(1, 0)]);
    let l = path(vec![lbl(Label::Local(0))]);
    assert_eq!(e.compare(&l), Ordering::Incomparable);
    assert_eq!(l.compare(&e), Ordering::Incomparable);
    // A released path ends in a wildcard that strictly extends its prefix.
    let s = path(vec![lbl(Label::Local(0)), Offset::Star(9, 0)]);
    assert_eq!(l.compare(&s), Ordering::RightExtendsLeft(Extension::Star));
}

#[test]
fn copy_preserves_paths() {
    let init = vec![(true, Some((0u16, Label::Local(0))))];
    let mut s = BorrowSet::new(&init);
    let copy = s.make_copy(5, RefID(0), true);
    // The copy denotes exactly the paths of its source: the two are
    // equal aliases in both directions.
    let conflicts = s.borrowed_by(RefID(0), &QueryFilter::empty());
    assert_eq!(conflicts.equal.len(), 1);
    assert_eq!(conflicts.equal[0].0, copy.0);
    assert_eq!(conflicts.existential.len(), 0);
    assert_eq!(conflicts.labeled.len(), 0);
    let back = s.borrowed_by(copy, &QueryFilter::empty());
    assert_eq!(back.equal.len(), 1);
    assert_eq!(back.equal[0].0, 0);
}

#[test]
fn release_removes_unpinned() {
    let init = vec![(true, Some((0u16, Label::Local(0))))];
    let mut s = BorrowSet::new(&init);
    let copy = s.make_copy(5, RefID(0), true);
    assert!(s.is_live(copy));
    s.release(copy);
    // The released id is gone, and no query reports it again.
    assert!(!s.is_live(copy));
    let conflicts = s.borrowed_by(RefID(0), &QueryFilter::empty());
    assert!(conflicts.is_empty());
    let roots = s.all_starting_with_label(Label::Local(0));
    assert_eq!(roots.len(), 1);
    let (root_id, _root_loc) = roots[0];
    assert_eq!(root_id.0, 0);
}

#[test]
fn release_of_pinned_empties() {
    let init = vec![(true, Some((0u16, Label::Local(0))))];
    let mut s = BorrowSet::new(&init);
    assert!(!s.is_pinned_released(RefID(0)));
    s.release(RefID(0));
    assert!(s.is_live(RefID(0)));
    assert!(s.is_pinned_released(RefID(0)));
}

#[test]
fn join_absorbs_covered_sets() {
    let init = vec![(true, Some((0u16, Label::Local(0))))];
    let a = BorrowSet::new(&init);
    let mut b = a.clone();
    b.release(RefID(0));
    // The bound side covers the released one, but not the other way.
    assert!(a.covers(&b));
    assert!(!b.covers(&a));
    // Joining the covered side into the covering one changes nothing.
    let j = a.join(&b);
    assert!(a.covers(&j));
    assert!(j.covers(&a));
    assert!(!j.is_pinned_released(RefID(0)));
}

#[test]
fn join_idempotent_and_commutative() {
    let init = vec![(true, Some((0u16, Label::Local(0)))), (false, None)];
    let a = BorrowSet::new(&init);
    let jaa = a.join(&a);
    assert!(jaa.covers(&a));
    assert!(a.covers(&jaa));
    let mut b = a.clone();
    b.release(RefID(0));
    let jab = a.join(&b);
    let jba = b.join(&a);
    assert!(jab.covers(&jba));
    assert!(jba.covers(&jab));
}

#[test]
fn extension_conflicts_are_classified() {
    let init = vec![(true, Some((0u16, Label::Local(0))))];
    let mut s = BorrowSet::new(&init);
    let sources = vec![RefID(0)];
    let field_ref = s.extend_by_label(&sources, 1, true, Label::Field(4));
    let star_ref = s.extend_by_unknown(&sources, 2, false, 2, 0);
    let conflicts = s.borrowed_by(RefID(0), &QueryFilter::empty());
    assert_eq!(conflicts.equal.len(), 0);
    assert_eq!(conflicts.existential.len(), 1);
    let (star_id, star_loc) = conflicts.existential[0];
    assert_eq!(star_id.0, star_ref.0);
    // The recorded location is where the extending path was created.
    assert_eq!(star_loc, 2);
    assert_eq!(conflicts.labeled.len(), 1);
    assert_eq!(conflicts.labeled[0].0, Label::Field(4));
    let (field_id, field_loc) = conflicts.labeled[0].1[0];
    assert_eq!(field_id.0, field_ref.0);
    assert_eq!(field_loc, 1);
    // Filtered to mutable references only, the wildcard extension — an
    // immutable reference — disappears.
    let mut_only = s.borrowed_by(RefID(0), &QueryFilter::empty().is_mutable(true));
    assert_eq!(mut_only.existential.len(), 0);
    assert_eq!(mut_only.labeled.len(), 1);
    // The children report the pinned root as their parent.
    let parents = s.borrows_from(field_ref, &QueryFilter::empty());
    assert_eq!(parents.labeled.len(), 1);
    let (parent_id, _parent_loc) = parents.labeled[0].1[0];
    assert_eq!(parent_id.0, 0);
}

#[test]
fn starting_with_queries() {
    let init = vec![(true, Some((0u16, Label::Local(3)))), (false, Some((0u16, Label::Global(7))))];
    let s = BorrowSet::new(&init);
    let locals = s.all_starting_with_label(Label::Local(3));
    assert_eq!(locals.len(), 1);
    let (local_id, local_loc) = locals[0];
    assert_eq!(local_id.0, 0);
    assert_eq!(local_loc, 0);
    let globals = s.all_starting_with_label(Label::Global(7));
    assert_eq!(globals.len(), 1);
    let (global_id, _) = globals[0];
    assert_eq!(global_id.0, 1);
    assert_eq!(s.all_starting_with_label(Label::Local(4)).len(), 0);
}
