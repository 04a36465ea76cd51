//! A single reference of the borrow set: its mutability, its pinned bit,
//! and the set of access paths it may denote.

use crate::paths::{cmp_paths, path_wf, Offset, Path, PathModel};
use vstd::prelude::*;

verus! {

/// Unique identifier for a reference, stable within one abstract state.
#[derive(Clone, Copy, Debug, PartialEq, Eq, Structural)]
pub struct RefID(pub usize);

/// A path together with the source location (a code offset) at which it was
/// added. The location attaches diagnostics and is not part of path
/// equality.
#[derive(Debug)]
pub struct BorrowPath {
    /// Code offset of the instruction that created this path.
    pub loc: u16,
    /// The path data.
    pub path: Path,
}

impl Clone for BorrowPath {
    /// A clone carries the same location and denotes the same path.
    fn clone(&self) -> (r: Self)
        ensures
            r.loc == self.loc,
            r.path@ == self.path@,
    {
        BorrowPath { loc: self.loc, path: self.path.clone() }
    }
}

/// Mathematical model of a reference: the location tags are dropped, the
/// path collection is a set.
#[verifier::ext_equal]
pub struct RefModel {
    pub mutable: bool,
    pub pinned: bool,
    pub paths: Set<PathModel>,
}

/// A reference of the borrow set.
#[derive(Debug)]
pub struct Ref {
    pub mutable: bool,
    pub pinned: bool,
    pub paths: Vec<BorrowPath>,
}

impl Clone for Ref {
    /// A clone models the same reference, path for path.
    fn clone(&self) -> (r: Self)
        ensures
            r@ == self@,
            r.paths_vec().len() == self.paths_vec().len(),
            forall|i: int|
                0 <= i < self.paths_vec().len() ==> #[trigger] r.paths_vec()[i].path@
                    == self.paths_vec()[i].path@ && r.paths_vec()[i].loc
                    == self.paths_vec()[i].loc,
            ref_wf(*self) ==> ref_wf(r),
    {
        let mut paths: Vec<BorrowPath> = Vec::new();
        let n = self.paths.len();
        let mut i: usize = 0;
        while i < n
            invariant
                n == self.paths@.len(),
                0 <= i <= n,
                paths@.len() == i,
                forall|j: int|
                    0 <= j < i ==> #[trigger] paths@[j].path@ == self.paths@[j].path@
                        && paths@[j].loc == self.paths@[j].loc,
            decreases n - i,
        {
            paths.push(self.paths[i].clone());
            i += 1;
        }
        let r = Ref { mutable: self.mutable, pinned: self.pinned, paths };
        proof {
            assert forall|p: PathModel| paths_set(r.paths@).contains(p) implies paths_set(
                self.paths@,
            ).contains(p) by {
                let k = choose|k: int| 0 <= k < r.paths@.len() && r.paths@[k].path@ == p;
                assert(self.paths@[k].path@ == p);
            }
            assert forall|p: PathModel| paths_set(self.paths@).contains(p) implies paths_set(
                r.paths@,
            ).contains(p) by {
                let k = choose|k: int| 0 <= k < self.paths@.len() && self.paths@[k].path@ == p;
                assert(r.paths@[k].path@ == p);
            }
            assert(paths_set(r.paths@) =~= paths_set(self.paths@));
            assert(r@ =~= self@);
        }
        r
    }
}

/// The set of path models held by a sequence of located paths.
pub open spec fn paths_set(ps: Seq<BorrowPath>) -> Set<PathModel> {
    Set::new(|p: PathModel| exists|i: int| 0 <= i < ps.len() && ps[i].path@ == p)
}

impl View for Ref {
    type V = RefModel;

    open spec fn view(&self) -> RefModel {
        RefModel { mutable: self.mutable, pinned: self.pinned, paths: paths_set(self.paths@) }
    }
}

/// Every path of a reference is well-formed, and no two entries hold the
/// same path.
pub open spec fn ref_wf(r: Ref) -> bool {
    &&& forall|i: int| 0 <= i < r.paths_vec().len() ==> path_wf(#[trigger] r.paths_vec()[i].path@)
    &&& forall|i: int, j: int|
        0 <= i < j < r.paths_vec().len() ==> r.paths_vec()[i].path@ != r.paths_vec()[j].path@
}

impl Ref {
    /// The underlying sequence of located paths, for specification use.
    pub open spec fn paths_vec(&self) -> Seq<BorrowPath> {
        self.paths@
    }

    /// A new reference with the given mutability, pinned bit, and paths.
    pub fn new(mutable: bool, pinned: bool, paths: Vec<BorrowPath>) -> (r: Ref)
        requires
            forall|i: int| 0 <= i < paths@.len() ==> path_wf(#[trigger] paths@[i].path@),
            forall|i: int, j: int|
                0 <= i < j < paths@.len() ==> paths@[i].path@ != paths@[j].path@,
        ensures
            r@ == (RefModel { mutable, pinned, paths: paths_set(paths@) }),
            r.paths_vec() == paths@,
            ref_wf(r),
    {
        Ref { mutable, pinned, paths }
    }

    /// Whether the reference is mutable.
    pub fn is_mutable(&self) -> (r: bool)
        ensures
            r == self@.mutable,
    {
        self.mutable
    }

    /// Whether the reference is pinned to a local slot or parameter.
    pub fn is_pinned(&self) -> (r: bool)
        ensures
            r == self@.pinned,
    {
        self.pinned
    }

    /// The number of stored paths; zero exactly when the path set is empty.
    pub fn num_paths(&self) -> (r: usize)
        ensures
            r == self.paths_vec().len(),
            r == 0 <==> self@.paths =~= Set::<PathModel>::empty(),
    {
        proof {
            if self.paths@.len() == 0 {
                assert(paths_set(self.paths@) =~= Set::<PathModel>::empty());
            } else {
                assert(paths_set(self.paths@).contains(self.paths@[0].path@));
            }
        }
        self.paths.len()
    }

    /// Read one stored path.
    pub fn path_at(&self, i: usize) -> (r: &BorrowPath)
        requires
            i < self.paths_vec().len(),
        ensures
            r == self.paths_vec()[i as int],
            self@.paths.contains(r.path@),
    {
        proof {
            assert(paths_set(self.paths@).contains(self.paths@[i as int].path@));
        }
        &self.paths[i]
    }

    /// Turn the reference immutable; used by a freeze.
    pub fn freeze(&mut self)
        ensures
            final(self)@ == (RefModel { mutable: false, ..old(self)@ }),
            final(self).paths_vec() == old(self).paths_vec(),
            ref_wf(*old(self)) ==> ref_wf(*final(self)),
    {
        self.mutable = false;
    }

    /// Add one path unless an equal path is already present.
    pub fn add_path(&mut self, additional: BorrowPath)
        requires
            ref_wf(*old(self)),
            path_wf(additional.path@),
        ensures
            ref_wf(*final(self)),
            final(self)@ == (RefModel {
                paths: old(self)@.paths.insert(additional.path@),
                ..old(self)@
            }),
            final(self)@.mutable == old(self)@.mutable,
            final(self)@.pinned == old(self)@.pinned,
    {
        let n = self.paths.len();
        let mut i: usize = 0;
        while i < n
            invariant
                n == self.paths@.len(),
                0 <= i <= n,
                *self == *old(self),
                ref_wf(*self),
                path_wf(additional.path@),
                forall|j: int| 0 <= j < i ==> self.paths@[j].path@ != additional.path@,
            decreases n - i,
        {
            if self.paths[i].path.eq_path(&additional.path) {
                proof {
                    assert(paths_set(self.paths@).contains(additional.path@));
                    assert(paths_set(self.paths@) =~= paths_set(self.paths@).insert(
                        additional.path@,
                    ));
                    assert(ref_wf(*self));
                    assert(self@ =~= (RefModel {
                        paths: old(self)@.paths.insert(additional.path@),
                        ..old(self)@
                    }));
                }
                return;
            }
            i += 1;
        }
        let ghost old_paths = self.paths@;
        self.paths.push(additional);
        proof {
            assert forall|p: PathModel| paths_set(self.paths@).contains(p) implies paths_set(
                old_paths,
            ).insert(additional.path@).contains(p) by {
                let k = choose|k: int|
                    0 <= k < self.paths@.len() && self.paths@[k].path@ == p;
                if k < old_paths.len() {
                    assert(old_paths[k].path@ == p);
                }
            }
            assert forall|p: PathModel|
                paths_set(old_paths).insert(additional.path@).contains(p) implies paths_set(
                self.paths@,
            ).contains(p) by {
                if p == additional.path@ {
                    assert(self.paths@[self.paths@.len() - 1].path@ == p);
                } else {
                    let k = choose|k: int| 0 <= k < old_paths.len() && old_paths[k].path@ == p;
                    assert(self.paths@[k].path@ == p);
                }
            }
            assert(paths_set(self.paths@) =~= paths_set(old_paths).insert(additional.path@));
        }
    }

    /// Remove every path: used when a pinned slot is released.
    pub fn clear_paths(&mut self)
        ensures
            ref_wf(*final(self)),
            final(self)@ == (RefModel { paths: Set::<PathModel>::empty(), ..old(self)@ }),
    {
        self.paths = Vec::new();
        proof {
            assert(paths_set(self.paths@) =~= Set::<PathModel>::empty());
        }
    }
}

} // verus!
