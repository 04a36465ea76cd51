//! Symbolic access paths and their four-way comparison.
//!
//! A path names a memory location reachable from a root: a function
//! parameter, a local slot, a global resource, or an unknown origin. Each
//! step is either a concrete label or a wildcard standing for an unknown
//! extension; wildcards are tagged with the producing instruction and result
//! slot so that two distinct unknowns are never conflated.

use crate::references::RefID;
use vstd::prelude::*;

verus! {

/// A named offset: one step of an access path.
#[derive(Clone, Copy, Debug, PartialEq, Eq, Structural)]
pub enum Label {
    /// Function parameter slot.
    Parameter(u16),
    /// Global resource, identified by its struct definition index.
    Global(u16),
    /// Local variable slot.
    Local(u16),
    /// Field handle index.
    Field(u16),
}

/// One step of a path: a concrete label, or a wildcard produced at a given
/// instruction offset and result slot.
#[derive(Clone, Copy, Debug, PartialEq, Eq, Structural)]
pub enum Offset {
    Label(Label),
    /// An unknown extension. The two numbers identify the producing site:
    /// the code offset of the instruction and the ordinal of the result.
    Star(u16, u16),
}

/// The first step by which one path strictly extends another.
#[derive(Clone, Copy, Debug, PartialEq, Eq, Structural)]
pub enum Extension {
    Label(Label),
    Star,
}

/// Outcome of comparing two paths.
#[derive(Clone, Copy, Debug, PartialEq, Eq, Structural)]
pub enum Ordering {
    /// The paths may denote unrelated locations, e.g. `x.f` and `x.g`.
    Incomparable,
    /// The left path strictly extends the right one.
    LeftExtendsRight,
    /// Exactly equal.
    Equal,
    /// The right path strictly extends the left one, first by `Extension`.
    RightExtendsLeft(Extension),
}

/// Mathematical model of a path: its optional reference root and its steps.
#[verifier::ext_equal]
pub struct PathModel {
    pub root: Option<RefID>,
    pub offsets: Seq<Offset>,
}

/// A symbolic access path: an optional reference root followed by at least
/// one offset.
#[derive(Debug)]
pub struct Path {
    pub root: Option<RefID>,
    pub offsets: Vec<Offset>,
}

impl Clone for Path {
    /// A clone denotes exactly the same path.
    fn clone(&self) -> (r: Self)
        ensures
            r@ == self@,
    {
        let mut offsets: Vec<Offset> = Vec::new();
        let n = self.offsets.len();
        let mut i: usize = 0;
        while i < n
            invariant
                n == self.offsets@.len(),
                0 <= i <= n,
                offsets@ =~= self.offsets@.subrange(0, i as int),
            decreases n - i,
        {
            offsets.push(self.offsets[i]);
            i += 1;
        }
        proof {
            assert(offsets@ =~= self.offsets@);
        }
        Path { root: self.root, offsets }
    }
}

impl View for Path {
    type V = PathModel;

    open spec fn view(&self) -> PathModel {
        PathModel { root: self.root, offsets: self.offsets@ }
    }
}

/// A path must name at least one step.
pub open spec fn path_wf(p: PathModel) -> bool {
    p.offsets.len() > 0
}

/// The extension reported when the right path goes on with `o`.
pub open spec fn ext_of(o: Offset) -> Extension {
    match o {
        Offset::Label(l) => Extension::Label(l),
        Offset::Star(_, _) => Extension::Star,
    }
}

/// Compare two offset sequences that already agree on their (common) root.
/// `at_origin` is true only while the very first step of two unrooted paths
/// is under consideration: there a wildcard has an unknown origin and cannot
/// be related to a named root, so the paths are incomparable.
pub open spec fn cmp_offsets(a: Seq<Offset>, b: Seq<Offset>, at_origin: bool) -> Ordering
    decreases a.len() + b.len(),
{
    if a.len() == 0 && b.len() == 0 {
        Ordering::Equal
    } else if a.len() == 0 {
        Ordering::RightExtendsLeft(ext_of(b[0]))
    } else if b.len() == 0 {
        Ordering::LeftExtendsRight
    } else {
        match (a[0], b[0]) {
            (Offset::Label(x), Offset::Label(y)) => {
                if x == y {
                    cmp_offsets(a.drop_first(), b.drop_first(), false)
                } else {
                    Ordering::Incomparable
                }
            },
            (Offset::Star(i1, s1), Offset::Star(i2, s2)) => {
                if i1 == i2 && s1 == s2 {
                    cmp_offsets(a.drop_first(), b.drop_first(), false)
                } else {
                    Ordering::Incomparable
                }
            },
            (Offset::Star(_, _), Offset::Label(l)) => {
                if at_origin {
                    Ordering::Incomparable
                } else {
                    Ordering::RightExtendsLeft(Extension::Label(l))
                }
            },
            (Offset::Label(_), Offset::Star(_, _)) => {
                if at_origin {
                    Ordering::Incomparable
                } else {
                    Ordering::LeftExtendsRight
                }
            },
        }
    }
}

/// Full comparison: paths with different roots are incomparable; paths with
/// the same root are compared step by step. A wildcard at the origin of an
/// unrooted path has an unknown source and relates to nothing.
pub open spec fn cmp_paths(p: PathModel, q: PathModel) -> Ordering {
    if p.root != q.root {
        Ordering::Incomparable
    } else {
        cmp_offsets(p.offsets, q.offsets, p.root is None)
    }
}

impl Path {
    /// Build a path from its root and steps; a path names at least one step.
    pub fn new(ref_start: Option<RefID>, offsets: Vec<Offset>) -> (r: Path)
        requires
            offsets@.len() > 0,
        ensures
            r@ == (PathModel { root: ref_start, offsets: offsets@ }),
            path_wf(r@),
    {
        Path { root: ref_start, offsets }
    }

    /// The first step of the path.
    pub fn first(&self) -> (r: Offset)
        requires
            path_wf(self@),
        ensures
            r == self@.offsets[0],
    {
        self.offsets[0]
    }

    /// The root label of the path, if it starts with a concrete label and is
    /// not rooted at a reference.
    pub fn root_label(&self) -> (r: Option<Label>)
        requires
            path_wf(self@),
        ensures
            r == root_label_of(self@),
    {
        if self.root.is_some() {
            None
        } else {
            match self.offsets[0] {
                Offset::Label(l) => Some(l),
                Offset::Star(_, _) => None,
            }
        }
    }

    /// Structural equality of two paths.
    pub fn eq_path(&self, other: &Path) -> (r: bool)
        ensures
            r <==> self@ == other@,
    {
        let roots_eq = match (self.root, other.root) {
            (None, None) => true,
            (Some(a), Some(b)) => a == b,
            _ => false,
        };
        if !roots_eq {
            return false;
        }
        if self.offsets.len() != other.offsets.len() {
            assert(self@.offsets.len() != other@.offsets.len());
            return false;
        }
        let n = self.offsets.len();
        let mut i: usize = 0;
        while i < n
            invariant
                n == self.offsets@.len(),
                n == other.offsets@.len(),
                0 <= i <= n,
                self.root == other.root,
                forall|j: int| 0 <= j < i ==> self.offsets@[j] == other.offsets@[j],
            decreases n - i,
        {
            if self.offsets[i] != other.offsets[i] {
                return false;
            }
            i += 1;
        }
        assert(self@.offsets =~= other@.offsets);
        true
    }

    /// A copy of this path with one more step at the end.
    pub fn extended(&self, o: Offset) -> (r: Path)
        ensures
            r@.root == self@.root,
            r@.offsets == self@.offsets.push(o),
    {
        let mut offsets = self.offsets.clone();
        offsets.push(o);
        Path { root: self.root, offsets }
    }

    /// Compare this path (the left side) against `rhs` (the right side).
    pub fn compare(&self, rhs: &Path) -> (r: Ordering)
        requires
            path_wf(self@),
            path_wf(rhs@),
        ensures
            r == cmp_paths(self@, rhs@),
    {
        let roots_eq = match (self.root, rhs.root) {
            (None, None) => true,
            (Some(a), Some(b)) => a == b,
            _ => false,
        };
        if !roots_eq {
            return Ordering::Incomparable;
        }
        let at_origin_start = self.root.is_none();
        proof {
            assert(self@.root == rhs@.root);
            assert(self.offsets@.skip(0) =~= self.offsets@);
            assert(rhs.offsets@.skip(0) =~= rhs.offsets@);
        }
        let a_len = self.offsets.len();
        let b_len = rhs.offsets.len();
        let mut i: usize = 0;
        loop
            invariant
                a_len == self.offsets@.len(),
                b_len == rhs.offsets@.len(),
                0 <= i <= a_len,
                0 <= i <= b_len,
                cmp_paths(self@, rhs@) == cmp_offsets(
                    self.offsets@.skip(i as int),
                    rhs.offsets@.skip(i as int),
                    at_origin_start && i == 0,
                ),
            decreases a_len - i,
        {
            let ghost a_suf = self.offsets@.skip(i as int);
            let ghost b_suf = rhs.offsets@.skip(i as int);
            if i >= a_len && i >= b_len {
                assert(a_suf.len() == 0 && b_suf.len() == 0);
                return Ordering::Equal;
            }
            if i >= a_len {
                assert(a_suf.len() == 0 && b_suf.len() > 0);
                assert(b_suf[0] == rhs.offsets@[i as int]);
                return match rhs.offsets[i] {
                    Offset::Label(l) => Ordering::RightExtendsLeft(Extension::Label(l)),
                    Offset::Star(_, _) => Ordering::RightExtendsLeft(Extension::Star),
                };
            }
            if i >= b_len {
                assert(b_suf.len() == 0 && a_suf.len() > 0);
                return Ordering::LeftExtendsRight;
            }
            assert(a_suf[0] == self.offsets@[i as int]);
            assert(b_suf[0] == rhs.offsets@[i as int]);
            assert(a_suf.drop_first() =~= self.offsets@.skip(i + 1));
            assert(b_suf.drop_first() =~= rhs.offsets@.skip(i + 1));
            let at_origin = at_origin_start && i == 0;
            match (self.offsets[i], rhs.offsets[i]) {
                (Offset::Label(x), Offset::Label(y)) => {
                    if x != y {
                        return Ordering::Incomparable;
                    }
                },
                (Offset::Star(i1, s1), Offset::Star(i2, s2)) => {
                    if !(i1 == i2 && s1 == s2) {
                        return Ordering::Incomparable;
                    }
                },
                (Offset::Star(_, _), Offset::Label(l)) => {
                    return if at_origin {
                        Ordering::Incomparable
                    } else {
                        Ordering::RightExtendsLeft(Extension::Label(l))
                    };
                },
                (Offset::Label(_), Offset::Star(_, _)) => {
                    return if at_origin {
                        Ordering::Incomparable
                    } else {
                        Ordering::LeftExtendsRight
                    };
                },
            }
            i += 1;
        }
    }
}

/// The root label of a path: the first step, when it is a concrete label of
/// an unrooted path.
pub open spec fn root_label_of(p: PathModel) -> Option<Label> {
    if p.root is Some {
        None
    } else {
        match p.offsets[0] {
            Offset::Label(l) => Some(l),
            Offset::Star(_, _) => None,
        }
    }
}

proof fn lemma_cmp_offsets_dual(a: Seq<Offset>, b: Seq<Offset>, at_origin: bool)
    ensures
        cmp_offsets(a, b, at_origin) is Equal <==> cmp_offsets(b, a, at_origin) is Equal,
        cmp_offsets(a, b, at_origin) is Incomparable <==> cmp_offsets(
            b,
            a,
            at_origin,
        ) is Incomparable,
        cmp_offsets(a, b, at_origin) is RightExtendsLeft <==> cmp_offsets(
            b,
            a,
            at_origin,
        ) is LeftExtendsRight,
        cmp_offsets(a, b, at_origin) is Equal ==> a =~= b,
    decreases a.len() + b.len(),
{
    if a.len() == 0 && b.len() == 0 {
    } else if a.len() == 0 || b.len() == 0 {
    } else {
        match (a[0], b[0]) {
            (Offset::Label(x), Offset::Label(y)) => {
                if x == y {
                    lemma_cmp_offsets_dual(a.drop_first(), b.drop_first(), false);
                    if cmp_offsets(a, b, at_origin) is Equal {
                        lemma_eq_from_head_and_tail(a, b);
                    }
                }
            },
            (Offset::Star(i1, s1), Offset::Star(i2, s2)) => {
                if i1 == i2 && s1 == s2 {
                    lemma_cmp_offsets_dual(a.drop_first(), b.drop_first(), false);
                    if cmp_offsets(a, b, at_origin) is Equal {
                        lemma_eq_from_head_and_tail(a, b);
                    }
                }
            },
            _ => {},
        }
    }
}

proof fn lemma_eq_from_head_and_tail(a: Seq<Offset>, b: Seq<Offset>)
    requires
        a.len() > 0,
        b.len() > 0,
        a[0] == b[0],
        a.drop_first() == b.drop_first(),
    ensures
        a =~= b,
{
    assert(a.drop_first().len() == a.len() - 1);
    assert(b.drop_first().len() == b.len() - 1);
    assert(a.len() == b.len());
    assert forall|i: int| 0 <= i < a.len() implies a[i] == b[i] by {
        if i > 0 {
            assert(a[i] == a.drop_first()[i - 1]);
            assert(b[i] == b.drop_first()[i - 1]);
        }
    }
}

/// Ordering totality and duality: comparing any two well-formed paths yields
/// exactly one of the four outcomes, equality holds exactly for structurally
/// equal paths, and swapping the sides swaps the two extension directions
/// while preserving `Equal` and `Incomparable`.
pub proof fn lemma_compare_total_and_dual(p: PathModel, q: PathModel)
    requires
        path_wf(p),
        path_wf(q),
    ensures
        cmp_paths(p, q) is Equal || cmp_paths(p, q) is Incomparable || cmp_paths(
            p,
            q,
        ) is LeftExtendsRight || cmp_paths(p, q) is RightExtendsLeft,
        cmp_paths(p, q) is Equal <==> p == q,
        cmp_paths(p, q) is Incomparable <==> cmp_paths(q, p) is Incomparable,
        cmp_paths(p, q) is RightExtendsLeft <==> cmp_paths(q, p) is LeftExtendsRight,
{
    if p.root == q.root {
        lemma_cmp_offsets_dual(p.offsets, q.offsets, p.root is None);
        if cmp_paths(p, q) is Equal {
            assert(p.offsets =~= q.offsets);
            assert(p =~= q);
        }
        if p == q {
            lemma_cmp_refl_offsets(p.offsets, p.root is None);
        }
    }
}

proof fn lemma_cmp_refl_offsets(a: Seq<Offset>, at_origin: bool)
    ensures
        cmp_offsets(a, a, at_origin) is Equal,
    decreases a.len(),
{
    if a.len() > 0 {
        lemma_cmp_refl_offsets(a.drop_first(), false);
    }
}

proof fn lemma_cmp_offsets_rel_trans(a: Seq<Offset>, b: Seq<Offset>, c: Seq<Offset>, f: bool)
    requires
        cmp_offsets(a, b, f) is RightExtendsLeft,
        cmp_offsets(b, c, f) is RightExtendsLeft,
    ensures
        cmp_offsets(a, c, f) is RightExtendsLeft,
    decreases a.len() + b.len() + c.len(),
{
    assert(b.len() > 0);
    assert(c.len() > 0);
    if a.len() == 0 {
    } else {
        match (a[0], b[0]) {
            (Offset::Label(x), Offset::Label(y)) => {
                assert(x == y);
                match (b[0], c[0]) {
                    (Offset::Label(_), Offset::Label(z)) => {
                        if y == z {
                            lemma_cmp_offsets_rel_trans(
                                a.drop_first(),
                                b.drop_first(),
                                c.drop_first(),
                                false,
                            );
                        }
                    },
                    _ => {},
                }
            },
            (Offset::Star(i1, s1), Offset::Star(i2, s2)) => {
                assert(i1 == i2 && s1 == s2);
                match c[0] {
                    Offset::Star(i3, s3) => {
                        if i2 == i3 && s2 == s3 {
                            lemma_cmp_offsets_rel_trans(
                                a.drop_first(),
                                b.drop_first(),
                                c.drop_first(),
                                false,
                            );
                        }
                    },
                    Offset::Label(_) => {},
                }
            },
            (Offset::Star(_, _), Offset::Label(_)) => {},
            (Offset::Label(_), Offset::Star(_, _)) => {},
        }
    }
}

/// Covering composes: when `q` equals or extends `p` and `r` equals or
/// extends `q`, then `r` equals or extends `p`. With reflexivity this
/// makes the cover relation on paths a preorder.
pub proof fn lemma_compare_covering_trans(p: PathModel, q: PathModel, r: PathModel)
    requires
        path_wf(p),
        path_wf(q),
        path_wf(r),
        cmp_paths(p, q) is Equal || cmp_paths(p, q) is RightExtendsLeft,
        cmp_paths(q, r) is Equal || cmp_paths(q, r) is RightExtendsLeft,
    ensures
        cmp_paths(p, r) is Equal || cmp_paths(p, r) is RightExtendsLeft,
{
    lemma_compare_total_and_dual(p, q);
    lemma_compare_total_and_dual(q, r);
    if cmp_paths(p, q) is Equal {
        assert(p == q);
    } else if cmp_paths(q, r) is Equal {
        assert(q == r);
    } else {
        assert(p.root == q.root && q.root == r.root);
        lemma_cmp_offsets_rel_trans(p.offsets, q.offsets, r.offsets, p.root is None);
    }
}

/// Comparison of a well-formed path with itself is `Equal`; in particular a
/// path always covers itself.
pub proof fn lemma_compare_refl(p: PathModel)
    requires
        path_wf(p),
    ensures
        cmp_paths(p, p) is Equal,
{
    lemma_cmp_refl_offsets(p.offsets, p.root is None);
}

} // verus!
