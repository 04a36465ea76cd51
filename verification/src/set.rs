//! The borrow set: an ordered collection of references, each holding the
//! set of access paths it may denote, together with the mutation and query
//! primitives of the abstract domain and the `covers` / `join` pair used by
//! fixed-point iteration.

use crate::paths::{cmp_paths, path_wf, Extension, Label, Offset, Ordering, Path, PathModel};
use crate::references::{paths_set, ref_wf, BorrowPath, Ref, RefID, RefModel};
use vstd::prelude::*;

verus! {

/// The borrow set. A reference's identifier is its index; a released
/// non-pinned reference leaves a hole, so identifiers stay stable. New
/// identifiers are issued densely at the end.
#[derive(Debug)]
pub struct BorrowSet {
    pub refs: Vec<Option<Ref>>,
}

/// Reference `id` is live in `s`: within bounds and not removed.
pub open spec fn live(s: BorrowSet, id: int) -> bool {
    0 <= id < s.refs@.len() && s.refs@[id] is Some
}

/// The model of live reference `id`.
pub open spec fn at(s: BorrowSet, id: int) -> RefModel {
    s.refs@[id]->0@
}

/// Every stored path of every live reference is well-formed, and no
/// reference stores the same path twice.
pub open spec fn bs_wf(s: BorrowSet) -> bool {
    forall|id: int| #[trigger] live(s, id) ==> ref_wf(s.refs@[id]->0)
}

/// Two sets describe the same world: same identifier universe, same live
/// identifiers, and identical mutability and pinned bits on each.
pub open spec fn consistent_world(s1: BorrowSet, s2: BorrowSet) -> bool {
    &&& s1.refs@.len() == s2.refs@.len()
    &&& forall|id: int|
        #![trigger live(s1, id)]
        #![trigger live(s2, id)]
        live(s1, id) <==> live(s2, id)
    &&& forall|id: int|
        #![trigger at(s1, id)]
        #![trigger at(s2, id)]
        live(s1, id) ==> at(s1, id).mutable == at(s2, id).mutable && at(s1, id).pinned == at(
            s2,
            id,
        ).pinned
}

/// The path set of a reference freshly extended from `sources` by the
/// offset `o`: every path of every source, one step longer. With no
/// sources, the extension starts a new root: the single path `[o]`.
pub open spec fn ext_paths(s: BorrowSet, sources: Seq<RefID>, o: Offset) -> Set<PathModel> {
    if sources.len() == 0 {
        Set::<PathModel>::empty().insert(
            PathModel { root: None, offsets: Seq::<Offset>::empty().push(o) },
        )
    } else {
        Set::new(
            |q: PathModel|
                exists|k: int, p: PathModel|
                    0 <= k < sources.len() && #[trigger] at(s, sources[k].0 as int).paths.contains(
                        p,
                    ) && q == (PathModel { root: p.root, offsets: p.offsets.push(o) }),
        )
    }
}

/// Membership of a reference id in a list of identifiers.
pub open spec fn in_ids(v: Seq<RefID>, id: int) -> bool {
    exists|i: int| 0 <= i < v.len() && v[i].0 == id
}

/// Membership of a label among located label entries.
pub open spec fn in_lbl_pairs(v: Seq<(Label, u16)>, l: Label) -> bool {
    exists|i: int| 0 <= i < v.len() && (#[trigger] v[i]).0 == l
}

/// The identifier of a located entry.
pub open spec fn pair_id(e: (RefID, u16)) -> int {
    (e.0).0 as int
}

/// The recorded source location of a located entry.
pub open spec fn pair_loc(e: (RefID, u16)) -> u16 {
    e.1
}

/// Membership of a reference id among located entries.
pub open spec fn in_id_locs(v: Seq<(RefID, u16)>, id: int) -> bool {
    exists|i: int| 0 <= i < v.len() && pair_id(#[trigger] v[i]) == id
}

/// Membership of `(lbl, id)` in a label-keyed grouping of located
/// entries.
pub open spec fn in_labeled(v: Seq<(Label, Vec<(RefID, u16)>)>, lbl: Label, id: int) -> bool {
    exists|i: int| 0 <= i < v.len() && v[i].0 == lbl && in_id_locs(v[i].1@, id)
}

/// The located entry `e` stands under label `lbl` in the grouping.
pub open spec fn located_in(v: Seq<(Label, Vec<(RefID, u16)>)>, lbl: Label, e: (RefID, u16)) -> bool {
    exists|i: int, k: int|
        0 <= i < v.len() && v[i].0 == lbl && 0 <= k < v[i].1@.len() && (#[trigger] v[i].1@[k])
            == e
}

/// Some path of `left` compares as `o` against a path of `right` that was
/// recorded at the source location `loc`.
pub open spec fn pair_rel_at(s: BorrowSet, left: int, right: int, o: Ordering, loc: u16) -> bool {
    exists|p: PathModel, qi: int|
        #![trigger at(s, left).paths.contains(p), s.refs@[right]->0.paths_vec()[qi]]
        at(s, left).paths.contains(p) && 0 <= qi < s.refs@[right]->0.paths_vec().len()
            && cmp_paths(p, s.refs@[right]->0.paths_vec()[qi].path@) == o
            && s.refs@[right]->0.paths_vec()[qi].loc == loc
}

/// Some path of reference `id` begins at the root label `lbl` and was
/// recorded at the source location `loc`.
pub open spec fn starts_with_label_at(s: BorrowSet, id: int, lbl: Label, loc: u16) -> bool {
    exists|qi: int|
        0 <= qi < s.refs@[id]->0.paths_vec().len() && crate::paths::root_label_of(
            (#[trigger] s.refs@[id]->0.paths_vec()[qi]).path@,
        ) == Some(lbl) && s.refs@[id]->0.paths_vec()[qi].loc == loc
}

/// Some path of reference `id` begins at a root label the predicate
/// selects and was recorded at the source location `loc`.
pub open spec fn starts_with_matching_at(
    s: BorrowSet,
    id: int,
    pred: LabelPredicate,
    loc: u16,
) -> bool {
    exists|qi: int, l: Label|
        #![trigger s.refs@[id]->0.paths_vec()[qi], lp_matches(pred, l)]
        0 <= qi < s.refs@[id]->0.paths_vec().len() && crate::paths::root_label_of(
            s.refs@[id]->0.paths_vec()[qi].path@,
        ) == Some(l) && lp_matches(pred, l) && s.refs@[id]->0.paths_vec()[qi].loc == loc
}

/// Some path of reference `id` is rooted at the reference `root` and was
/// recorded at the source location `loc`.
pub open spec fn starts_with_ref_at(s: BorrowSet, id: int, root: int, loc: u16) -> bool {
    exists|qi: int|
        0 <= qi < s.refs@[id]->0.paths_vec().len() && ((#[trigger] s.refs@[id]->0.paths_vec()[qi]).path@).root
            == Some(RefID(root as usize)) && s.refs@[id]->0.paths_vec()[qi].loc == loc
}

/// There are paths `p` of `left` and `q` of `right` whose comparison, left
/// against right, yields exactly `o`.
pub open spec fn pair_rel(s: BorrowSet, left: int, right: int, o: Ordering) -> bool {
    exists|p: PathModel, q: PathModel|
        at(s, left).paths.contains(p) && at(s, right).paths.contains(q) && cmp_paths(p, q) == o
}

/// The same relation over stored path sequences, restricted to the pairs
/// scanned so far: all pairs with a left index below `i`, and the pairs of
/// left index `i` with right index below `j`.
pub open spec fn vec_pair_rel(
    lv: Seq<BorrowPath>,
    rv: Seq<BorrowPath>,
    i: int,
    j: int,
    o: Ordering,
) -> bool {
    (exists|a: int, b: int|
        0 <= a < i && 0 <= b < rv.len() && cmp_paths(lv[a].path@, rv[b].path@) == o) || (exists|
        b: int,
    |
        0 <= b < j && i < lv.len() && cmp_paths(lv[i].path@, rv[b].path@) == o)
}

/// Some path of reference `id` begins at the root label `lbl`.
pub open spec fn starts_with_label(s: BorrowSet, id: int, lbl: Label) -> bool {
    exists|p: PathModel|
        at(s, id).paths.contains(p) && crate::paths::root_label_of(p) == Some(lbl)
}

/// Some path of reference `id` is rooted at the reference `root`.
pub open spec fn starts_with_ref(s: BorrowSet, id: int, root: int) -> bool {
    exists|p: PathModel| at(s, id).paths.contains(p) && p.root == Some(RefID(root as usize))
}

/// Whether some path of the set `ps` covers `q`: is equal to it or is
/// strictly extended by it.
pub open spec fn path_covered(ps: Set<PathModel>, q: PathModel) -> bool {
    exists|p: PathModel| ps.contains(p) && (cmp_paths(p, q) is Equal || cmp_paths(p, q) is RightExtendsLeft)
}

/// Every path of `qs` is covered by some path of `ps`.
pub open spec fn set_covers(ps: Set<PathModel>, qs: Set<PathModel>) -> bool {
    forall|q: PathModel| #[trigger] qs.contains(q) ==> path_covered(ps, q)
}

/// `s` covers `o`: on every reference, each path of `o` is equal to or an
/// extension of some path of `s`. The preorder driving fixed-point
/// iteration.
pub open spec fn covers_spec(s: BorrowSet, o: BorrowSet) -> bool {
    forall|id: int| #[trigger] live(o, id) ==> set_covers(at(s, id).paths, at(o, id).paths)
}

/// The path set of one reference after a join: the left side's paths,
/// together with those paths of the right side that no left path covers.
#[verifier::opaque]
pub open spec fn joined_paths(ps: Set<PathModel>, qs: Set<PathModel>) -> Set<PathModel> {
    ps.union(Set::new(|q: PathModel| qs.contains(q) && !path_covered(ps, q)))
}

/// `j` is the join of `a` with `b`: the same world, with each reference
/// denoting its `a`-paths plus the uncovered `b`-paths.
pub open spec fn is_join_of(j: BorrowSet, a: BorrowSet, b: BorrowSet) -> bool {
    &&& j.refs@.len() == a.refs@.len()
    &&& forall|id: int| live(j, id) <==> live(a, id)
    &&& forall|id: int|
        #[trigger] live(a, id) ==> at(j, id) == (RefModel {
            paths: joined_paths(at(a, id).paths, at(b, id).paths),
            ..at(a, id)
        })
}

/// Restricts a query to a candidate set of references and/or to references
/// of one mutability.
#[derive(Debug)]
pub struct QueryFilter {
    /// Only report references in this set, when present.
    pub mask: Option<Vec<RefID>>,
    /// Only report references of this mutability, when present.
    pub mutable: Option<bool>,
}

/// A live reference `oid` other than `id` passes the filter.
pub open spec fn filter_passes(s: BorrowSet, f: QueryFilter, id: int, oid: int) -> bool {
    &&& live(s, oid)
    &&& oid != id
    &&& match f.mask {
        Some(m) => in_ids(m@, oid),
        None => true,
    }
    &&& match f.mutable {
        Some(b) => at(s, oid).mutable == b,
        None => true,
    }
}

impl QueryFilter {
    /// The filter that restricts nothing.
    pub fn empty() -> (r: QueryFilter)
        ensures
            r.mask is None,
            r.mutable is None,
    {
        QueryFilter { mask: None, mutable: None }
    }

    /// Restrict to references of the given mutability.
    pub fn is_mutable(self, mutable: bool) -> (r: QueryFilter)
        ensures
            r.mask == self.mask,
            r.mutable == Some(mutable),
    {
        QueryFilter { mutable: Some(mutable), ..self }
    }

    /// Restrict to the given candidate references.
    pub fn candidates(self, candidates: Vec<RefID>) -> (r: QueryFilter)
        ensures
            r.mask == Some(candidates),
            r.mutable == self.mutable,
    {
        QueryFilter { mask: Some(candidates), ..self }
    }
}

/// The references that conflict with a queried reference, partitioned by
/// how the other side extends it: sharing a path exactly, extending it at a
/// wildcard, or extending it at a concrete label.
#[derive(Debug)]
pub struct Conflicts {
    /// References holding a path equal to a path of the queried one.
    pub equal: Vec<RefID>,
    /// References strictly extending a path of the queried one at a
    /// wildcard, each with the location of an extending path.
    pub existential: Vec<(RefID, u16)>,
    /// References strictly extending a path of the queried one at a
    /// concrete label, grouped by that label, each with the location of
    /// an extending path.
    pub labeled: Vec<(Label, Vec<(RefID, u16)>)>,
}

/// The references that a queried reference borrows from, partitioned the
/// same way: equal, extended at a wildcard, extended at a label.
#[derive(Debug)]
pub struct Parents {
    /// Not quite parents: references holding an exactly equal path.
    pub equal: Vec<RefID>,
    /// References the queried one extends at a wildcard, each with the
    /// location of the extending path of the queried reference.
    pub existential: Vec<(RefID, u16)>,
    /// References the queried one extends at a concrete label, each with
    /// the location of the extending path of the queried reference.
    pub labeled: Vec<(Label, Vec<(RefID, u16)>)>,
}

/// Every inner group of a label-keyed grouping is non-empty.
pub open spec fn labeled_wf(v: Seq<(Label, Vec<(RefID, u16)>)>) -> bool {
    forall|i: int| 0 <= i < v.len() ==> #[trigger] v[i].1@.len() > 0
}

impl Conflicts {
    /// The three partitions are all well formed.
    pub open spec fn wf(&self) -> bool {
        labeled_wf(self.labeled@)
    }

    /// No conflict of any kind was found.
    pub fn is_empty(&self) -> (r: bool)
        requires
            self.wf(),
        ensures
            r <==> ((forall|oid: int| !in_ids(self.equal@, oid)) && (forall|oid: int|
                !in_id_locs(self.existential@, oid)) && (forall|lbl: Label, oid: int|
                !in_labeled(self.labeled@, lbl, oid))),
    {
        let r = self.equal.len() == 0 && self.existential.len() == 0 && self.labeled.len() == 0;
        proof {
            if r {
                assert forall|oid: int| !in_ids(self.equal@, oid) by {}
                assert forall|oid: int| !in_id_locs(self.existential@, oid) by {}
                assert forall|lbl: Label, oid: int| !in_labeled(self.labeled@, lbl, oid) by {}
            } else {
                if self.equal@.len() > 0 {
                    assert(in_ids(self.equal@, self.equal@[0].0 as int));
                } else if self.existential@.len() > 0 {
                    assert(in_id_locs(self.existential@, pair_id(self.existential@[0])));
                } else {
                    assert(self.labeled@[0].1@.len() > 0);
                    assert(in_id_locs(self.labeled@[0].1@, pair_id(self.labeled@[0].1@[0])));
                    assert(in_labeled(
                        self.labeled@,
                        self.labeled@[0].0,
                        pair_id(self.labeled@[0].1@[0]),
                    ));
                }
            }
        }
        r
    }
}

impl Parents {
    /// The three partitions are all well formed.
    pub open spec fn wf(&self) -> bool {
        labeled_wf(self.labeled@)
    }

    /// No parent of any kind was found.
    pub fn is_empty(&self) -> (r: bool)
        requires
            self.wf(),
        ensures
            r <==> ((forall|oid: int| !in_ids(self.equal@, oid)) && (forall|oid: int|
                !in_id_locs(self.existential@, oid)) && (forall|lbl: Label, oid: int|
                !in_labeled(self.labeled@, lbl, oid))),
    {
        let r = self.equal.len() == 0 && self.existential.len() == 0 && self.labeled.len() == 0;
        proof {
            if !r {
                if self.equal@.len() > 0 {
                    assert(in_ids(self.equal@, self.equal@[0].0 as int));
                } else if self.existential@.len() > 0 {
                    assert(in_id_locs(self.existential@, pair_id(self.existential@[0])));
                } else {
                    assert(self.labeled@[0].1@.len() > 0);
                    assert(in_id_locs(self.labeled@[0].1@, pair_id(self.labeled@[0].1@[0])));
                    assert(in_labeled(
                        self.labeled@,
                        self.labeled@[0].0,
                        pair_id(self.labeled@[0].1@[0]),
                    ));
                }
            }
        }
        r
    }
}

/// Selects labels by their kind; used to ask which references are rooted
/// at any local, global, parameter or field root.
#[derive(Clone, Copy, Debug)]
pub struct LabelPredicate {
    pub parameter: bool,
    pub global: bool,
    pub local: bool,
    pub field: bool,
}

/// Whether the predicate selects the label's kind.
pub open spec fn lp_matches(pred: LabelPredicate, l: Label) -> bool {
    match l {
        Label::Parameter(_) => pred.parameter,
        Label::Global(_) => pred.global,
        Label::Local(_) => pred.local,
        Label::Field(_) => pred.field,
    }
}

impl LabelPredicate {
    /// Whether the predicate selects the label's kind.
    pub fn matches(&self, l: Label) -> (r: bool)
        ensures
            r == lp_matches(*self, l),
    {
        match l {
            Label::Parameter(_) => self.parameter,
            Label::Global(_) => self.global,
            Label::Local(_) => self.local,
            Label::Field(_) => self.field,
        }
    }
}

/// Some path of reference `id` starts at a root label selected by `pred`.
pub open spec fn starts_with_matching(s: BorrowSet, id: int, pred: LabelPredicate) -> bool {
    exists|p: PathModel, l: Label|
        at(s, id).paths.contains(p) && crate::paths::root_label_of(p) == Some(l) && lp_matches(
            pred,
            l,
        )
}

/// Pushing an id extends membership by exactly that id.
#[verifier::rlimit(50)]
pub proof fn lemma_in_ids_push(v: Seq<RefID>, x: RefID)
    ensures
        forall|o: int| #[trigger] in_ids(v.push(x), o) <==> in_ids(v, o) || o == x.0,
{
    assert forall|o: int| in_ids(v.push(x), o) <==> in_ids(v, o) || o == x.0 by {
        if in_ids(v.push(x), o) {
            let i = choose|i: int| 0 <= i < v.push(x).len() && v.push(x)[i].0 == o;
            if i < v.len() {
                assert(v[i].0 == o);
            }
        }
        if in_ids(v, o) {
            let i = choose|i: int| 0 <= i < v.len() && v[i].0 == o;
            assert(v.push(x)[i].0 == o);
        }
        if o == x.0 {
            assert(v.push(x)[v.len() as int].0 == o);
        }
    }
}

proof fn lemma_in_lbl_pairs_push(v: Seq<(Label, u16)>, x: (Label, u16))
    ensures
        forall|l: Label| #[trigger] in_lbl_pairs(v.push(x), l) <==> in_lbl_pairs(v, l) || l
            == x.0,
{
    assert forall|l: Label| #[trigger] in_lbl_pairs(v.push(x), l) <==> in_lbl_pairs(v, l) || l
        == x.0 by {
        if in_lbl_pairs(v.push(x), l) {
            let i = choose|i: int| 0 <= i < v.push(x).len() && (#[trigger] v.push(x)[i]).0 == l;
            if i < v.len() {
                assert(v[i].0 == l);
            }
        }
        if in_lbl_pairs(v, l) {
            let i = choose|i: int| 0 <= i < v.len() && (#[trigger] v[i]).0 == l;
            assert(v.push(x)[i].0 == l);
        }
        if l == x.0 {
            assert(v.push(x)[v.len() as int].0 == l);
        }
    }
}

/// Whether some stored path of `rr` covers `q`: compares `q` against each
/// stored path in turn.
fn path_is_covered(rr: &Ref, q: &Path) -> (r: bool)
    requires
        ref_wf(*rr),
        path_wf(q@),
    ensures
        r == path_covered(rr@.paths, q@),
{
    let n = rr.num_paths();
    let mut k: usize = 0;
    while k < n
        invariant
            n == rr.paths_vec().len(),
            0 <= k <= n,
            ref_wf(*rr),
            path_wf(q@),
            forall|k2: int|
                0 <= k2 < k ==> !(cmp_paths(#[trigger] rr.paths_vec()[k2].path@, q@) is Equal
                    || cmp_paths(rr.paths_vec()[k2].path@, q@) is RightExtendsLeft),
        decreases n - k,
    {
        let bp = rr.path_at(k);
        match bp.path.compare(q) {
            Ordering::Equal => {
                proof {
                    assert(rr@.paths.contains(rr.paths_vec()[k as int].path@));
                }
                return true;
            },
            Ordering::RightExtendsLeft(_) => {
                proof {
                    assert(rr@.paths.contains(rr.paths_vec()[k as int].path@));
                }
                return true;
            },
            _ => {},
        }
        k += 1;
    }
    proof {
        if path_covered(rr@.paths, q@) {
            let p = choose|p: PathModel|
                rr@.paths.contains(p) && (cmp_paths(p, q@) is Equal || cmp_paths(
                    p,
                    q@,
                ) is RightExtendsLeft);
            let k2 = choose|k2: int|
                0 <= k2 < rr.paths_vec().len() && rr.paths_vec()[k2].path@ == p;
            assert(cmp_paths(rr.paths_vec()[k2].path@, q@) == cmp_paths(p, q@));
        }
    }
    false
}

/// Whether a label occurs among located label entries.
fn contains_lbl_pair(v: &Vec<(Label, u16)>, l: Label) -> (r: bool)
    ensures
        r == in_lbl_pairs(v@, l),
{
    let n = v.len();
    let mut i: usize = 0;
    while i < n
        invariant
            n == v@.len(),
            0 <= i <= n,
            forall|j: int| 0 <= j < i ==> (#[trigger] v@[j]).0 != l,
        decreases n - i,
    {
        if v[i].0 == l {
            return true;
        }
        i += 1;
    }
    false
}

/// Pushing a located entry extends id membership by exactly its id.
pub proof fn lemma_in_id_locs_push(v: Seq<(RefID, u16)>, x: (RefID, u16))
    ensures
        forall|o: int| #[trigger] in_id_locs(v.push(x), o) <==> in_id_locs(v, o) || o == pair_id(
            x,
        ),
{
    assert forall|o: int| #[trigger] in_id_locs(v.push(x), o) <==> in_id_locs(v, o) || o
        == pair_id(x) by {
        if in_id_locs(v.push(x), o) {
            let i = choose|i: int| 0 <= i < v.push(x).len() && pair_id(v.push(x)[i]) == o;
            if i < v.len() {
                assert(pair_id(v[i]) == o);
            }
        }
        if in_id_locs(v, o) {
            let i = choose|i: int| 0 <= i < v.len() && pair_id(#[trigger] v[i]) == o;
            assert(pair_id(v.push(x)[i]) == o);
        }
        if o == pair_id(x) {
            assert(pair_id(v.push(x)[v.len() as int]) == o);
        }
    }
}

/// Whether an id occurs in a list of identifiers.
fn contains_id(v: &Vec<RefID>, id: usize) -> (r: bool)
    ensures
        r == in_ids(v@, id as int),
{
    let n = v.len();
    let mut i: usize = 0;
    while i < n
        invariant
            n == v@.len(),
            0 <= i <= n,
            forall|j: int| 0 <= j < i ==> v@[j].0 != id,
        decreases n - i,
    {
        if v[i].0 == id {
            return true;
        }
        i += 1;
    }
    false
}

/// Add the located entry `(id, loc)` under the group of `lbl`, opening
/// the group if it is new.
#[verifier::rlimit(50)]
fn insert_labeled(labeled: &mut Vec<(Label, Vec<(RefID, u16)>)>, lbl: Label, id: RefID, loc: u16)
    requires
        labeled_wf(old(labeled)@),
    ensures
        labeled_wf(final(labeled)@),
        forall|l2: Label, oid: int|
            in_labeled(final(labeled)@, l2, oid) <==> in_labeled(old(labeled)@, l2, oid) || (l2
                == lbl && oid == id.0),
        forall|l2: Label, e: (RefID, u16)|
            located_in(final(labeled)@, l2, e) <==> located_in(old(labeled)@, l2, e) || (l2 == lbl
                && e == (id, loc)),
{
    let n = labeled.len();
    let mut i: usize = 0;
    while i < n
        invariant
            n == labeled@.len(),
            0 <= i <= n,
            *labeled == *old(labeled),
            labeled_wf(labeled@),
            forall|j: int| 0 <= j < i ==> labeled@[j].0 != lbl,
        decreases n - i,
    {
        let hit = labeled[i].0 == lbl;
        if hit {
            let mut inner: Vec<(RefID, u16)> = Vec::new();
            let m = labeled[i].1.len();
            let mut j: usize = 0;
            while j < m
                invariant
                    0 <= i < labeled@.len(),
                    m == labeled@[i as int].1@.len(),
                    0 <= j <= m,
                    *labeled == *old(labeled),
                    inner@ =~= labeled@[i as int].1@.subrange(0, j as int),
                decreases m - j,
            {
                let e = labeled[i].1[j];
                inner.push(e);
                j += 1;
            }
            proof {
                assert(inner@ =~= labeled@[i as int].1@);
            }
            inner.push((id, loc));
            let ghost old_l = labeled@;
            labeled.set(i, (lbl, inner));
            proof {
                assert forall|l2: Label, oid: int| in_labeled(labeled@, l2, oid) implies (
                in_labeled(old_l, l2, oid) || (l2 == lbl && oid == id.0)) by {
                    let k = choose|k: int|
                        0 <= k < labeled@.len() && labeled@[k].0 == l2 && in_id_locs(
                            labeled@[k].1@,
                            oid,
                        );
                    if k == i {
                        let w = choose|w: int|
                            0 <= w < labeled@[k].1@.len() && pair_id(labeled@[k].1@[w]) == oid;
                        if w < old_l[i as int].1@.len() {
                            assert(pair_id(old_l[i as int].1@[w]) == oid);
                            assert(in_id_locs(old_l[i as int].1@, oid));
                            assert(in_labeled(old_l, l2, oid));
                        }
                    } else {
                        assert(in_labeled(old_l, l2, oid));
                    }
                }
                assert forall|l2: Label, oid: int|
                    in_labeled(old_l, l2, oid) || (l2 == lbl && oid
                        == id.0) implies in_labeled(labeled@, l2, oid) by {
                    if in_labeled(old_l, l2, oid) {
                        let k = choose|k: int|
                            0 <= k < old_l.len() && old_l[k].0 == l2 && in_id_locs(
                                old_l[k].1@,
                                oid,
                            );
                        if k == i {
                            let w = choose|w: int|
                                0 <= w < old_l[k].1@.len() && pair_id(old_l[k].1@[w]) == oid;
                            assert(pair_id(labeled@[i as int].1@[w]) == oid);
                            assert(in_id_locs(labeled@[i as int].1@, oid));
                        } else {
                            assert(labeled@[k].0 == l2 && in_id_locs(labeled@[k].1@, oid));
                        }
                    } else {
                        let w = labeled@[i as int].1@.len() - 1;
                        assert(pair_id(labeled@[i as int].1@[w]) == id.0);
                        assert(in_id_locs(labeled@[i as int].1@, oid));
                    }
                }
                assert forall|l2: Label, e: (RefID, u16)|
                    located_in(labeled@, l2, e) implies (located_in(old_l, l2, e) || (l2 == lbl
                        && e == (id, loc))) by {
                    let (k, w) = choose|k: int, w: int|
                        0 <= k < labeled@.len() && labeled@[k].0 == l2 && 0 <= w
                            < labeled@[k].1@.len() && (#[trigger] labeled@[k].1@[w]) == e;
                    if k == i {
                        if w < old_l[i as int].1@.len() {
                            assert(old_l[i as int].1@[w] == e);
                            assert(located_in(old_l, l2, e));
                        } else {
                            assert(w == labeled@[i as int].1@.len() - 1);
                            assert(labeled@[i as int].1@[w] == (id, loc));
                            assert(l2 == lbl && e == (id, loc));
                        }
                    } else {
                        assert(old_l[k].1@[w] == e);
                        assert(located_in(old_l, l2, e));
                    }
                }
                assert forall|l2: Label, e: (RefID, u16)|
                    located_in(old_l, l2, e) || (l2 == lbl && e == (id, loc)) implies located_in(
                    labeled@,
                    l2,
                    e,
                ) by {
                    if located_in(old_l, l2, e) {
                        let (k, w) = choose|k: int, w: int|
                            0 <= k < old_l.len() && old_l[k].0 == l2 && 0 <= w
                                < old_l[k].1@.len() && (#[trigger] old_l[k].1@[w]) == e;
                        if k == i {
                            assert(labeled@[i as int].0 == l2);
                            assert(labeled@[i as int].1@[w] == e);
                            assert(located_in(labeled@, l2, e));
                        } else {
                            assert(labeled@[k].0 == l2);
                            assert(labeled@[k].1@[w] == e);
                            assert(located_in(labeled@, l2, e));
                        }
                    } else {
                        let w = labeled@[i as int].1@.len() - 1;
                        assert(labeled@[i as int].0 == l2);
                        assert(labeled@[i as int].1@[w] == e);
                        assert(located_in(labeled@, l2, e));
                    }
                }
                assert(old_l == old(labeled)@);
                assert forall|l2: Label, e: (RefID, u16)|
                    located_in(labeled@, l2, e) <==> located_in(old(labeled)@, l2, e) || (l2
                        == lbl && e == (id, loc)) by {
                    assert(located_in(old(labeled)@, l2, e) == located_in(old_l, l2, e));
                }
            }
            return ;
        }
        i += 1;
    }
    let mut inner: Vec<(RefID, u16)> = Vec::new();
    inner.push((id, loc));
    let ghost old_l = labeled@;
    labeled.push((lbl, inner));
    proof {
        assert(pair_id(labeled@[labeled@.len() - 1].1@[0]) == id.0);
        assert forall|l2: Label, oid: int| in_labeled(labeled@, l2, oid) implies (in_labeled(
            old_l,
            l2,
            oid,
        ) || (l2 == lbl && oid == id.0)) by {
            let k = choose|k: int|
                0 <= k < labeled@.len() && labeled@[k].0 == l2 && in_id_locs(labeled@[k].1@, oid);
            if k < old_l.len() {
                assert(in_labeled(old_l, l2, oid));
            }
        }
        assert forall|l2: Label, oid: int|
            in_labeled(old_l, l2, oid) || (l2 == lbl && oid == id.0) implies in_labeled(
            labeled@,
            l2,
            oid,
        ) by {
            if in_labeled(old_l, l2, oid) {
                let k = choose|k: int|
                    0 <= k < old_l.len() && old_l[k].0 == l2 && in_id_locs(old_l[k].1@, oid);
                assert(labeled@[k].0 == l2 && in_id_locs(labeled@[k].1@, oid));
            } else {
                assert(in_id_locs(labeled@[labeled@.len() - 1].1@, oid));
            }
        }
        assert forall|l2: Label, e: (RefID, u16)|
            located_in(labeled@, l2, e) implies (located_in(old_l, l2, e) || (l2 == lbl && e == (
            id,
            loc,
        ))) by {
            let (k, w) = choose|k: int, w: int|
                0 <= k < labeled@.len() && labeled@[k].0 == l2 && 0 <= w < labeled@[k].1@.len()
                    && (#[trigger] labeled@[k].1@[w]) == e;
            if k < old_l.len() {
                assert(old_l[k].1@[w] == e);
                assert(located_in(old_l, l2, e));
            }
        }
        assert forall|l2: Label, e: (RefID, u16)|
            located_in(old_l, l2, e) || (l2 == lbl && e == (id, loc)) implies located_in(
            labeled@,
            l2,
            e,
        ) by {
            if located_in(old_l, l2, e) {
                let (k, w) = choose|k: int, w: int|
                    0 <= k < old_l.len() && old_l[k].0 == l2 && 0 <= w < old_l[k].1@.len() && (
                    #[trigger] old_l[k].1@[w]) == e;
                assert(labeled@[k].0 == l2);
                assert(labeled@[k].1@[w] == e);
                assert(located_in(labeled@, l2, e));
            } else {
                assert(labeled@[labeled@.len() - 1].0 == l2);
                assert(labeled@[labeled@.len() - 1].1@[0] == e);
                assert(located_in(labeled@, l2, e));
            }
        }
    }
}

/// Consistency is transitive: worlds consistent with a common middle are
/// consistent with each other.
pub proof fn lemma_consistent_trans(a: BorrowSet, b: BorrowSet, c: BorrowSet)
    requires
        consistent_world(a, b),
        consistent_world(b, c),
    ensures
        consistent_world(a, c),
{
    assert forall|id: int|
        #![trigger at(a, id)]
        #![trigger at(c, id)]
        live(a, id) implies at(a, id).mutable == at(c, id).mutable && at(a, id).pinned == at(
        c,
        id,
    ).pinned by {
        assert(live(b, id));
        assert(at(b, id) == at(b, id));
        assert(at(a, id).mutable == at(b, id).mutable && at(a, id).pinned == at(b, id).pinned);
        assert(at(b, id).mutable == at(c, id).mutable && at(b, id).pinned == at(c, id).pinned);
    }
}

/// A join describes the same world as its left side.
pub proof fn lemma_join_consistent(a: BorrowSet, b: BorrowSet, j: BorrowSet)
    requires
        is_join_of(j, a, b),
    ensures
        consistent_world(a, j),
{
    assert forall|id: int|
        #![trigger at(a, id)]
        #![trigger at(j, id)]
        live(a, id) implies at(a, id).mutable == at(j, id).mutable && at(a, id).pinned == at(
        j,
        id,
    ).pinned by {
        assert(at(j, id) == (RefModel {
            paths: joined_paths(at(a, id).paths, at(b, id).paths),
            ..at(a, id)
        }));
    }
}

impl Clone for BorrowSet {
    /// A clone models the same world, reference for reference.
    fn clone(&self) -> (r: Self)
        ensures
            r.refs@.len() == self.refs@.len(),
            forall|id: int| live(*self, id) <==> live(r, id),
            forall|id: int| #[trigger] live(*self, id) ==> at(r, id) == at(*self, id),
            bs_wf(*self) ==> bs_wf(r),
            consistent_world(*self, r),
    {
        let mut refs: Vec<Option<Ref>> = Vec::new();
        let n = self.refs.len();
        let mut i: usize = 0;
        while i < n
            invariant
                n == self.refs@.len(),
                0 <= i <= n,
                refs@.len() == i,
                forall|j: int| 0 <= j < i ==> (refs@[j] is Some <==> self.refs@[j] is Some),
                forall|j: int|
                    0 <= j < i && self.refs@[j] is Some ==> #[trigger] refs@[j]->0@
                        == self.refs@[j]->0@ && (ref_wf(self.refs@[j]->0) ==> ref_wf(refs@[j]->0)),
            decreases n - i,
        {
            let entry = match &self.refs[i] {
                Some(r) => Some(r.clone()),
                None => None,
            };
            refs.push(entry);
            proof {
                assert(refs@[i as int] is Some <==> self.refs@[i as int] is Some);
                if self.refs@[i as int] is Some {
                    assert(refs@[i as int]->0@ == self.refs@[i as int]->0@);
                    assert(ref_wf(self.refs@[i as int]->0) ==> ref_wf(refs@[i as int]->0));
                }
            }
            i += 1;
        }
        let r = BorrowSet { refs };
        proof {
            if bs_wf(*self) {
                assert forall|id: int| #[trigger] live(r, id) implies ref_wf(r.refs@[id]->0) by {
                    assert(live(*self, id));
                    assert(r.refs@[id]->0@ == self.refs@[id]->0@);
                    assert(ref_wf(self.refs@[id]->0));
                    assert(ref_wf(self.refs@[id]->0) ==> ref_wf(r.refs@[id]->0));
                }
            }
        }
        r
    }
}

impl BorrowSet {
    /// Start a borrow set with one pinned reference per entry: its
    /// mutability, and, when the slot begins holding a value, the location
    /// and root label of its initial path. Identifiers are issued densely
    /// from zero in entry order.
    pub fn new(initial: &Vec<(bool, Option<(u16, Label)>)>) -> (r: BorrowSet)
        ensures
            r.refs@.len() == initial@.len(),
            forall|id: int| 0 <= id < initial@.len() ==> live(r, id),
            forall|id: int|
                0 <= id < initial@.len() ==> #[trigger] at(r, id) == (RefModel {
                    mutable: initial@[id].0,
                    pinned: true,
                    paths: match initial@[id].1 {
                        Some((loc, lbl)) => Set::<PathModel>::empty().insert(
                            PathModel {
                                root: None,
                                offsets: Seq::<Offset>::empty().push(Offset::Label(lbl)),
                            },
                        ),
                        None => Set::<PathModel>::empty(),
                    },
                }),
            bs_wf(r),
    {
        let mut refs: Vec<Option<Ref>> = Vec::new();
        let n = initial.len();
        let mut i: usize = 0;
        while i < n
            invariant
                n == initial@.len(),
                0 <= i <= n,
                refs@.len() == i,
                forall|j: int| 0 <= j < i ==> refs@[j] is Some,
                forall|j: int| 0 <= j < i ==> ref_wf(#[trigger] refs@[j]->0),
                forall|j: int|
                    0 <= j < i ==> #[trigger] refs@[j]->0@ == (RefModel {
                        mutable: initial@[j].0,
                        pinned: true,
                        paths: match initial@[j].1 {
                            Some((loc, lbl)) => Set::<PathModel>::empty().insert(
                                PathModel {
                                    root: None,
                                    offsets: Seq::<Offset>::empty().push(Offset::Label(lbl)),
                                },
                            ),
                            None => Set::<PathModel>::empty(),
                        },
                    }),
            decreases n - i,
        {
            let (mutable, start) = &initial[i];
            let mut paths: Vec<BorrowPath> = Vec::new();
            match start {
                Some((loc, lbl)) => {
                    let mut offsets: Vec<Offset> = Vec::new();
                    offsets.push(Offset::Label(*lbl));
                    proof {
                        assert(offsets@ =~= Seq::<Offset>::empty().push(Offset::Label(*lbl)));
                    }
                    paths.push(BorrowPath { loc: *loc, path: Path::new(None, offsets) });
                    proof {
                        assert(initial@[i as int].1 == Some((*loc, *lbl)));
                        let single = PathModel {
                            root: None,
                            offsets: Seq::<Offset>::empty().push(Offset::Label(*lbl)),
                        };
                        assert(paths@[0].path@ =~= single);
                    }
                },
                None => {},
            }
            let r = Ref::new(*mutable, true, paths);
            proof {
                match initial@[i as int].1 {
                    Some((loc, lbl)) => {
                        let single = PathModel {
                            root: None,
                            offsets: Seq::<Offset>::empty().push(Offset::Label(lbl)),
                        };
                        assert(r.paths_vec()[0].path@ == single);
                        assert(r@.paths.contains(single));
                        assert forall|p: PathModel| r@.paths.contains(p) implies p == single by {
                            let k = choose|k: int|
                                0 <= k < r.paths_vec().len() && r.paths_vec()[k].path@ == p;
                            assert(k == 0);
                        }
                        assert(r@.paths =~= Set::<PathModel>::empty().insert(single));
                    },
                    None => {
                        assert(r@.paths =~= Set::<PathModel>::empty());
                    },
                }
            }
            refs.push(Some(r));
            i += 1;
        }
        BorrowSet { refs }
    }

    /// The number of identifiers issued so far.
    pub fn next_id(&self) -> (r: usize)
        ensures
            r == self.refs@.len(),
    {
        self.refs.len()
    }

    /// Whether `id` names a live reference.
    pub fn is_live(&self, id: RefID) -> (r: bool)
        ensures
            r == live(*self, id.0 as int),
    {
        id.0 < self.refs.len() && self.refs[id.0].is_some()
    }

    /// Whether the given live reference is mutable.
    pub fn is_mutable(&self, id: RefID) -> (r: bool)
        requires
            live(*self, id.0 as int),
        ensures
            r == at(*self, id.0 as int).mutable,
    {
        match &self.refs[id.0] {
            Some(r) => r.is_mutable(),
            None => false,
        }
    }

    /// Whether the given live reference is pinned to a slot.
    pub fn is_pinned(&self, id: RefID) -> (r: bool)
        requires
            live(*self, id.0 as int),
        ensures
            r == at(*self, id.0 as int).pinned,
    {
        match &self.refs[id.0] {
            Some(r) => r.is_pinned(),
            None => false,
        }
    }

    /// True exactly when the pinned reference currently holds no paths:
    /// the slot it stands for is unbound.
    pub fn is_pinned_released(&self, id: RefID) -> (r: bool)
        requires
            live(*self, id.0 as int),
        ensures
            r == (at(*self, id.0 as int).paths =~= Set::<PathModel>::empty()),
    {
        match &self.refs[id.0] {
            Some(r) => r.num_paths() == 0,
            None => false,
        }
    }

    /// Issue a fresh unpinned reference that denotes exactly the paths of
    /// `id`, each retagged to `loc`, with the given mutability. Everything
    /// already issued is untouched.
    pub fn make_copy(&mut self, loc: u16, id: RefID, mutable: bool) -> (r: RefID)
        requires
            live(*old(self), id.0 as int),
            bs_wf(*old(self)),
        ensures
            r.0 == old(self).refs@.len(),
            final(self).refs@.len() == old(self).refs@.len() + 1,
            forall|j: int| live(*old(self), j) <==> live(*final(self), j) && j < old(self).refs@.len(),
            forall|j: int| #[trigger] live(*old(self), j) ==> at(*final(self), j) == at(*old(self), j),
            live(*final(self), r.0 as int),
            at(*final(self), r.0 as int) == (RefModel {
                mutable,
                pinned: false,
                paths: at(*old(self), id.0 as int).paths,
            }),
            bs_wf(*final(self)),
    {
        proof {
            assert(ref_wf(old(self).refs@[id.0 as int]->0));
        }
        let source = match &self.refs[id.0] {
            Some(r) => r.clone(),
            None => Ref::new(false, false, Vec::new()),
        };
        let mut retagged: Vec<BorrowPath> = Vec::new();
        let n = source.paths.len();
        let mut i: usize = 0;
        while i < n
            invariant
                n == source.paths@.len(),
                0 <= i <= n,
                retagged@.len() == i,
                ref_wf(source),
                forall|j: int|
                    0 <= j < i ==> #[trigger] retagged@[j].path@ == source.paths@[j].path@
                        && retagged@[j].loc == loc,
            decreases n - i,
        {
            retagged.push(BorrowPath { loc, path: source.paths[i].path.clone() });
            i += 1;
        }
        let fresh = Ref::new(mutable, false, retagged);
        proof {
            assert forall|p: PathModel| fresh@.paths.contains(p) implies source@.paths.contains(
                p,
            ) by {
                let k = choose|k: int|
                    0 <= k < fresh.paths@.len() && fresh.paths@[k].path@ == p;
                assert(source.paths@[k].path@ == p);
            }
            assert forall|p: PathModel| source@.paths.contains(p) implies fresh@.paths.contains(
                p,
            ) by {
                let k = choose|k: int|
                    0 <= k < source.paths@.len() && source.paths@[k].path@ == p;
                assert(fresh.paths@[k].path@ == p);
            }
            assert(fresh@.paths =~= source@.paths);
            assert(fresh@ =~= (RefModel {
                mutable,
                pinned: false,
                paths: at(*old(self), id.0 as int).paths,
            }));
        }
        let r = RefID(self.refs.len());
        self.refs.push(Some(fresh));
        proof {
            assert forall|j: int| #[trigger] live(*self, j) implies ref_wf(self.refs@[j]->0) by {
                if j < old(self).refs@.len() {
                    assert(self.refs@[j] == old(self).refs@[j]);
                    assert(live(*old(self), j));
                    assert(ref_wf(old(self).refs@[j]->0));
                }
            }
        }
        r
    }

    /// Turn a live reference immutable in place.
    pub fn freeze(&mut self, id: RefID)
        requires
            live(*old(self), id.0 as int),
            bs_wf(*old(self)),
        ensures
            final(self).refs@.len() == old(self).refs@.len(),
            forall|j: int| live(*old(self), j) <==> live(*final(self), j),
            forall|j: int|
                #[trigger] live(*old(self), j) && j != id.0 as int ==> at(*final(self), j)
                    == at(*old(self), j),
            at(*final(self), id.0 as int) == (RefModel {
                mutable: false,
                ..at(*old(self), id.0 as int)
            }),
            bs_wf(*final(self)),
    {
        proof {
            assert(ref_wf(old(self).refs@[id.0 as int]->0));
        }
        let mut frozen = match &self.refs[id.0] {
            Some(r) => r.clone(),
            None => Ref::new(false, false, Vec::new()),
        };
        frozen.freeze();
        self.refs.set(id.0, Some(frozen));
        proof {
            assert(at(*self, id.0 as int) =~= (RefModel {
                mutable: false,
                ..at(*old(self), id.0 as int)
            }));
            assert forall|j: int| #[trigger] live(*self, j) implies ref_wf(self.refs@[j]->0) by {
                if j != id.0 as int {
                    assert(self.refs@[j] == old(self).refs@[j]);
                    assert(live(*old(self), j));
                    assert(ref_wf(old(self).refs@[j]->0));
                }
            }
        }
    }

    /// Release a reference. A non-pinned reference is removed outright; a
    /// pinned reference stays, with its path set emptied.
    pub fn release(&mut self, id: RefID)
        requires
            live(*old(self), id.0 as int),
            bs_wf(*old(self)),
        ensures
            final(self).refs@.len() == old(self).refs@.len(),
            at(*old(self), id.0 as int).pinned ==> {
                &&& forall|j: int| live(*old(self), j) <==> live(*final(self), j)
                &&& at(*final(self), id.0 as int) == (RefModel {
                    paths: Set::<PathModel>::empty(),
                    ..at(*old(self), id.0 as int)
                })
            },
            !at(*old(self), id.0 as int).pinned ==> {
                &&& forall|j: int|
                    live(*final(self), j) <==> (live(*old(self), j) && j != id.0 as int)
                &&& !live(*final(self), id.0 as int)
            },
            forall|j: int|
                #[trigger] live(*old(self), j) && j != id.0 as int ==> live(*final(self), j)
                    && at(*final(self), j) == at(*old(self), j),
            bs_wf(*final(self)),
    {
        let pinned = self.is_pinned(id);
        if pinned {
            let mut cleared = match &self.refs[id.0] {
                Some(r) => r.clone(),
                None => Ref::new(false, false, Vec::new()),
            };
            cleared.clear_paths();
            self.refs.set(id.0, Some(cleared));
            proof {
                assert(at(*self, id.0 as int) =~= (RefModel {
                    paths: Set::<PathModel>::empty(),
                    ..at(*old(self), id.0 as int)
                }));
            }
        } else {
            self.refs.set(id.0, None);
        }
        proof {
            assert forall|j: int| #[trigger] live(*self, j) implies ref_wf(self.refs@[j]->0) by {
                if j != id.0 as int {
                    assert(self.refs@[j] == old(self).refs@[j]);
                    assert(live(*old(self), j));
                    assert(ref_wf(old(self).refs@[j]->0));
                }
            }
        }
    }

    /// Whether `oid` is a live reference other than `id` that the filter
    /// admits.
    fn passes(&self, filter: &QueryFilter, id: RefID, oid: usize) -> (r: bool)
        requires
            bs_wf(*self),
        ensures
            r == filter_passes(*self, *filter, id.0 as int, oid as int),
    {
        if oid == id.0 {
            return false;
        }
        if !self.is_live(RefID(oid)) {
            return false;
        }
        let mask_ok = match &filter.mask {
            Some(m) => contains_id(m, oid),
            None => true,
        };
        if !mask_ok {
            return false;
        }
        match &filter.mutable {
            Some(b) => {
                let mu = self.is_mutable(RefID(oid));
                mu == *b
            },
            None => true,
        }
    }

    /// All references the filter admits that extend or equal the given
    /// reference: those holding an equal path, those extending one of its
    /// paths at a wildcard, and those extending one at a concrete label,
    /// grouped by that label. Wildcard and labeled entries carry the
    /// source location of an extending path of the other reference. The
    /// reference itself is never reported.
    pub fn borrowed_by(&self, id: RefID, filter: &QueryFilter) -> (r: Conflicts)
        requires
            bs_wf(*self),
            live(*self, id.0 as int),
        ensures
            r.wf(),
            forall|oid: int|
                in_ids(r.equal@, oid) <==> filter_passes(*self, *filter, id.0 as int, oid)
                    && pair_rel(*self, id.0 as int, oid, Ordering::Equal),
            forall|oid: int|
                in_id_locs(r.existential@, oid) <==> filter_passes(*self, *filter, id.0 as int, oid)
                    && pair_rel(
                    *self,
                    id.0 as int,
                    oid,
                    Ordering::RightExtendsLeft(Extension::Star),
                ),
            forall|lbl: Label, oid: int|
                in_labeled(r.labeled@, lbl, oid) <==> filter_passes(*self, *filter, id.0 as int, oid)
                    && pair_rel(
                    *self,
                    id.0 as int,
                    oid,
                    Ordering::RightExtendsLeft(Extension::Label(lbl)),
                ),
            forall|k: int|
                0 <= k < r.existential@.len() ==> pair_rel_at(
                    *self,
                    id.0 as int,
                    pair_id(#[trigger] r.existential@[k]),
                    Ordering::RightExtendsLeft(Extension::Star),
                    pair_loc(r.existential@[k]),
                ),
            forall|lbl: Label, e: (RefID, u16)|
                located_in(r.labeled@, lbl, e) ==> pair_rel_at(
                    *self,
                    id.0 as int,
                    pair_id(e),
                    Ordering::RightExtendsLeft(Extension::Label(lbl)),
                    pair_loc(e),
                ),
    {
        let mut equal: Vec<RefID> = Vec::new();
        let mut existential: Vec<(RefID, u16)> = Vec::new();
        let mut labeled: Vec<(Label, Vec<(RefID, u16)>)> = Vec::new();
        let n = self.refs.len();
        let mut oid: usize = 0;
        while oid < n
            invariant
                n == self.refs@.len(),
                0 <= oid <= n,
                bs_wf(*self),
                live(*self, id.0 as int),
                labeled_wf(labeled@),
                forall|o2: int|
                    in_ids(equal@, o2) <==> 0 <= o2 < oid && filter_passes(
                        *self,
                        *filter,
                        id.0 as int,
                        o2,
                    ) && pair_rel(*self, id.0 as int, o2, Ordering::Equal),
                forall|o2: int|
                    in_id_locs(existential@, o2) <==> 0 <= o2 < oid && filter_passes(
                        *self,
                        *filter,
                        id.0 as int,
                        o2,
                    ) && pair_rel(
                        *self,
                        id.0 as int,
                        o2,
                        Ordering::RightExtendsLeft(Extension::Star),
                    ),
                forall|lbl: Label, o2: int|
                    in_labeled(labeled@, lbl, o2) <==> 0 <= o2 < oid && filter_passes(
                        *self,
                        *filter,
                        id.0 as int,
                        o2,
                    ) && pair_rel(
                        *self,
                        id.0 as int,
                        o2,
                        Ordering::RightExtendsLeft(Extension::Label(lbl)),
                    ),
                forall|k: int|
                    0 <= k < existential@.len() ==> pair_rel_at(
                        *self,
                        id.0 as int,
                        pair_id(#[trigger] existential@[k]),
                        Ordering::RightExtendsLeft(Extension::Star),
                        pair_loc(existential@[k]),
                    ),
                forall|lbl: Label, e: (RefID, u16)|
                    located_in(labeled@, lbl, e) ==> pair_rel_at(
                        *self,
                        id.0 as int,
                        pair_id(e),
                        Ordering::RightExtendsLeft(Extension::Label(lbl)),
                        pair_loc(e),
                    ),
            decreases n - oid,
        {
            if self.passes(filter, id, oid) {
                let (eq, star, lbls) = self.classify(id, RefID(oid));
                if eq {
                    let ghost old_e = equal@;
                    equal.push(RefID(oid));
                    proof {
                        lemma_in_ids_push(old_e, RefID(oid));
                    }
                }
                match star {
                    Some(loc) => {
                        let ghost old_e = existential@;
                        existential.push((RefID(oid), loc));
                        proof {
                            lemma_in_id_locs_push(old_e, (RefID(oid), loc));
                            assert forall|k: int|
                                0 <= k < existential@.len() implies pair_rel_at(
                                *self,
                                id.0 as int,
                                pair_id(#[trigger] existential@[k]),
                                Ordering::RightExtendsLeft(Extension::Star),
                                pair_loc(existential@[k]),
                            ) by {
                                if k < old_e.len() {
                                    assert(existential@[k] == old_e[k]);
                                }
                            }
                        }
                    },
                    None => {},
                }
                let m = lbls.len();
                let mut k: usize = 0;
                let ghost eq_snap = equal@;
                let ghost ex_snap = existential@;
                while k < m
                    invariant
                        m == lbls@.len(),
                        0 <= k <= m,
                        0 <= oid < n,
                        n == self.refs@.len(),
                        bs_wf(*self),
                        equal@ == eq_snap,
                        existential@ == ex_snap,
                        labeled_wf(labeled@),
                        filter_passes(*self, *filter, id.0 as int, oid as int),
                        forall|l: Label|
                            in_lbl_pairs(lbls@, l) <==> pair_rel(
                                *self,
                                id.0 as int,
                                oid as int,
                                Ordering::RightExtendsLeft(Extension::Label(l)),
                            ),
                        forall|w: int|
                            0 <= w < lbls@.len() ==> pair_rel_at(
                                *self,
                                id.0 as int,
                                oid as int,
                                Ordering::RightExtendsLeft(Extension::Label(
                                    (#[trigger] lbls@[w]).0,
                                )),
                                lbls@[w].1,
                            ),
                        forall|lbl: Label, o2: int|
                            in_labeled(labeled@, lbl, o2) <==> (0 <= o2 < oid && filter_passes(
                                *self,
                                *filter,
                                id.0 as int,
                                o2,
                            ) && pair_rel(
                                *self,
                                id.0 as int,
                                o2,
                                Ordering::RightExtendsLeft(Extension::Label(lbl)),
                            )) || (o2 == oid && in_lbl_pairs(lbls@.subrange(0, k as int), lbl)),
                        forall|lbl: Label, e: (RefID, u16)|
                            located_in(labeled@, lbl, e) ==> pair_rel_at(
                                *self,
                                id.0 as int,
                                pair_id(e),
                                Ordering::RightExtendsLeft(Extension::Label(lbl)),
                                pair_loc(e),
                            ),
                    decreases m - k,
                {
                    let (l, loc) = lbls[k];
                    let ghost pre_lab = labeled@;
                    insert_labeled(&mut labeled, l, RefID(oid), loc);
                    proof {
                        assert(lbls@.subrange(0, k + 1) =~= lbls@.subrange(0, k as int).push(
                            lbls@[k as int],
                        ));
                        lemma_in_lbl_pairs_push(lbls@.subrange(0, k as int), lbls@[k as int]);
                        assert forall|lbl: Label, e: (RefID, u16)|
                            located_in(labeled@, lbl, e) implies pair_rel_at(
                            *self,
                            id.0 as int,
                            pair_id(e),
                            Ordering::RightExtendsLeft(Extension::Label(lbl)),
                            pair_loc(e),
                        ) by {
                            if !(lbl == l && e == (RefID(oid), loc)) {
                                assert(located_in(pre_lab, lbl, e)) by {}
                            }
                        }
                    }
                    k += 1;
                }
                proof {
                    assert forall|lbl: Label, o2: int|
                        in_labeled(labeled@, lbl, o2) <==> (0 <= o2 < oid + 1 && filter_passes(
                            *self,
                            *filter,
                            id.0 as int,
                            o2,
                        ) && pair_rel(
                            *self,
                            id.0 as int,
                            o2,
                            Ordering::RightExtendsLeft(Extension::Label(lbl)),
                        )) by {
                        if o2 == oid as int {
                            assert(lbls@.subrange(0, m as int) =~= lbls@);
                        }
                    }
                }
            }
            oid += 1;
        }
        proof {
            assert forall|o2: int|
                in_ids(equal@, o2) <==> filter_passes(*self, *filter, id.0 as int, o2) && pair_rel(
                    *self,
                    id.0 as int,
                    o2,
                    Ordering::Equal,
                ) by {
                if filter_passes(*self, *filter, id.0 as int, o2) {
                    assert(live(*self, o2));
                }
            }
            assert forall|o2: int|
                in_id_locs(existential@, o2) <==> filter_passes(*self, *filter, id.0 as int, o2)
                    && pair_rel(
                    *self,
                    id.0 as int,
                    o2,
                    Ordering::RightExtendsLeft(Extension::Star),
                ) by {
                if filter_passes(*self, *filter, id.0 as int, o2) {
                    assert(live(*self, o2));
                }
            }
            assert forall|lbl: Label, o2: int|
                in_labeled(labeled@, lbl, o2) <==> filter_passes(*self, *filter, id.0 as int, o2)
                    && pair_rel(
                    *self,
                    id.0 as int,
                    o2,
                    Ordering::RightExtendsLeft(Extension::Label(lbl)),
                ) by {
                if filter_passes(*self, *filter, id.0 as int, o2) {
                    assert(live(*self, o2));
                }
            }
        }
        Conflicts { equal, existential, labeled }
    }

    /// All references the filter admits whose paths the given reference
    /// equals or extends: its parents, grouped the same way as conflicts.
    /// Wildcard and labeled entries carry the source location of the
    /// extending path of the queried reference. The reference itself is
    /// never reported.
    pub fn borrows_from(&self, id: RefID, filter: &QueryFilter) -> (r: Parents)
        requires
            bs_wf(*self),
            live(*self, id.0 as int),
        ensures
            r.wf(),
            forall|oid: int|
                in_ids(r.equal@, oid) <==> filter_passes(*self, *filter, id.0 as int, oid)
                    && pair_rel(*self, oid, id.0 as int, Ordering::Equal),
            forall|oid: int|
                in_id_locs(r.existential@, oid) <==> filter_passes(*self, *filter, id.0 as int, oid)
                    && pair_rel(
                    *self,
                    oid,
                    id.0 as int,
                    Ordering::RightExtendsLeft(Extension::Star),
                ),
            forall|lbl: Label, oid: int|
                in_labeled(r.labeled@, lbl, oid) <==> filter_passes(*self, *filter, id.0 as int, oid)
                    && pair_rel(
                    *self,
                    oid,
                    id.0 as int,
                    Ordering::RightExtendsLeft(Extension::Label(lbl)),
                ),
            forall|k: int|
                0 <= k < r.existential@.len() ==> pair_rel_at(
                    *self,
                    pair_id(#[trigger] r.existential@[k]),
                    id.0 as int,
                    Ordering::RightExtendsLeft(Extension::Star),
                    pair_loc(r.existential@[k]),
                ),
            forall|lbl: Label, e: (RefID, u16)|
                located_in(r.labeled@, lbl, e) ==> pair_rel_at(
                    *self,
                    pair_id(e),
                    id.0 as int,
                    Ordering::RightExtendsLeft(Extension::Label(lbl)),
                    pair_loc(e),
                ),
    {
        let mut equal: Vec<RefID> = Vec::new();
        let mut existential: Vec<(RefID, u16)> = Vec::new();
        let mut labeled: Vec<(Label, Vec<(RefID, u16)>)> = Vec::new();
        let n = self.refs.len();
        let mut oid: usize = 0;
        while oid < n
            invariant
                n == self.refs@.len(),
                0 <= oid <= n,
                bs_wf(*self),
                live(*self, id.0 as int),
                labeled_wf(labeled@),
                forall|o2: int|
                    in_ids(equal@, o2) <==> 0 <= o2 < oid && filter_passes(
                        *self,
                        *filter,
                        id.0 as int,
                        o2,
                    ) && pair_rel(*self, o2, id.0 as int, Ordering::Equal),
                forall|o2: int|
                    in_id_locs(existential@, o2) <==> 0 <= o2 < oid && filter_passes(
                        *self,
                        *filter,
                        id.0 as int,
                        o2,
                    ) && pair_rel(
                        *self,
                        o2,
                        id.0 as int,
                        Ordering::RightExtendsLeft(Extension::Star),
                    ),
                forall|lbl: Label, o2: int|
                    in_labeled(labeled@, lbl, o2) <==> 0 <= o2 < oid && filter_passes(
                        *self,
                        *filter,
                        id.0 as int,
                        o2,
                    ) && pair_rel(
                        *self,
                        o2,
                        id.0 as int,
                        Ordering::RightExtendsLeft(Extension::Label(lbl)),
                    ),
                forall|k: int|
                    0 <= k < existential@.len() ==> pair_rel_at(
                        *self,
                        pair_id(#[trigger] existential@[k]),
                        id.0 as int,
                        Ordering::RightExtendsLeft(Extension::Star),
                        pair_loc(existential@[k]),
                    ),
                forall|lbl: Label, e: (RefID, u16)|
                    located_in(labeled@, lbl, e) ==> pair_rel_at(
                        *self,
                        pair_id(e),
                        id.0 as int,
                        Ordering::RightExtendsLeft(Extension::Label(lbl)),
                        pair_loc(e),
                    ),
            decreases n - oid,
        {
            if self.passes(filter, id, oid) {
                let (eq, star, lbls) = self.classify(RefID(oid), id);
                if eq {
                    let ghost old_e = equal@;
                    equal.push(RefID(oid));
                    proof {
                        lemma_in_ids_push(old_e, RefID(oid));
                    }
                }
                match star {
                    Some(loc) => {
                        let ghost old_e = existential@;
                        existential.push((RefID(oid), loc));
                        proof {
                            lemma_in_id_locs_push(old_e, (RefID(oid), loc));
                            assert forall|k: int|
                                0 <= k < existential@.len() implies pair_rel_at(
                                *self,
                                pair_id(#[trigger] existential@[k]),
                                id.0 as int,
                                Ordering::RightExtendsLeft(Extension::Star),
                                pair_loc(existential@[k]),
                            ) by {
                                if k < old_e.len() {
                                    assert(existential@[k] == old_e[k]);
                                }
                            }
                        }
                    },
                    None => {},
                }
                let m = lbls.len();
                let mut k: usize = 0;
                let ghost eq_snap = equal@;
                let ghost ex_snap = existential@;
                while k < m
                    invariant
                        m == lbls@.len(),
                        0 <= k <= m,
                        0 <= oid < n,
                        n == self.refs@.len(),
                        bs_wf(*self),
                        equal@ == eq_snap,
                        existential@ == ex_snap,
                        labeled_wf(labeled@),
                        filter_passes(*self, *filter, id.0 as int, oid as int),
                        forall|l: Label|
                            in_lbl_pairs(lbls@, l) <==> pair_rel(
                                *self,
                                oid as int,
                                id.0 as int,
                                Ordering::RightExtendsLeft(Extension::Label(l)),
                            ),
                        forall|w: int|
                            0 <= w < lbls@.len() ==> pair_rel_at(
                                *self,
                                oid as int,
                                id.0 as int,
                                Ordering::RightExtendsLeft(Extension::Label(
                                    (#[trigger] lbls@[w]).0,
                                )),
                                lbls@[w].1,
                            ),
                        forall|lbl: Label, o2: int|
                            in_labeled(labeled@, lbl, o2) <==> (0 <= o2 < oid && filter_passes(
                                *self,
                                *filter,
                                id.0 as int,
                                o2,
                            ) && pair_rel(
                                *self,
                                o2,
                                id.0 as int,
                                Ordering::RightExtendsLeft(Extension::Label(lbl)),
                            )) || (o2 == oid && in_lbl_pairs(lbls@.subrange(0, k as int), lbl)),
                        forall|lbl: Label, e: (RefID, u16)|
                            located_in(labeled@, lbl, e) ==> pair_rel_at(
                                *self,
                                pair_id(e),
                                id.0 as int,
                                Ordering::RightExtendsLeft(Extension::Label(lbl)),
                                pair_loc(e),
                            ),
                    decreases m - k,
                {
                    let (l, loc) = lbls[k];
                    let ghost pre_lab = labeled@;
                    insert_labeled(&mut labeled, l, RefID(oid), loc);
                    proof {
                        assert(lbls@.subrange(0, k + 1) =~= lbls@.subrange(0, k as int).push(
                            lbls@[k as int],
                        ));
                        lemma_in_lbl_pairs_push(lbls@.subrange(0, k as int), lbls@[k as int]);
                        assert forall|lbl: Label, e: (RefID, u16)|
                            located_in(labeled@, lbl, e) implies pair_rel_at(
                            *self,
                            pair_id(e),
                            id.0 as int,
                            Ordering::RightExtendsLeft(Extension::Label(lbl)),
                            pair_loc(e),
                        ) by {
                            if !(lbl == l && e == (RefID(oid), loc)) {
                                assert(located_in(pre_lab, lbl, e)) by {}
                            }
                        }
                    }
                    k += 1;
                }
                proof {
                    assert forall|lbl: Label, o2: int|
                        in_labeled(labeled@, lbl, o2) <==> (0 <= o2 < oid + 1 && filter_passes(
                            *self,
                            *filter,
                            id.0 as int,
                            o2,
                        ) && pair_rel(
                            *self,
                            o2,
                            id.0 as int,
                            Ordering::RightExtendsLeft(Extension::Label(lbl)),
                        )) by {
                        if o2 == oid as int {
                            assert(lbls@.subrange(0, m as int) =~= lbls@);
                        }
                    }
                }
            }
            oid += 1;
        }
        proof {
            assert forall|o2: int|
                in_ids(equal@, o2) <==> filter_passes(*self, *filter, id.0 as int, o2) && pair_rel(
                    *self,
                    o2,
                    id.0 as int,
                    Ordering::Equal,
                ) by {
                if filter_passes(*self, *filter, id.0 as int, o2) {
                    assert(live(*self, o2));
                }
            }
            assert forall|o2: int|
                in_id_locs(existential@, o2) <==> filter_passes(*self, *filter, id.0 as int, o2)
                    && pair_rel(
                    *self,
                    o2,
                    id.0 as int,
                    Ordering::RightExtendsLeft(Extension::Star),
                ) by {
                if filter_passes(*self, *filter, id.0 as int, o2) {
                    assert(live(*self, o2));
                }
            }
            assert forall|lbl: Label, o2: int|
                in_labeled(labeled@, lbl, o2) <==> filter_passes(*self, *filter, id.0 as int, o2)
                    && pair_rel(
                    *self,
                    o2,
                    id.0 as int,
                    Ordering::RightExtendsLeft(Extension::Label(lbl)),
                ) by {
                if filter_passes(*self, *filter, id.0 as int, o2) {
                    assert(live(*self, o2));
                }
            }
        }
        Parents { equal, existential, labeled }
    }

    /// Scan every pair of one path of `left` and one path of `right` and
    /// report which comparison outcomes occur: an exact match, a strict
    /// extension at a wildcard — with the location of an extending path —
    /// and the labels of strict label extensions, each with such a
    /// location.
    #[verifier::rlimit(60)]
    fn classify(&self, left: RefID, right: RefID) -> (r: (bool, Option<u16>, Vec<(Label, u16)>))
        requires
            bs_wf(*self),
            live(*self, left.0 as int),
            live(*self, right.0 as int),
        ensures
            r.0 == pair_rel(*self, left.0 as int, right.0 as int, Ordering::Equal),
            (r.1 is Some) == pair_rel(
                *self,
                left.0 as int,
                right.0 as int,
                Ordering::RightExtendsLeft(Extension::Star),
            ),
            r.1 matches Some(loc) ==> pair_rel_at(
                *self,
                left.0 as int,
                right.0 as int,
                Ordering::RightExtendsLeft(Extension::Star),
                loc,
            ),
            forall|l: Label|
                in_lbl_pairs(r.2@, l) <==> pair_rel(
                    *self,
                    left.0 as int,
                    right.0 as int,
                    Ordering::RightExtendsLeft(Extension::Label(l)),
                ),
            forall|i: int|
                0 <= i < r.2@.len() ==> pair_rel_at(
                    *self,
                    left.0 as int,
                    right.0 as int,
                    Ordering::RightExtendsLeft(Extension::Label((#[trigger] r.2@[i]).0)),
                    r.2@[i].1,
                ),
    {
        proof {
            assert(ref_wf(self.refs@[left.0 as int]->0));
            assert(ref_wf(self.refs@[right.0 as int]->0));
        }
        let lref = match &self.refs[left.0] {
            Some(r) => r.clone(),
            None => Ref::new(false, false, Vec::new()),
        };
        let rref = match &self.refs[right.0] {
            Some(r) => r.clone(),
            None => Ref::new(false, false, Vec::new()),
        };
        let ghost lv = lref.paths_vec();
        let ghost rv = rref.paths_vec();
        let ghost orig_r = self.refs@[right.0 as int]->0.paths_vec();
        proof {
            assert(rv.len() == orig_r.len());
        }
        let mut eq = false;
        let mut star: Option<u16> = None;
        let mut lbls: Vec<(Label, u16)> = Vec::new();
        let ln = lref.num_paths();
        let rn = rref.num_paths();
        let mut i: usize = 0;
        while i < ln
            invariant
                ln == lv.len(),
                rn == rv.len(),
                0 <= i <= ln,
                lv == lref.paths_vec(),
                rv == rref.paths_vec(),
                orig_r == self.refs@[right.0 as int]->0.paths_vec(),
                rv.len() == orig_r.len(),
                forall|k: int|
                    0 <= k < rv.len() ==> (#[trigger] rv[k]).path@ == orig_r[k].path@ && rv[k].loc
                        == orig_r[k].loc,
                live(*self, left.0 as int),
                at(*self, left.0 as int).paths == paths_set(lv),
                ref_wf(lref),
                ref_wf(rref),
                eq == vec_pair_rel(lv, rv, i as int, 0, Ordering::Equal),
                (star is Some) == vec_pair_rel(
                    lv,
                    rv,
                    i as int,
                    0,
                    Ordering::RightExtendsLeft(Extension::Star),
                ),
                star matches Some(loc) ==> pair_rel_at(
                    *self,
                    left.0 as int,
                    right.0 as int,
                    Ordering::RightExtendsLeft(Extension::Star),
                    loc,
                ),
                forall|l: Label|
                    in_lbl_pairs(lbls@, l) <==> vec_pair_rel(
                        lv,
                        rv,
                        i as int,
                        0,
                        Ordering::RightExtendsLeft(Extension::Label(l)),
                    ),
                forall|k: int|
                    0 <= k < lbls@.len() ==> pair_rel_at(
                        *self,
                        left.0 as int,
                        right.0 as int,
                        Ordering::RightExtendsLeft(Extension::Label((#[trigger] lbls@[k]).0)),
                        lbls@[k].1,
                    ),
            decreases ln - i,
        {
            let mut j: usize = 0;
            while j < rn
                invariant
                    ln == lv.len(),
                    rn == rv.len(),
                    0 <= i < ln,
                    0 <= j <= rn,
                    lv == lref.paths_vec(),
                    rv == rref.paths_vec(),
                    orig_r == self.refs@[right.0 as int]->0.paths_vec(),
                    rv.len() == orig_r.len(),
                    forall|k: int|
                        0 <= k < rv.len() ==> (#[trigger] rv[k]).path@ == orig_r[k].path@
                            && rv[k].loc == orig_r[k].loc,
                    live(*self, left.0 as int),
                    at(*self, left.0 as int).paths == paths_set(lv),
                    ref_wf(lref),
                    ref_wf(rref),
                    eq == vec_pair_rel(lv, rv, i as int, j as int, Ordering::Equal),
                    (star is Some) == vec_pair_rel(
                        lv,
                        rv,
                        i as int,
                        j as int,
                        Ordering::RightExtendsLeft(Extension::Star),
                    ),
                    star matches Some(loc) ==> pair_rel_at(
                        *self,
                        left.0 as int,
                        right.0 as int,
                        Ordering::RightExtendsLeft(Extension::Star),
                        loc,
                    ),
                    forall|l: Label|
                        in_lbl_pairs(lbls@, l) <==> vec_pair_rel(
                            lv,
                            rv,
                            i as int,
                            j as int,
                            Ordering::RightExtendsLeft(Extension::Label(l)),
                        ),
                    forall|k: int|
                        0 <= k < lbls@.len() ==> pair_rel_at(
                            *self,
                            left.0 as int,
                            right.0 as int,
                            Ordering::RightExtendsLeft(Extension::Label((#[trigger] lbls@[k]).0)),
                            lbls@[k].1,
                        ),
                decreases rn - j,
            {
                let p = lref.path_at(i);
                let q = rref.path_at(j);
                let qloc = q.loc;
                let ghost old_lbls = lbls@;
                proof {
                    assert(paths_set(lv).contains(lv[i as int].path@));
                }
                match p.path.compare(&q.path) {
                    Ordering::Equal => {
                        eq = true;
                    },
                    Ordering::RightExtendsLeft(Extension::Star) => {
                        proof {
                            assert(pair_rel_at(
                                *self,
                                left.0 as int,
                                right.0 as int,
                                Ordering::RightExtendsLeft(Extension::Star),
                                qloc,
                            )) by {
                                assert(at(*self, left.0 as int).paths.contains(lv[i as int].path@));
                                assert(orig_r[j as int].path@ == rv[j as int].path@);
                                assert(orig_r[j as int].loc == qloc);
                            }
                        }
                        star = Some(qloc);
                    },
                    Ordering::RightExtendsLeft(Extension::Label(l)) => {
                        proof {
                            assert(pair_rel_at(
                                *self,
                                left.0 as int,
                                right.0 as int,
                                Ordering::RightExtendsLeft(Extension::Label(l)),
                                qloc,
                            )) by {
                                assert(at(*self, left.0 as int).paths.contains(lv[i as int].path@));
                                assert(orig_r[j as int].path@ == rv[j as int].path@);
                                assert(orig_r[j as int].loc == qloc);
                            }
                        }
                        if !contains_lbl_pair(&lbls, l) {
                            lbls.push((l, qloc));
                        }
                        proof {
                            assert(in_lbl_pairs(lbls@, l)) by {
                                if old_lbls.len() < lbls@.len() {
                                    assert(lbls@[lbls@.len() - 1].0 == l);
                                }
                            }
                            assert forall|l2: Label| in_lbl_pairs(lbls@, l2) implies (
                            in_lbl_pairs(old_lbls, l2) || l2 == l) by {
                                let k = choose|k: int|
                                    0 <= k < lbls@.len() && (#[trigger] lbls@[k]).0 == l2;
                                if k < old_lbls.len() {
                                    assert(old_lbls[k].0 == l2);
                                    assert(in_lbl_pairs(old_lbls, l2));
                                }
                            }
                            assert forall|l2: Label|
                                in_lbl_pairs(old_lbls, l2) implies in_lbl_pairs(lbls@, l2) by {
                                let k = choose|k: int|
                                    0 <= k < old_lbls.len() && (#[trigger] old_lbls[k]).0 == l2;
                                assert(lbls@[k].0 == l2);
                            }
                        }
                    },
                    _ => {},
                }
                proof {
                    let oi = i as int;
                    let oj = j as int;
                    assert forall|o: Ordering|
                        vec_pair_rel(lv, rv, oi, oj + 1, o) <==> (vec_pair_rel(lv, rv, oi, oj, o)
                            || cmp_paths(lv[oi].path@, rv[oj].path@) == o) by {
                        if vec_pair_rel(lv, rv, oi, oj + 1, o) {
                            if exists|b: int|
                                0 <= b < oj + 1 && oi < lv.len() && cmp_paths(
                                    lv[oi].path@,
                                    rv[b].path@,
                                ) == o {
                                let b = choose|b: int|
                                    0 <= b < oj + 1 && cmp_paths(lv[oi].path@, rv[b].path@) == o;
                                if b < oj {
                                    assert(vec_pair_rel(lv, rv, oi, oj, o));
                                } else {
                                    assert(cmp_paths(lv[oi].path@, rv[oj].path@) == o);
                                }
                            }
                        }
                        if cmp_paths(lv[oi].path@, rv[oj].path@) == o {
                            assert(0 <= oj < oj + 1 && oi < lv.len() && cmp_paths(
                                lv[oi].path@,
                                rv[oj].path@,
                            ) == o);
                            assert(vec_pair_rel(lv, rv, oi, oj + 1, o));
                        }
                        if vec_pair_rel(lv, rv, oi, oj, o) {
                            assert(vec_pair_rel(lv, rv, oi, oj + 1, o));
                        }
                    }
                    assert forall|l: Label|
                        in_lbl_pairs(lbls@, l) <==> vec_pair_rel(
                            lv,
                            rv,
                            oi,
                            oj + 1,
                            Ordering::RightExtendsLeft(Extension::Label(l)),
                        ) by {
                        assert(vec_pair_rel(lv, rv, oi, oj + 1, Ordering::RightExtendsLeft(
                            Extension::Label(l),
                        )) <==> (vec_pair_rel(lv, rv, oi, oj, Ordering::RightExtendsLeft(
                            Extension::Label(l),
                        )) || cmp_paths(lv[oi].path@, rv[oj].path@)
                            == Ordering::RightExtendsLeft(Extension::Label(l))));
                        assert(in_lbl_pairs(old_lbls, l) <==> vec_pair_rel(
                            lv,
                            rv,
                            oi,
                            oj,
                            Ordering::RightExtendsLeft(Extension::Label(l)),
                        ));
                    }
                }
                j += 1;
            }
            i += 1;
            proof {
                let oi = i as int;
                assert forall|o: Ordering|
                    vec_pair_rel(lv, rv, oi, 0, o) <==> vec_pair_rel(lv, rv, oi - 1, rn as int, o) by {
                    if vec_pair_rel(lv, rv, oi - 1, rn as int, o) {
                        if exists|b: int|
                            0 <= b < rn && oi - 1 < lv.len() && cmp_paths(
                                lv[oi - 1].path@,
                                rv[b].path@,
                            ) == o {
                            let b = choose|b: int|
                                0 <= b < rn && cmp_paths(lv[oi - 1].path@, rv[b].path@) == o;
                            assert(0 <= oi - 1 < oi && 0 <= b < rv.len() && cmp_paths(
                                lv[oi - 1].path@,
                                rv[b].path@,
                            ) == o);
                        }
                    }
                }
            }
        }
        proof {
            let s = *self;
            let li = left.0 as int;
            let ri = right.0 as int;
            assert(at(s, li).paths == paths_set(lv));
            assert(at(s, ri).paths == paths_set(rv));
            assert forall|o: Ordering|
                vec_pair_rel(lv, rv, ln as int, 0, o) <==> pair_rel(s, li, ri, o) by {
                if vec_pair_rel(lv, rv, ln as int, 0, o) {
                    let (a, b) = choose|a: int, b: int|
                        0 <= a < ln && 0 <= b < rv.len() && cmp_paths(lv[a].path@, rv[b].path@)
                            == o;
                    assert(paths_set(lv).contains(lv[a].path@));
                    assert(paths_set(rv).contains(rv[b].path@));
                }
                if pair_rel(s, li, ri, o) {
                    let (p, q) = choose|p: PathModel, q: PathModel|
                        at(s, li).paths.contains(p) && at(s, ri).paths.contains(q) && cmp_paths(
                            p,
                            q,
                        ) == o;
                    let a = choose|a: int| 0 <= a < lv.len() && lv[a].path@ == p;
                    let b = choose|b: int| 0 <= b < rv.len() && rv[b].path@ == q;
                    assert(cmp_paths(lv[a].path@, rv[b].path@) == o);
                }
            }
        }
        (eq, star, lbls)
    }

    /// Store a reference into a pinned slot: whatever the slot held is
    /// dropped, the slot takes over the paths of `other` retagged to `loc`,
    /// and `other` is released. Storing a slot into itself changes nothing.
    pub fn move_into_pinned(&mut self, loc: u16, pinned: RefID, other: RefID)
        requires
            bs_wf(*old(self)),
            live(*old(self), pinned.0 as int),
            live(*old(self), other.0 as int),
            at(*old(self), pinned.0 as int).pinned,
        ensures
            final(self).refs@.len() == old(self).refs@.len(),
            pinned.0 == other.0 ==> *final(self) == *old(self),
            pinned.0 != other.0 ==> {
                &&& live(*final(self), pinned.0 as int)
                &&& at(*final(self), pinned.0 as int) == (RefModel {
                    paths: at(*old(self), other.0 as int).paths,
                    ..at(*old(self), pinned.0 as int)
                })
                &&& at(*old(self), other.0 as int).pinned ==> live(*final(self), other.0 as int)
                    && at(*final(self), other.0 as int) == (RefModel {
                    paths: Set::<PathModel>::empty(),
                    ..at(*old(self), other.0 as int)
                })
                &&& !at(*old(self), other.0 as int).pinned ==> !live(*final(self), other.0 as int)
                &&& forall|j: int|
                    #[trigger] live(*old(self), j) && j != pinned.0 as int && j != other.0 as int
                        ==> live(*final(self), j) && at(*final(self), j) == at(*old(self), j)
                &&& forall|j: int| #[trigger] live(*final(self), j) ==> live(*old(self), j)
            },
            bs_wf(*final(self)),
    {
        if pinned.0 == other.0 {
            return ;
        }
        proof {
            assert(ref_wf(old(self).refs@[other.0 as int]->0));
            assert(ref_wf(old(self).refs@[pinned.0 as int]->0));
        }
        let source = match &self.refs[other.0] {
            Some(r) => r.clone(),
            None => Ref::new(false, false, Vec::new()),
        };
        let pinned_mutable = self.is_mutable(pinned);
        self.release(other);
        let mut retagged: Vec<BorrowPath> = Vec::new();
        let n = source.paths.len();
        let mut i: usize = 0;
        while i < n
            invariant
                n == source.paths@.len(),
                0 <= i <= n,
                retagged@.len() == i,
                ref_wf(source),
                forall|j: int|
                    0 <= j < i ==> #[trigger] retagged@[j].path@ == source.paths@[j].path@
                        && retagged@[j].loc == loc,
            decreases n - i,
        {
            retagged.push(BorrowPath { loc, path: source.paths[i].path.clone() });
            i += 1;
        }
        let fresh = Ref::new(pinned_mutable, true, retagged);
        proof {
            assert forall|p: PathModel| fresh@.paths.contains(p) implies source@.paths.contains(
                p,
            ) by {
                let k = choose|k: int|
                    0 <= k < fresh.paths_vec().len() && fresh.paths_vec()[k].path@ == p;
                assert(source.paths@[k].path@ == p);
            }
            assert forall|p: PathModel| source@.paths.contains(p) implies fresh@.paths.contains(
                p,
            ) by {
                let k = choose|k: int|
                    0 <= k < source.paths@.len() && source.paths@[k].path@ == p;
                assert(fresh.paths_vec()[k].path@ == p);
            }
            assert(fresh@.paths =~= source@.paths);
        }
        let ghost mid = *self;
        self.refs.set(pinned.0, Some(fresh));
        proof {
            assert(at(*self, pinned.0 as int) =~= (RefModel {
                paths: at(*old(self), other.0 as int).paths,
                ..at(*old(self), pinned.0 as int)
            }));
            assert forall|j: int| #[trigger] live(*self, j) implies ref_wf(self.refs@[j]->0) by {
                if j != pinned.0 as int {
                    assert(self.refs@[j] == mid.refs@[j]);
                    assert(live(mid, j));
                    assert(ref_wf(mid.refs@[j]->0));
                }
            }
        }
    }

    /// All live references some of whose paths begin at the given root
    /// label, each with the location of such a path. Used to ask whether
    /// a local or a global is borrowed.
    pub fn all_starting_with_label(&self, lbl: Label) -> (r: Vec<(RefID, u16)>)
        requires
            bs_wf(*self),
        ensures
            forall|oid: int|
                #![trigger in_id_locs(r@, oid)]
                #![trigger starts_with_label(*self, oid, lbl)]
                in_id_locs(r@, oid) <==> live(*self, oid) && starts_with_label(*self, oid, lbl),
            forall|k: int|
                0 <= k < r@.len() ==> starts_with_label_at(
                    *self,
                    pair_id(#[trigger] r@[k]),
                    lbl,
                    pair_loc(r@[k]),
                ),
    {
        let mut out: Vec<(RefID, u16)> = Vec::new();
        let n = self.refs.len();
        let mut oid: usize = 0;
        while oid < n
            invariant
                n == self.refs@.len(),
                0 <= oid <= n,
                bs_wf(*self),
                forall|o2: int|
                    #![trigger in_id_locs(out@, o2)]
                    #![trigger starts_with_label(*self, o2, lbl)]
                    in_id_locs(out@, o2) <==> 0 <= o2 < oid && live(*self, o2)
                        && starts_with_label(*self, o2, lbl),
                forall|k: int|
                    0 <= k < out@.len() ==> starts_with_label_at(
                        *self,
                        pair_id(#[trigger] out@[k]),
                        lbl,
                        pair_loc(out@[k]),
                    ),
            decreases n - oid,
        {
            if self.is_live(RefID(oid)) {
                proof {
                    assert(ref_wf(self.refs@[oid as int]->0));
                }
                let rr = match &self.refs[oid] {
                    Some(r0) => r0.clone(),
                    None => Ref::new(false, false, Vec::new()),
                };
                let ghost rv = rr.paths_vec();
                let ghost orig = self.refs@[oid as int]->0.paths_vec();
                let np = rr.num_paths();
                let mut found: Option<u16> = None;
                let mut j: usize = 0;
                while j < np
                    invariant
                        np == rv.len(),
                        0 <= j <= np,
                        rv == rr.paths_vec(),
                        orig == self.refs@[oid as int]->0.paths_vec(),
                        rv.len() == orig.len(),
                        forall|k: int|
                            0 <= k < rv.len() ==> (#[trigger] rv[k]).path@ == orig[k].path@
                                && rv[k].loc == orig[k].loc,
                        ref_wf(rr),
                        (found is Some) <==> exists|j2: int|
                            0 <= j2 < j && crate::paths::root_label_of(
                                (#[trigger] rv[j2]).path@,
                            ) == Some(lbl),
                        found matches Some(loc) ==> starts_with_label_at(
                            *self,
                            oid as int,
                            lbl,
                            loc,
                        ),
                    decreases np - j,
                {
                    let bp = rr.path_at(j);
                    match bp.path.root_label() {
                        Some(l2) => {
                            if l2 == lbl {
                                proof {
                                    assert(crate::paths::root_label_of(rv[j as int].path@)
                                        == Some(lbl));
                                    assert(orig[j as int].path@ == rv[j as int].path@);
                                    assert(starts_with_label_at(
                                        *self,
                                        oid as int,
                                        lbl,
                                        orig[j as int].loc,
                                    ));
                                }
                                found = Some(bp.loc);
                            }
                        },
                        None => {},
                    }
                    j += 1;
                }
                proof {
                    match found {
                        Some(_) => {
                            let j2 = choose|j2: int|
                                0 <= j2 < np && crate::paths::root_label_of(
                                    (#[trigger] rv[j2]).path@,
                                ) == Some(lbl);
                            assert(at(*self, oid as int).paths.contains(rv[j2].path@));
                            assert(starts_with_label(*self, oid as int, lbl));
                        },
                        None => {
                            if starts_with_label(*self, oid as int, lbl) {
                                let p = choose|p: PathModel|
                                    at(*self, oid as int).paths.contains(p)
                                        && crate::paths::root_label_of(p) == Some(lbl);
                                let j2 = choose|j2: int|
                                    0 <= j2 < rv.len() && rv[j2].path@ == p;
                                assert(crate::paths::root_label_of(rv[j2].path@) == Some(lbl));
                            }
                        },
                    }
                }
                match found {
                    Some(loc) => {
                        let ghost old_o = out@;
                        out.push((RefID(oid), loc));
                        proof {
                            lemma_in_id_locs_push(old_o, (RefID(oid), loc));
                            assert forall|k: int|
                                0 <= k < out@.len() implies starts_with_label_at(
                                *self,
                                pair_id(#[trigger] out@[k]),
                                lbl,
                                pair_loc(out@[k]),
                            ) by {
                                if k < old_o.len() {
                                    assert(out@[k] == old_o[k]);
                                }
                            }
                        }
                    },
                    None => {},
                }
            }
            oid += 1;
        }
        out
    }

    /// All live references some of whose paths begin at a root label whose
    /// kind the predicate selects, each with the location of such a path.
    /// Used for the frame-safety check at return.
    pub fn all_starting_with_predicate(&self, pred: &LabelPredicate) -> (r: Vec<(RefID, u16)>)
        requires
            bs_wf(*self),
        ensures
            forall|oid: int|
                #![trigger in_id_locs(r@, oid)]
                #![trigger starts_with_matching(*self, oid, *pred)]
                in_id_locs(r@, oid) <==> live(*self, oid) && starts_with_matching(
                    *self,
                    oid,
                    *pred,
                ),
            forall|k: int|
                0 <= k < r@.len() ==> starts_with_matching_at(
                    *self,
                    pair_id(#[trigger] r@[k]),
                    *pred,
                    pair_loc(r@[k]),
                ),
    {
        let mut out: Vec<(RefID, u16)> = Vec::new();
        let n = self.refs.len();
        let mut oid: usize = 0;
        while oid < n
            invariant
                n == self.refs@.len(),
                0 <= oid <= n,
                bs_wf(*self),
                forall|o2: int|
                    #![trigger in_id_locs(out@, o2)]
                    #![trigger starts_with_matching(*self, o2, *pred)]
                    in_id_locs(out@, o2) <==> 0 <= o2 < oid && live(*self, o2)
                        && starts_with_matching(*self, o2, *pred),
                forall|k: int|
                    0 <= k < out@.len() ==> starts_with_matching_at(
                        *self,
                        pair_id(#[trigger] out@[k]),
                        *pred,
                        pair_loc(out@[k]),
                    ),
            decreases n - oid,
        {
            if self.is_live(RefID(oid)) {
                proof {
                    assert(ref_wf(self.refs@[oid as int]->0));
                }
                let rr = match &self.refs[oid] {
                    Some(r0) => r0.clone(),
                    None => Ref::new(false, false, Vec::new()),
                };
                let ghost rv = rr.paths_vec();
                let ghost orig = self.refs@[oid as int]->0.paths_vec();
                let np = rr.num_paths();
                let mut found: Option<u16> = None;
                let mut j: usize = 0;
                while j < np
                    invariant
                        np == rv.len(),
                        0 <= j <= np,
                        rv == rr.paths_vec(),
                        orig == self.refs@[oid as int]->0.paths_vec(),
                        rv.len() == orig.len(),
                        forall|k: int|
                            0 <= k < rv.len() ==> (#[trigger] rv[k]).path@ == orig[k].path@
                                && rv[k].loc == orig[k].loc,
                        ref_wf(rr),
                        (found is Some) <==> exists|j2: int, l: Label|
                            #![trigger rv[j2], lp_matches(*pred, l)]
                            0 <= j2 < j && crate::paths::root_label_of(rv[j2].path@) == Some(l)
                                && lp_matches(*pred, l),
                        found matches Some(loc) ==> starts_with_matching_at(
                            *self,
                            oid as int,
                            *pred,
                            loc,
                        ),
                    decreases np - j,
                {
                    let bp = rr.path_at(j);
                    match bp.path.root_label() {
                        Some(l2) => {
                            if pred.matches(l2) {
                                proof {
                                    assert(crate::paths::root_label_of(rv[j as int].path@)
                                        == Some(l2) && lp_matches(*pred, l2));
                                    assert(orig[j as int].path@ == rv[j as int].path@);
                                    assert(starts_with_matching_at(
                                        *self,
                                        oid as int,
                                        *pred,
                                        orig[j as int].loc,
                                    ));
                                }
                                found = Some(bp.loc);
                            }
                        },
                        None => {},
                    }
                    j += 1;
                }
                proof {
                    match found {
                        Some(_) => {
                            let (j2, l) = choose|j2: int, l: Label|
                                #![trigger rv[j2], lp_matches(*pred, l)]
                                0 <= j2 < np && crate::paths::root_label_of(rv[j2].path@) == Some(
                                    l,
                                ) && lp_matches(*pred, l);
                            assert(at(*self, oid as int).paths.contains(rv[j2].path@));
                            assert(starts_with_matching(*self, oid as int, *pred));
                        },
                        None => {
                            if starts_with_matching(*self, oid as int, *pred) {
                                let (p, l) = choose|p: PathModel, l: Label|
                                    at(*self, oid as int).paths.contains(p)
                                        && crate::paths::root_label_of(p) == Some(l) && lp_matches(
                                        *pred,
                                        l,
                                    );
                                let j2 = choose|j2: int|
                                    0 <= j2 < rv.len() && rv[j2].path@ == p;
                                assert(crate::paths::root_label_of(rv[j2].path@) == Some(l)
                                    && lp_matches(*pred, l));
                            }
                        },
                    }
                }
                match found {
                    Some(loc) => {
                        let ghost old_o = out@;
                        out.push((RefID(oid), loc));
                        proof {
                            lemma_in_id_locs_push(old_o, (RefID(oid), loc));
                            assert forall|k: int|
                                0 <= k < out@.len() implies starts_with_matching_at(
                                *self,
                                pair_id(#[trigger] out@[k]),
                                *pred,
                                pair_loc(out@[k]),
                            ) by {
                                if k < old_o.len() {
                                    assert(out@[k] == old_o[k]);
                                }
                            }
                        }
                    },
                    None => {},
                }
            }
            oid += 1;
        }
        out
    }

    /// All live references some of whose paths are rooted at the given
    /// reference, each with the location of such a path.
    pub fn all_start_with_ref(&self, root: RefID) -> (r: Vec<(RefID, u16)>)
        requires
            bs_wf(*self),
        ensures
            forall|oid: int|
                #![trigger in_id_locs(r@, oid)]
                #![trigger starts_with_ref(*self, oid, root.0 as int)]
                in_id_locs(r@, oid) <==> live(*self, oid) && starts_with_ref(
                    *self,
                    oid,
                    root.0 as int,
                ),
            forall|k: int|
                0 <= k < r@.len() ==> starts_with_ref_at(
                    *self,
                    pair_id(#[trigger] r@[k]),
                    root.0 as int,
                    pair_loc(r@[k]),
                ),
    {
        let mut out: Vec<(RefID, u16)> = Vec::new();
        let n = self.refs.len();
        let mut oid: usize = 0;
        while oid < n
            invariant
                n == self.refs@.len(),
                0 <= oid <= n,
                bs_wf(*self),
                forall|o2: int|
                    #![trigger in_id_locs(out@, o2)]
                    #![trigger starts_with_ref(*self, o2, root.0 as int)]
                    in_id_locs(out@, o2) <==> 0 <= o2 < oid && live(*self, o2) && starts_with_ref(
                        *self,
                        o2,
                        root.0 as int,
                    ),
                forall|k: int|
                    0 <= k < out@.len() ==> starts_with_ref_at(
                        *self,
                        pair_id(#[trigger] out@[k]),
                        root.0 as int,
                        pair_loc(out@[k]),
                    ),
            decreases n - oid,
        {
            if self.is_live(RefID(oid)) {
                proof {
                    assert(ref_wf(self.refs@[oid as int]->0));
                }
                let rr = match &self.refs[oid] {
                    Some(r0) => r0.clone(),
                    None => Ref::new(false, false, Vec::new()),
                };
                let ghost rv = rr.paths_vec();
                let ghost orig = self.refs@[oid as int]->0.paths_vec();
                let np = rr.num_paths();
                let mut found: Option<u16> = None;
                let mut j: usize = 0;
                while j < np
                    invariant
                        np == rv.len(),
                        0 <= j <= np,
                        rv == rr.paths_vec(),
                        orig == self.refs@[oid as int]->0.paths_vec(),
                        rv.len() == orig.len(),
                        forall|k: int|
                            0 <= k < rv.len() ==> (#[trigger] rv[k]).path@ == orig[k].path@
                                && rv[k].loc == orig[k].loc,
                        ref_wf(rr),
                        (found is Some) <==> exists|j2: int|
                            0 <= j2 < j && ((#[trigger] rv[j2]).path@).root == Some(root),
                        found matches Some(loc) ==> starts_with_ref_at(
                            *self,
                            oid as int,
                            root.0 as int,
                            loc,
                        ),
                    decreases np - j,
                {
                    let bp = rr.path_at(j);
                    match bp.path.root {
                        Some(rt) => {
                            if rt.0 == root.0 {
                                proof {
                                    assert(rv[j as int].path@.root == Some(root));
                                    assert(orig[j as int].path@ == rv[j as int].path@);
                                    assert(starts_with_ref_at(
                                        *self,
                                        oid as int,
                                        root.0 as int,
                                        orig[j as int].loc,
                                    ));
                                }
                                found = Some(bp.loc);
                            }
                        },
                        None => {},
                    }
                    j += 1;
                }
                proof {
                    match found {
                        Some(_) => {
                            let j2 = choose|j2: int|
                                0 <= j2 < np && ((#[trigger] rv[j2]).path@).root == Some(root);
                            assert(at(*self, oid as int).paths.contains(rv[j2].path@));
                            assert(starts_with_ref(*self, oid as int, root.0 as int));
                        },
                        None => {
                            if starts_with_ref(*self, oid as int, root.0 as int) {
                                let p = choose|p: PathModel|
                                    at(*self, oid as int).paths.contains(p) && p.root == Some(
                                        root,
                                    );
                                let j2 = choose|j2: int|
                                    0 <= j2 < rv.len() && rv[j2].path@ == p;
                                assert(rv[j2].path@.root == Some(root));
                            }
                        },
                    }
                }
                match found {
                    Some(loc) => {
                        let ghost old_o = out@;
                        out.push((RefID(oid), loc));
                        proof {
                            lemma_in_id_locs_push(old_o, (RefID(oid), loc));
                            assert forall|k: int|
                                0 <= k < out@.len() implies starts_with_ref_at(
                                *self,
                                pair_id(#[trigger] out@[k]),
                                root.0 as int,
                                pair_loc(out@[k]),
                            ) by {
                                if k < old_o.len() {
                                    assert(out@[k] == old_o[k]);
                                }
                            }
                        }
                    },
                    None => {},
                }
            }
            oid += 1;
        }
        out
    }

    /// Drop the trailing removed entries, so that two states whose live
    /// references agree also agree on the identifier universe. Pinned
    /// references are never removed, so none is dropped here.
    pub fn compact(&mut self)
        ensures
            final(self).refs@.len() <= old(self).refs@.len(),
            forall|j: int| live(*final(self), j) <==> live(*old(self), j),
            forall|j: int|
                #[trigger] live(*old(self), j) ==> at(*final(self), j) == at(*old(self), j),
            bs_wf(*old(self)) ==> bs_wf(*final(self)),
            final(self).refs@.len() == 0 || live(
                *final(self),
                final(self).refs@.len() - 1,
            ),
    {
        while self.refs.len() > 0 && matches!(self.refs[self.refs.len() - 1], None)
            invariant
                self.refs@.len() <= old(self).refs@.len(),
                self.refs@ == old(self).refs@.subrange(0, self.refs@.len() as int),
                forall|j: int|
                    self.refs@.len() <= j < old(self).refs@.len() ==> old(self).refs@[j] is None,
            decreases self.refs@.len(),
        {
            self.refs.pop();
            proof {
                assert(self.refs@ =~= old(self).refs@.subrange(0, self.refs@.len() as int));
            }
        }
        proof {
            assert forall|j: int| live(*self, j) <==> live(*old(self), j) by {
                if 0 <= j < self.refs@.len() {
                    assert(self.refs@[j] == old(self).refs@[j]);
                }
            }
            assert forall|j: int| #[trigger] live(*old(self), j) implies at(*self, j) == at(
                *old(self),
                j,
            ) by {}
            if bs_wf(*old(self)) {
                assert forall|j: int| #[trigger] live(*self, j) implies ref_wf(
                    self.refs@[j]->0,
                ) by {
                    assert(live(*old(self), j));
                    assert(ref_wf(old(self).refs@[j]->0));
                    assert(self.refs@[j] == old(self).refs@[j]);
                }
            }
        }
    }

    /// Whether this set and `other` describe the same world: the same
    /// identifiers, each with the same mutability and pinned bits.
    pub fn check_consistent(&self, other: &BorrowSet) -> (r: bool)
        ensures
            r == consistent_world(*self, *other),
    {
        if self.refs.len() != other.refs.len() {
            return false;
        }
        let n = self.refs.len();
        let mut i: usize = 0;
        while i < n
            invariant
                n == self.refs@.len(),
                n == other.refs@.len(),
                0 <= i <= n,
                forall|j: int| 0 <= j < i ==> (live(*self, j) <==> live(*other, j)),
                forall|j: int|
                    #![trigger at(*self, j)]
                    #![trigger at(*other, j)]
                    0 <= j < i && live(*self, j) ==> at(*self, j).mutable == at(*other, j).mutable
                        && at(*self, j).pinned == at(*other, j).pinned,
            decreases n - i,
        {
            match (&self.refs[i], &other.refs[i]) {
                (Some(a), Some(b)) => {
                    if a.is_mutable() != b.is_mutable() || a.is_pinned() != b.is_pinned() {
                        proof {
                            assert(live(*self, i as int));
                            assert(!(at(*self, i as int).mutable == at(*other, i as int).mutable
                                && at(*self, i as int).pinned == at(*other, i as int).pinned));
                        }
                        return false;
                    }
                },
                (None, None) => {},
                _ => {
                    proof {
                        assert(!(live(*self, i as int) <==> live(*other, i as int)));
                    }
                    return false;
                },
            }
            i += 1;
        }
        true
    }

    /// Whether this set covers `other`: on every reference, each of
    /// `other`'s paths is equal to or an extension of one of this set's
    /// paths, so that this set is at least as permissive.
    #[verifier::rlimit(50)]
    pub fn covers(&self, other: &BorrowSet) -> (r: bool)
        requires
            bs_wf(*self),
            bs_wf(*other),
            consistent_world(*self, *other),
        ensures
            r == covers_spec(*self, *other),
    {
        let n = self.refs.len();
        let mut id: usize = 0;
        while id < n
            invariant
                n == self.refs@.len(),
                bs_wf(*self),
                bs_wf(*other),
                consistent_world(*self, *other),
                0 <= id <= n,
                forall|id2: int|
                    0 <= id2 < id && #[trigger] live(*other, id2) ==> set_covers(
                        at(*self, id2).paths,
                        at(*other, id2).paths,
                    ),
            decreases n - id,
        {
            if other.is_live(RefID(id)) {
                proof {
                    assert(live(*other, id as int));
                    assert(live(*self, id as int));
                    assert(ref_wf(self.refs@[id as int]->0));
                    assert(ref_wf(other.refs@[id as int]->0));
                }
                let sref = match &self.refs[id] {
                    Some(r0) => r0.clone(),
                    None => Ref::new(false, false, Vec::new()),
                };
                let oref = match &other.refs[id] {
                    Some(r0) => r0.clone(),
                    None => Ref::new(false, false, Vec::new()),
                };
                let np = oref.num_paths();
                let mut j: usize = 0;
                while j < np
                    invariant
                        np == oref.paths_vec().len(),
                        0 <= j <= np,
                        0 <= id < n,
                        ref_wf(sref),
                        ref_wf(oref),
                        live(*self, id as int),
                        live(*other, id as int),
                        sref@ == at(*self, id as int),
                        oref@ == at(*other, id as int),
                        forall|j2: int|
                            0 <= j2 < j ==> path_covered(
                                sref@.paths,
                                #[trigger] oref.paths_vec()[j2].path@,
                            ),
                    decreases np - j,
                {
                    let bp = oref.path_at(j);
                    if !path_is_covered(&sref, &bp.path) {
                        proof {
                            let q0 = oref.paths_vec()[j as int].path@;
                            assert(at(*other, id as int).paths.contains(q0));
                            assert(!path_covered(at(*self, id as int).paths, q0));
                            assert(!set_covers(at(*self, id as int).paths, at(*other, id as int).paths));
                            assert(live(*other, id as int));
                            assert(!covers_spec(*self, *other));
                        }
                        return false;
                    }
                    j += 1;
                }
                proof {
                    assert forall|q: PathModel|
                        at(*other, id as int).paths.contains(q) implies path_covered(
                        at(*self, id as int).paths,
                        q,
                    ) by {
                        let j2 = choose|j2: int|
                            0 <= j2 < oref.paths_vec().len() && oref.paths_vec()[j2].path@ == q;
                        assert(path_covered(sref@.paths, oref.paths_vec()[j2].path@));
                    }
                    assert(set_covers(at(*self, id as int).paths, at(*other, id as int).paths));
                }
            }
            id += 1;
        }
        proof {
            assert forall|id2: int| #[trigger] live(*other, id2) implies set_covers(
                at(*self, id2).paths,
                at(*other, id2).paths,
            ) by {
                assert(0 <= id2 < n);
            }
        }
        true
    }

    /// The join of two consistent worlds: per reference, the union of the
    /// two path sets, with the already-covered paths of the right side
    /// absorbed. The result preserves every identifier and its bits.
    pub fn join(&self, other: &BorrowSet) -> (r: BorrowSet)
        requires
            bs_wf(*self),
            bs_wf(*other),
            consistent_world(*self, *other),
        ensures
            is_join_of(r, *self, *other),
            bs_wf(r),
            consistent_world(*self, r),
    {
        let mut joined = self.clone();
        let n = self.refs.len();
        let mut id: usize = 0;
        while id < n
            invariant
                n == self.refs@.len(),
                bs_wf(*self),
                bs_wf(*other),
                bs_wf(joined),
                consistent_world(*self, *other),
                0 <= id <= n,
                joined.refs@.len() == n,
                forall|id2: int| live(joined, id2) <==> live(*self, id2),
                forall|id2: int|
                    0 <= id2 < id && #[trigger] live(*self, id2) ==> at(joined, id2) == (RefModel {
                        paths: joined_paths(at(*self, id2).paths, at(*other, id2).paths),
                        ..at(*self, id2)
                    }),
                forall|id2: int|
                    id <= id2 < n && #[trigger] live(*self, id2) ==> at(joined, id2) == at(
                        *self,
                        id2,
                    ),
            decreases n - id,
        {
            if other.is_live(RefID(id)) {
                proof {
                    assert(live(*other, id as int));
                    assert(live(*self, id as int));
                    assert(ref_wf(self.refs@[id as int]->0));
                    assert(ref_wf(other.refs@[id as int]->0));
                }
                let sref = match &self.refs[id] {
                    Some(r0) => r0.clone(),
                    None => Ref::new(false, false, Vec::new()),
                };
                let oref = match &other.refs[id] {
                    Some(r0) => r0.clone(),
                    None => Ref::new(false, false, Vec::new()),
                };
                let mut acc = sref.clone();
                let np = oref.num_paths();
                let mut j: usize = 0;
                while j < np
                    invariant
                        np == oref.paths_vec().len(),
                        0 <= j <= np,
                        0 <= id < n,
                        ref_wf(sref),
                        ref_wf(oref),
                        ref_wf(acc),
                        sref@ == at(*self, id as int),
                        oref@ == at(*other, id as int),
                        acc@.mutable == sref@.mutable,
                        acc@.pinned == sref@.pinned,
                        forall|q: PathModel|
                            #[trigger] acc@.paths.contains(q) <==> sref@.paths.contains(q) || (
                            exists|j2: int|
                                0 <= j2 < j && #[trigger] oref.paths_vec()[j2].path@ == q
                                    && !path_covered(sref@.paths, q)),
                    decreases np - j,
                {
                    let bp = oref.path_at(j);
                    if !path_is_covered(&sref, &bp.path) {
                        acc.add_path(bp.clone());
                    }
                    proof {
                        let q0 = oref.paths_vec()[j as int].path@;
                        assert forall|q: PathModel| #[trigger] acc@.paths.contains(q) implies (
                        sref@.paths.contains(q) || (exists|j2: int|
                            0 <= j2 < j + 1 && #[trigger] oref.paths_vec()[j2].path@ == q
                                && !path_covered(sref@.paths, q))) by {
                            if q == q0 && !path_covered(sref@.paths, q) {
                                assert(oref.paths_vec()[j as int].path@ == q);
                            }
                        }
                    }
                    j += 1;
                }
                let ghost pre_joined = joined;
                joined.refs.set(id, Some(acc));
                proof {
                    reveal(joined_paths);
                    assert forall|q: PathModel| #[trigger] acc@.paths.contains(q) implies
                    joined_paths(at(*self, id as int).paths, at(*other, id as int).paths).contains(
                        q,
                    ) by {
                        reveal(joined_paths);
                        if !sref@.paths.contains(q) {
                            let j2 = choose|j2: int|
                                0 <= j2 < np && #[trigger] oref.paths_vec()[j2].path@ == q
                                    && !path_covered(sref@.paths, q);
                            assert(at(*other, id as int).paths.contains(q));
                        }
                    }
                    assert forall|q: PathModel|
                        joined_paths(
                            at(*self, id as int).paths,
                            at(*other, id as int).paths,
                        ).contains(q) implies #[trigger] acc@.paths.contains(q) by {
                        reveal(joined_paths);
                        if !at(*self, id as int).paths.contains(q) {
                            assert(at(*other, id as int).paths.contains(q) && !path_covered(
                                at(*self, id as int).paths,
                                q,
                            ));
                            let j2 = choose|j2: int|
                                0 <= j2 < oref.paths_vec().len() && oref.paths_vec()[j2].path@
                                    == q;
                            assert(oref.paths_vec()[j2].path@ == q && !path_covered(
                                sref@.paths,
                                q,
                            ));
                        }
                    }
                    assert(acc@.paths =~= joined_paths(
                        at(*self, id as int).paths,
                        at(*other, id as int).paths,
                    ));
                    assert(at(joined, id as int) =~= (RefModel {
                        paths: joined_paths(at(*self, id as int).paths, at(*other, id as int).paths),
                        ..at(*self, id as int)
                    }));
                    assert forall|j2: int| #[trigger] live(joined, j2) implies ref_wf(
                        joined.refs@[j2]->0,
                    ) by {
                        if j2 != id as int {
                            assert(joined.refs@[j2] == pre_joined.refs@[j2]);
                            assert(live(pre_joined, j2));
                            assert(ref_wf(pre_joined.refs@[j2]->0));
                        }
                    }
                }
            }
            id += 1;
        }
        joined
    }

    /// Issue a fresh unpinned reference whose paths are every path of every
    /// source, extended by one offset; with no sources, the single path
    /// made of that offset alone. Everything already issued is untouched.
    fn extend(&mut self, sources: &Vec<RefID>, loc: u16, mutable: bool, o: Offset) -> (r: RefID)
        requires
            bs_wf(*old(self)),
            forall|k: int| 0 <= k < sources@.len() ==> live(*old(self), #[trigger] sources@[k].0 as int),
        ensures
            r.0 == old(self).refs@.len(),
            final(self).refs@.len() == old(self).refs@.len() + 1,
            forall|j: int|
                live(*old(self), j) <==> live(*final(self), j) && j < old(self).refs@.len(),
            forall|j: int| #[trigger] live(*old(self), j) ==> at(*final(self), j) == at(*old(self), j),
            live(*final(self), r.0 as int),
            at(*final(self), r.0 as int) == (RefModel {
                mutable,
                pinned: false,
                paths: ext_paths(*old(self), sources@, o),
            }),
            bs_wf(*final(self)),
    {
        let mut acc = Ref::new(mutable, false, Vec::new());
        if sources.len() == 0 {
            let mut offsets: Vec<Offset> = Vec::new();
            offsets.push(o);
            proof {
                assert(offsets@ =~= Seq::<Offset>::empty().push(o));
            }
            acc.add_path(BorrowPath { loc, path: Path::new(None, offsets) });
            proof {
                assert(paths_set(Seq::<BorrowPath>::empty()) =~= Set::<PathModel>::empty());
                assert(acc@.paths =~= ext_paths(*self, sources@, o));
            }
        } else {
            let nk = sources.len();
            let mut k: usize = 0;
            while k < nk
                invariant
                    nk == sources@.len(),
                    nk > 0,
                    0 <= k <= nk,
                    *self == *old(self),
                    bs_wf(*self),
                    forall|k2: int|
                        0 <= k2 < sources@.len() ==> live(*self, #[trigger] sources@[k2].0 as int),
                    ref_wf(acc),
                    acc@.mutable == mutable,
                    acc@.pinned == false,
                    forall|q: PathModel|
                        #[trigger] acc@.paths.contains(q) <==> exists|k2: int, p: PathModel|
                            0 <= k2 < k && #[trigger] at(
                                *self,
                                sources@[k2].0 as int,
                            ).paths.contains(p) && q == (PathModel {
                                root: p.root,
                                offsets: p.offsets.push(o),
                            }),
                decreases nk - k,
            {
                let src_id = sources[k];
                let source = match &self.refs[src_id.0] {
                    Some(r) => r.clone(),
                    None => Ref::new(false, false, Vec::new()),
                };
                proof {
                    assert(live(*self, src_id.0 as int));
                    assert(ref_wf(self.refs@[src_id.0 as int]->0));
                }
                let np = source.num_paths();
                let mut j: usize = 0;
                while j < np
                    invariant
                        np == source.paths_vec().len(),
                        0 <= j <= np,
                        0 <= k < nk,
                        nk == sources@.len(),
                        *self == *old(self),
                        bs_wf(*self),
                        live(*self, sources@[k as int].0 as int),
                        source@ == at(*self, sources@[k as int].0 as int),
                        ref_wf(source),
                        ref_wf(acc),
                        acc@.mutable == mutable,
                        acc@.pinned == false,
                        forall|q: PathModel|
                            #[trigger] acc@.paths.contains(q) <==> (exists|k2: int, p: PathModel|
                                0 <= k2 < k && #[trigger] at(
                                    *self,
                                    sources@[k2].0 as int,
                                ).paths.contains(p) && q == (PathModel {
                                    root: p.root,
                                    offsets: p.offsets.push(o),
                                })) || (exists|i2: int|
                                0 <= i2 < j && q == (PathModel {
                                    root: source.paths_vec()[i2].path@.root,
                                    offsets: source.paths_vec()[i2].path@.offsets.push(o),
                                })),
                    decreases np - j,
                {
                    let bp = source.path_at(j);
                    let new_path = bp.path.extended(o);
                    proof {
                        assert(path_wf(new_path@));
                    }
                    acc.add_path(BorrowPath { loc, path: new_path });
                    j += 1;
                }
                k += 1;
                proof {
                    let kk = k - 1;
                    assert forall|q: PathModel| #[trigger] acc@.paths.contains(q) implies (
                    exists|k2: int, p: PathModel|
                        0 <= k2 < k && #[trigger] at(*self, sources@[k2].0 as int).paths.contains(
                            p,
                        ) && q == (PathModel { root: p.root, offsets: p.offsets.push(o) })) by {
                        if exists|i2: int|
                            0 <= i2 < np && q == (PathModel {
                                root: source.paths_vec()[i2].path@.root,
                                offsets: source.paths_vec()[i2].path@.offsets.push(o),
                            }) {
                            let i2 = choose|i2: int|
                                0 <= i2 < np && q == (PathModel {
                                    root: source.paths_vec()[i2].path@.root,
                                    offsets: source.paths_vec()[i2].path@.offsets.push(o),
                                });
                            let p = source.paths_vec()[i2].path@;
                            assert(at(*self, sources@[kk].0 as int).paths.contains(p));
                        }
                    }
                    assert forall|k2: int, p: PathModel|
                        0 <= k2 < k && #[trigger] at(*self, sources@[k2].0 as int).paths.contains(
                            p,
                        ) implies acc@.paths.contains(
                        PathModel { root: p.root, offsets: p.offsets.push(o) },
                    ) by {
                        if k2 == kk {
                            let i2 = choose|i2: int|
                                0 <= i2 < source.paths_vec().len() && source.paths_vec()[i2].path@
                                    == p;
                            assert(0 <= i2 < np && PathModel {
                                root: p.root,
                                offsets: p.offsets.push(o),
                            } == (PathModel {
                                root: source.paths_vec()[i2].path@.root,
                                offsets: source.paths_vec()[i2].path@.offsets.push(o),
                            }));
                        }
                    }
                }
            }
            proof {
                assert forall|q: PathModel| acc@.paths.contains(q) <==> ext_paths(
                    *self,
                    sources@,
                    o,
                ).contains(q) by {}
                assert(acc@.paths =~= ext_paths(*self, sources@, o));
            }
        }
        let r = RefID(self.refs.len());
        self.refs.push(Some(acc));
        proof {
            assert forall|j: int| #[trigger] live(*self, j) implies ref_wf(self.refs@[j]->0) by {
                if j < old(self).refs@.len() {
                    assert(self.refs@[j] == old(self).refs@[j]);
                    assert(live(*old(self), j));
                    assert(ref_wf(old(self).refs@[j]->0));
                }
            }
        }
        r
    }

    /// Extend every path of every source by one concrete label, issuing a
    /// fresh unpinned reference; with no sources the reference borrows the
    /// root named by the label directly.
    pub fn extend_by_label(
        &mut self,
        sources: &Vec<RefID>,
        loc: u16,
        mutable: bool,
        lbl: Label,
    ) -> (r: RefID)
        requires
            bs_wf(*old(self)),
            forall|k: int| 0 <= k < sources@.len() ==> live(*old(self), #[trigger] sources@[k].0 as int),
        ensures
            r.0 == old(self).refs@.len(),
            final(self).refs@.len() == old(self).refs@.len() + 1,
            forall|j: int|
                live(*old(self), j) <==> live(*final(self), j) && j < old(self).refs@.len(),
            forall|j: int| #[trigger] live(*old(self), j) ==> at(*final(self), j) == at(*old(self), j),
            live(*final(self), r.0 as int),
            at(*final(self), r.0 as int) == (RefModel {
                mutable,
                pinned: false,
                paths: ext_paths(*old(self), sources@, Offset::Label(lbl)),
            }),
            bs_wf(*final(self)),
    {
        self.extend(sources, loc, mutable, Offset::Label(lbl))
    }

    /// Extend every path of every source by a wildcard tagged with the
    /// producing instruction offset and result slot, issuing a fresh
    /// unpinned reference.
    pub fn extend_by_unknown(
        &mut self,
        sources: &Vec<RefID>,
        loc: u16,
        mutable: bool,
        instr: u16,
        slot: u16,
    ) -> (r: RefID)
        requires
            bs_wf(*old(self)),
            forall|k: int| 0 <= k < sources@.len() ==> live(*old(self), #[trigger] sources@[k].0 as int),
        ensures
            r.0 == old(self).refs@.len(),
            final(self).refs@.len() == old(self).refs@.len() + 1,
            forall|j: int|
                live(*old(self), j) <==> live(*final(self), j) && j < old(self).refs@.len(),
            forall|j: int| #[trigger] live(*old(self), j) ==> at(*final(self), j) == at(*old(self), j),
            live(*final(self), r.0 as int),
            at(*final(self), r.0 as int) == (RefModel {
                mutable,
                pinned: false,
                paths: ext_paths(*old(self), sources@, Offset::Star(instr, slot)),
            }),
            bs_wf(*final(self)),
    {
        self.extend(sources, loc, mutable, Offset::Star(instr, slot))
    }
}

} // verus!
