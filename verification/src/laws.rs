//! Laws of the borrow-set domain: released references vanish from every
//! query, `join` absorbs covered sets, `join` is idempotent and commutative
//! up to covering, and writability excludes proper extensions.
//!
//! The ordering laws of the path algebra stand beside `compare` in the
//! `paths` module.

use crate::paths::{cmp_paths, lemma_compare_refl, path_wf, Extension, Label, Ordering, PathModel};
use crate::references::ref_wf;
use crate::set::{
    at, bs_wf, consistent_world, covers_spec, filter_passes, is_join_of, joined_paths, live,
    pair_rel, path_covered, set_covers, starts_with_label, BorrowSet, QueryFilter,
};
use vstd::prelude::*;

verus! {

/// Every path stored under a live reference of a well-formed borrow set is
/// well-formed.
pub proof fn lemma_live_paths_wf(s: BorrowSet, id: int)
    requires
        bs_wf(s),
        live(s, id),
    ensures
        forall|q: PathModel| #[trigger] at(s, id).paths.contains(q) ==> path_wf(q),
{
    assert forall|q: PathModel| #[trigger] at(s, id).paths.contains(q) implies path_wf(q) by {
        assert(ref_wf(s.refs@[id]->0));
        let r = s.refs@[id]->0;
        let k = choose|k: int| 0 <= k < r.paths_vec().len() && r.paths_vec()[k].path@ == q;
        assert(path_wf(r.paths_vec()[k].path@));
    }
}

/// A set of well-formed paths covers itself: each path is equal to itself.
pub proof fn lemma_set_covers_refl(ps: Set<PathModel>)
    requires
        forall|q: PathModel| #[trigger] ps.contains(q) ==> path_wf(q),
    ensures
        set_covers(ps, ps),
{
    assert forall|q: PathModel| #[trigger] ps.contains(q) implies path_covered(ps, q) by {
        lemma_compare_refl(q);
    }
}

/// A reference that is no longer live can never again be reported by a
/// query: no filter admits it, and the membership conditions of every
/// query demand liveness. Releasing a non-pinned reference makes it
/// non-live, so the released identifier is absent from all later results.
pub proof fn law_released_never_reported(s: BorrowSet, oid: int)
    requires
        !live(s, oid),
    ensures
        forall|f: QueryFilter, id: int| !(#[trigger] filter_passes(s, f, id, oid)),
        forall|lbl: Label| !(live(s, oid) && starts_with_label(s, oid, lbl)),
{
}

/// Join absorbs covered sets: when `a` covers `b`, joining `b` into `a`
/// changes no reference's path set.
pub proof fn law_join_absorbs_covers(a: BorrowSet, b: BorrowSet, j: BorrowSet)
    requires
        consistent_world(a, b),
        covers_spec(a, b),
        is_join_of(j, a, b),
    ensures
        forall|id: int| #[trigger] live(a, id) ==> at(j, id).paths == at(a, id).paths,
{
    assert forall|id: int| #[trigger] live(a, id) implies at(j, id).paths == at(a, id).paths by {
        reveal(joined_paths);
        assert(live(b, id));
        assert(set_covers(at(a, id).paths, at(b, id).paths));
        assert forall|q: PathModel| at(j, id).paths.contains(q) implies at(a, id).paths.contains(
            q,
        ) by {
            if !at(a, id).paths.contains(q) {
                assert(at(b, id).paths.contains(q) && !path_covered(at(a, id).paths, q));
            }
        }
        assert forall|q: PathModel| at(a, id).paths.contains(q) implies at(j, id).paths.contains(
            q,
        ) by {}
        assert(at(j, id).paths =~= at(a, id).paths);
    }
}

/// Join is idempotent: joining a well-formed set with itself changes no
/// reference's path set.
pub proof fn law_join_idempotent(a: BorrowSet, j: BorrowSet)
    requires
        bs_wf(a),
        consistent_world(a, a),
        is_join_of(j, a, a),
    ensures
        forall|id: int| #[trigger] live(a, id) ==> at(j, id).paths == at(a, id).paths,
{
    assert forall|id: int| #[trigger] live(a, id) implies set_covers(
        at(a, id).paths,
        at(a, id).paths,
    ) by {
        lemma_live_paths_wf(a, id);
        lemma_set_covers_refl(at(a, id).paths);
    }
    law_join_absorbs_covers(a, a, j);
}

/// Join is commutative up to covering: the two joins of `a` and `b` cover
/// one another, so as abstract states they carry the same information.
pub proof fn law_join_commutative(a: BorrowSet, b: BorrowSet, j1: BorrowSet, j2: BorrowSet)
    requires
        bs_wf(a),
        bs_wf(b),
        consistent_world(a, b),
        is_join_of(j1, a, b),
        is_join_of(j2, b, a),
    ensures
        covers_spec(j1, j2),
        covers_spec(j2, j1),
{
    assert forall|id: int| #[trigger] live(j2, id) implies set_covers(
        at(j1, id).paths,
        at(j2, id).paths,
    ) by {
        reveal(joined_paths);
        assert(live(b, id) && live(a, id));
        lemma_live_paths_wf(a, id);
        lemma_live_paths_wf(b, id);
        assert forall|q: PathModel| at(j2, id).paths.contains(q) implies path_covered(
            at(j1, id).paths,
            q,
        ) by {
            if at(b, id).paths.contains(q) {
                if path_covered(at(a, id).paths, q) {
                    let p = choose|p: PathModel|
                        at(a, id).paths.contains(p) && (cmp_paths(p, q) is Equal || cmp_paths(
                            p,
                            q,
                        ) is RightExtendsLeft);
                    assert(at(j1, id).paths.contains(p));
                } else {
                    assert(at(j1, id).paths.contains(q));
                    lemma_compare_refl(q);
                }
            } else {
                assert(at(a, id).paths.contains(q));
                assert(at(j1, id).paths.contains(q));
                lemma_compare_refl(q);
            }
        }
    }
    assert forall|id: int| #[trigger] live(j1, id) implies set_covers(
        at(j2, id).paths,
        at(j1, id).paths,
    ) by {
        reveal(joined_paths);
        assert(live(b, id) && live(a, id));
        lemma_live_paths_wf(a, id);
        lemma_live_paths_wf(b, id);
        assert forall|q: PathModel| at(j1, id).paths.contains(q) implies path_covered(
            at(j2, id).paths,
            q,
        ) by {
            if at(a, id).paths.contains(q) {
                if path_covered(at(b, id).paths, q) {
                    let p = choose|p: PathModel|
                        at(b, id).paths.contains(p) && (cmp_paths(p, q) is Equal || cmp_paths(
                            p,
                            q,
                        ) is RightExtendsLeft);
                    assert(at(j2, id).paths.contains(p));
                } else {
                    assert(at(j2, id).paths.contains(q));
                    lemma_compare_refl(q);
                }
            } else {
                assert(at(b, id).paths.contains(q));
                assert(at(j2, id).paths.contains(q));
                lemma_compare_refl(q);
            }
        }
    }
}

/// Covering is reflexive on well-formed borrow sets: every set covers
/// itself.
pub proof fn law_covers_reflexive(s: BorrowSet)
    requires
        bs_wf(s),
    ensures
        covers_spec(s, s),
{
    assert forall|id: int| #[trigger] live(s, id) implies set_covers(
        at(s, id).paths,
        at(s, id).paths,
    ) by {
        lemma_live_paths_wf(s, id);
        lemma_set_covers_refl(at(s, id).paths);
    }
}

/// Covering is transitive across consistent worlds. Together with
/// reflexivity, `covers` is a preorder on borrow sets.
pub proof fn law_covers_transitive(s1: BorrowSet, s2: BorrowSet, s3: BorrowSet)
    requires
        bs_wf(s1),
        bs_wf(s2),
        bs_wf(s3),
        consistent_world(s1, s2),
        consistent_world(s2, s3),
        covers_spec(s1, s2),
        covers_spec(s2, s3),
    ensures
        covers_spec(s1, s3),
{
    assert forall|id: int| #[trigger] live(s3, id) implies set_covers(
        at(s1, id).paths,
        at(s3, id).paths,
    ) by {
        assert(live(s2, id) && live(s1, id));
        lemma_live_paths_wf(s1, id);
        lemma_live_paths_wf(s2, id);
        lemma_live_paths_wf(s3, id);
        assert forall|r: PathModel| at(s3, id).paths.contains(r) implies path_covered(
            at(s1, id).paths,
            r,
        ) by {
            assert(path_covered(at(s2, id).paths, r));
            let q = choose|q: PathModel|
                at(s2, id).paths.contains(q) && (cmp_paths(q, r) is Equal || cmp_paths(
                    q,
                    r,
                ) is RightExtendsLeft);
            assert(path_covered(at(s1, id).paths, q));
            let p = choose|p: PathModel|
                at(s1, id).paths.contains(p) && (cmp_paths(p, q) is Equal || cmp_paths(
                    p,
                    q,
                ) is RightExtendsLeft);
            crate::paths::lemma_compare_covering_trans(p, q, r);
        }
    }
}

/// A join covers both of its sides: joined pre-states only grow under the
/// covering preorder. With the finite per-function universe of labels and
/// wildcards bounding every path set, this monotonicity is what lets the
/// fixed-point iteration stabilise.
pub proof fn law_join_covers_inputs(a: BorrowSet, b: BorrowSet, j: BorrowSet)
    requires
        bs_wf(a),
        bs_wf(b),
        consistent_world(a, b),
        is_join_of(j, a, b),
    ensures
        covers_spec(j, a),
        covers_spec(j, b),
{
    assert forall|id: int| #[trigger] live(a, id) implies set_covers(
        at(j, id).paths,
        at(a, id).paths,
    ) by {
        reveal(joined_paths);
        lemma_live_paths_wf(a, id);
        assert forall|q: PathModel| at(a, id).paths.contains(q) implies path_covered(
            at(j, id).paths,
            q,
        ) by {
            assert(at(j, id).paths.contains(q));
            lemma_compare_refl(q);
        }
    }
    assert forall|id: int| #[trigger] live(b, id) implies set_covers(
        at(j, id).paths,
        at(b, id).paths,
    ) by {
        reveal(joined_paths);
        assert(live(a, id));
        lemma_live_paths_wf(a, id);
        lemma_live_paths_wf(b, id);
        assert forall|q: PathModel| at(b, id).paths.contains(q) implies path_covered(
            at(j, id).paths,
            q,
        ) by {
            if path_covered(at(a, id).paths, q) {
                let p = choose|p: PathModel|
                    at(a, id).paths.contains(p) && (cmp_paths(p, q) is Equal || cmp_paths(
                        p,
                        q,
                    ) is RightExtendsLeft);
                assert(at(j, id).paths.contains(p));
            } else {
                assert(at(j, id).paths.contains(q));
                lemma_compare_refl(q);
            }
        }
    }
}

/// A writable reference has no proper extensions: when no other live
/// reference extends it at a wildcard or at a label, then no comparison of
/// one of its paths against a path of any other live reference — mutable
/// or not — is a strict right extension.
pub proof fn law_writable_no_proper_extensions(s: BorrowSet, id: int)
    requires
        forall|oid: int|
            !(#[trigger] live(s, oid) && oid != id && pair_rel(
                s,
                id,
                oid,
                Ordering::RightExtendsLeft(Extension::Star),
            )),
        forall|oid: int, lbl: Label|
            !(#[trigger] live(s, oid) && oid != id && #[trigger] pair_rel(
                s,
                id,
                oid,
                Ordering::RightExtendsLeft(Extension::Label(lbl)),
            )),
    ensures
        forall|oid: int, p: PathModel, q: PathModel|
            #![trigger at(s, id).paths.contains(p), at(s, oid).paths.contains(q)]
            live(s, oid) && oid != id && at(s, id).paths.contains(p) && at(s, oid).paths.contains(
                q,
            ) ==> !(cmp_paths(p, q) is RightExtendsLeft),
{
    assert forall|oid: int, p: PathModel, q: PathModel|
        #![trigger at(s, id).paths.contains(p), at(s, oid).paths.contains(q)]
        live(s, oid) && oid != id && at(s, id).paths.contains(p) && at(s, oid).paths.contains(
            q,
        ) implies !(cmp_paths(p, q) is RightExtendsLeft) by {
        if cmp_paths(p, q) is RightExtendsLeft {
            let e = cmp_paths(p, q)->0;
            assert(cmp_paths(p, q) == Ordering::RightExtendsLeft(e));
            match e {
                Extension::Star => {
                    assert(pair_rel(s, id, oid, Ordering::RightExtendsLeft(Extension::Star)));
                },
                Extension::Label(lbl) => {
                    assert(pair_rel(
                        s,
                        id,
                        oid,
                        Ordering::RightExtendsLeft(Extension::Label(lbl)),
                    ));
                },
            }
        }
    }
}

} // verus!
