//! Which listed files leave the working directory, and the quarantine version each goes to.

use vstd::prelude::*;

use crate::index::{kind_of, Kind};
use crate::matcher::{
    contains_name, distinct_names, exact_in, exact_pair, exact_pair_is_kept, exact_pair_name, holds_name,
    in_exact_pair, pool, repaired_to, Matcher, RepairRecord,
};
use crate::names::same;
use crate::slots::{
    first_free_from, lemma_occupied_grows, lemma_occupied_push_cases, lemma_prefix_occupied, occupied, reserve,
    Slot,
};

verus! {

/// A repair moved the file once named `n` to another name.
pub open spec fn renamed_away(repairs: Seq<RepairRecord>, n: Seq<char>) -> bool {
    exists|k: int|
        0 <= k < repairs.len() && (((#[trigger] repairs[k]).original_motion@ == n
            && repairs[k].repaired_motion@ != n) || (repairs[k].original_still@ == n
            && repairs[k].repaired_still@ != n))
}

/// The listed file `n` leaves the working directory: it is not kept, and it still
/// stands under that name.
pub open spec fn to_quarantine(kept: Seq<Vec<char>>, repairs: Seq<RepairRecord>, n: Seq<char>) -> bool {
    !holds_name(kept, n) && !renamed_away(repairs, n)
}

/// Whether a repair moved the file once named `n` to another name.
pub fn is_renamed_away(repairs: &Vec<RepairRecord>, n: &Vec<char>) -> (r: bool)
    ensures
        r == renamed_away(repairs@, n@),
{
    let mut k: usize = 0;
    while k < repairs.len()
        invariant
            k <= repairs@.len(),
            forall|j: int|
                0 <= j < k ==> !(((#[trigger] repairs@[j]).original_motion@ == n@
                    && repairs@[j].repaired_motion@ != n@) || (repairs@[j].original_still@ == n@
                    && repairs@[j].repaired_still@ != n@)),
        decreases repairs@.len() - k,
    {
        let r = &repairs[k];
        if (same(&r.original_motion, n) && !same(&r.repaired_motion, n)) || (same(&r.original_still, n)
            && !same(&r.repaired_still, n)) {
            return true;
        }
        k = k + 1;
    }
    false
}

/// An earlier entry of the plan, before `k`, put a file of the same name in version `w`.
pub open spec fn taken_before(all: Seq<Vec<char>>, plan: Seq<Option<u64>>, k: int, w: u64) -> bool {
    exists|j: int| 0 <= j < k && plan[j] == Some(w) && all[j]@ == all[k]@
}

/// Listed file `k` is placed in the first version where no file of its name stood
/// before the plan and none was placed earlier in the plan; it is recorded there now.
pub open spec fn placed_first(
    all: Seq<Vec<char>>,
    occ0: Seq<Slot>,
    occ: Seq<Slot>,
    plan: Seq<Option<u64>>,
    k: int,
) -> bool {
    &&& !occupied(occ0, plan[k]->0, all[k]@)
    &&& occupied(occ, plan[k]->0, all[k]@)
    &&& forall|w: u64|
        w < plan[k]->0 ==> #[trigger] occupied(occ0, w, all[k]@) || taken_before(all, plan, k, w)
}

/// Every slot recorded now stood before the plan, or holds a file the plan put there.
pub open spec fn accounted(all: Seq<Vec<char>>, occ0: Seq<Slot>, occ: Seq<Slot>, plan: Seq<Option<u64>>) -> bool {
    forall|w: u64, f: Seq<char>|
        #[trigger] occupied(occ, w, f) ==> occupied(occ0, w, f) || exists|j: int|
            0 <= j < plan.len() && plan[j] == Some(w) && all[j]@ == f
}

/// The quarantine plan so far covers the listed files before `i`.
pub open spec fn plan_upto(
    all: Seq<Vec<char>>,
    kept: Seq<Vec<char>>,
    repairs: Seq<RepairRecord>,
    occ0: Seq<Slot>,
    occ: Seq<Slot>,
    plan: Seq<Option<u64>>,
    i: int,
) -> bool {
    &&& plan.len() == i
    &&& occ0.len() <= occ.len()
    &&& occ.subrange(0, occ0.len() as int) == occ0
    &&& forall|k: int| 0 <= k < i ==> (#[trigger] plan[k] is Some <==> to_quarantine(kept, repairs, all[k]@))
    &&& accounted(all, occ0, occ, plan)
    &&& forall|k: int| 0 <= k < i && #[trigger] plan[k] is Some ==> placed_first(all, occ0, occ, plan, k)
    &&& forall|a: int, b: int|
        0 <= a < i && 0 <= b < i && a != b && #[trigger] plan[a] is Some && #[trigger] plan[b] is Some
            ==> !(plan[a]->0 == plan[b]->0 && all[a]@ == all[b]@)
}

proof fn lemma_placed_push(
    all: Seq<Vec<char>>,
    occ0: Seq<Slot>,
    occ: Seq<Slot>,
    occ1: Seq<Slot>,
    plan: Seq<Option<u64>>,
    x: Option<u64>,
    k: int,
)
    requires
        0 <= k < plan.len(),
        placed_first(all, occ0, occ, plan, k),
        forall|w: u64, g: Seq<char>| #[trigger] occupied(occ, w, g) ==> occupied(occ1, w, g),
    ensures
        placed_first(all, occ0, occ1, plan.push(x), k),
{
    let plan1 = plan.push(x);
    assert(plan1[k] == plan[k]);
    assert forall|w: u64| w < plan1[k]->0 implies #[trigger] occupied(occ0, w, all[k]@) || taken_before(
        all,
        plan1,
        k,
        w,
    ) by {
        if !occupied(occ0, w, all[k]@) {
            let j = choose|j: int| 0 <= j < k && plan[j] == Some(w) && all[j]@ == all[k]@;
            assert(plan1[j] == plan[j]);
        }
    };
}

proof fn lemma_accounted_push(
    all: Seq<Vec<char>>,
    occ0: Seq<Slot>,
    occ: Seq<Slot>,
    plan: Seq<Option<u64>>,
    x: Option<u64>,
)
    requires
        accounted(all, occ0, occ, plan),
    ensures
        accounted(all, occ0, occ, plan.push(x)),
{
    let plan1 = plan.push(x);
    assert forall|w: u64, f: Seq<char>| #[trigger] occupied(occ, w, f) implies occupied(occ0, w, f) || exists|j: int|
        0 <= j < plan1.len() && plan1[j] == Some(w) && all[j]@ == f by {
        if !occupied(occ0, w, f) {
            let j = choose|j: int| 0 <= j < plan.len() && plan[j] == Some(w) && all[j]@ == f;
            assert(plan1[j] == plan[j]);
        }
    };
}

/// Plan the quarantine of a listing: every listed file that is neither kept nor renamed
/// away goes to the first version of the quarantine directory (the plain directory is
/// version 0) that has no file of its name; the others stay (`None`). `occ` holds what
/// the quarantine directories already contain, and receives the planned files. `None`
/// only when a file finds every version taken.
pub fn plan_quarantine(
    all: &Vec<Vec<char>>,
    kept: &Vec<Vec<char>>,
    repairs: &Vec<RepairRecord>,
    occ: &mut Vec<Slot>,
) -> (r: Option<Vec<Option<u64>>>)
    ensures
        r matches Some(plan) ==> plan_upto(all@, kept@, repairs@, old(occ)@, final(occ)@, plan@, all@.len() as int),
        r is None ==> exists|k: int|
            0 <= k < all@.len() && to_quarantine(kept@, repairs@, all@[k]@) && forall|w: u64|
                #[trigger] occupied(final(occ)@, w, all@[k]@),
{
    let ghost occ0 = occ@;
    let mut plan: Vec<Option<u64>> = Vec::new();
    assert(occ@.subrange(0, occ0.len() as int) =~= occ0);
    let mut i: usize = 0;
    while i < all.len()
        invariant
            i <= all@.len(),
            occ0 == old(occ)@,
            plan_upto(all@, kept@, repairs@, occ0, occ@, plan@, i as int),
        decreases all@.len() - i,
    {
        let n = &all[i];
        let ghost plan0 = plan@;
        let ghost before = occ@;
        if contains_name(kept, n) || is_renamed_away(repairs, n) {
            plan.push(None);
            proof {
                lemma_accounted_push(all@, occ0, occ@, plan0, None);
                assert forall|k: int|
                    0 <= k < i + 1 && #[trigger] plan@[k] is Some implies placed_first(all@, occ0, occ@, plan@, k) by {
                    lemma_placed_push(all@, occ0, occ@, occ@, plan0, None, k);
                };
                assert forall|a: int, b: int|
                    0 <= a < i + 1 && 0 <= b < i + 1 && a != b && #[trigger] plan@[a] is Some
                        && #[trigger] plan@[b] is Some implies !(plan@[a]->0 == plan@[b]->0 && all@[a]@
                        == all@[b]@) by {
                    assert(plan@[a] == plan0[a] && plan@[b] == plan0[b]);
                };
            }
        } else {
            match reserve(occ, n, 0) {
                Some(v) => {
                    plan.push(Some(v));
                    proof {
                        let extra = occ@.last();
                        let f = all@[i as int]@;
                        assert(occ@ == before.push(extra));
                        lemma_occupied_grows(before, extra);
                        lemma_prefix_occupied(occ0, before);
                        assert(occ@.subrange(0, occ0.len() as int) =~= occ0);
                        assert forall|w: u64, g: Seq<char>| #[trigger] occupied(occ@, w, g) implies occupied(occ0, w, g)
                            || exists|j: int| 0 <= j < plan@.len() && plan@[j] == Some(w) && all@[j]@ == g by {
                            lemma_occupied_push_cases(before, extra, w, g);
                            if occupied(before, w, g) && !occupied(occ0, w, g) {
                                let j = choose|j: int| 0 <= j < plan0.len() && plan0[j] == Some(w) && all@[j]@ == g;
                                assert(plan@[j] == plan0[j]);
                            } else if !occupied(occ0, w, g) {
                                assert(plan@[i as int] == Some(w));
                            }
                        };
                        assert forall|w: u64| w < v implies #[trigger] occupied(occ0, w, f) || taken_before(
                            all@,
                            plan@,
                            i as int,
                            w,
                        ) by {
                            assert(occupied(before, w, f));
                            if !occupied(occ0, w, f) {
                                let j = choose|j: int| 0 <= j < plan0.len() && plan0[j] == Some(w) && all@[j]@ == f;
                                assert(plan@[j] == plan0[j]);
                            }
                        };
                        assert(placed_first(all@, occ0, occ@, plan@, i as int));
                        assert forall|k: int|
                            0 <= k < i + 1 && #[trigger] plan@[k] is Some implies placed_first(all@, occ0, occ@, plan@, k) by {
                            if k < i {
                                assert(plan@[k] == plan0[k]);
                                lemma_placed_push(all@, occ0, before, occ@, plan0, Some(v), k);
                            }
                        };
                        assert forall|a: int, b: int|
                            0 <= a < i + 1 && 0 <= b < i + 1 && a != b && #[trigger] plan@[a] is Some
                                && #[trigger] plan@[b] is Some implies !(plan@[a]->0 == plan@[b]->0
                                && all@[a]@ == all@[b]@) by {
                            if a == i {
                                assert(plan@[b] == plan0[b]);
                                assert(occupied(before, plan@[b]->0, all@[b]@));
                            } else if b == i {
                                assert(plan@[a] == plan0[a]);
                                assert(occupied(before, plan@[a]->0, all@[a]@));
                            } else {
                                assert(plan@[a] == plan0[a] && plan@[b] == plan0[b]);
                            }
                        };
                    }
                },
                None => {
                    assert(to_quarantine(kept@, repairs@, all@[i as int]@));
                    return None;
                },
            }
        }
        i = i + 1;
    }
    Some(plan)
}

/// Quarantine is exhaustive and exact: a listed file is planned to leave exactly when
/// it is neither kept nor renamed away, and then it is recorded in a quarantine version.
pub proof fn quarantine_exhaustive_and_exact(
    all: Seq<Vec<char>>,
    kept: Seq<Vec<char>>,
    repairs: Seq<RepairRecord>,
    occ0: Seq<Slot>,
    occ: Seq<Slot>,
    plan: Seq<Option<u64>>,
    k: int,
)
    requires
        plan_upto(all, kept, repairs, occ0, occ, plan, all.len() as int),
        0 <= k < all.len(),
    ensures
        plan[k] is Some <==> (!holds_name(kept, all[k]@) && !renamed_away(repairs, all[k]@)),
        plan[k] is Some ==> occupied(occ, plan[k]->0, all[k]@),
{
    assert(plan[k] is Some <==> to_quarantine(kept, repairs, all[k]@));
    if plan[k] is Some {
        assert(placed_first(all, occ0, occ, plan, k));
    }
}

/// Moves never overwrite: each planned file lands where no file of its name stood, and
/// no two planned files land on the same name in the same version.
pub proof fn quarantine_never_overwrites(
    all: Seq<Vec<char>>,
    kept: Seq<Vec<char>>,
    repairs: Seq<RepairRecord>,
    occ0: Seq<Slot>,
    occ: Seq<Slot>,
    plan: Seq<Option<u64>>,
    a: int,
    b: int,
)
    requires
        plan_upto(all, kept, repairs, occ0, occ, plan, all.len() as int),
        0 <= a < all.len(),
        0 <= b < all.len(),
        a != b,
        plan[a] is Some,
        plan[b] is Some,
    ensures
        !occupied(occ0, plan[a]->0, all[a]@),
        !(plan[a]->0 == plan[b]->0 && all[a]@ == all[b]@),
{
    assert(placed_first(all, occ0, occ, plan, a));
}

/// Both files of an exact pair stay in the working directory, whatever fuzzy repairs
/// were accepted before the quarantine.
pub proof fn exact_pair_never_quarantined(st: Matcher, m: int, p: int)
    requires
        st.wf(),
        0 <= m < st.index.mov@.len(),
        0 <= p < st.index.heic@.len() + st.index.jpeg@.len(),
        exact_pair(st.index.mov@[m], pool(st.index)[p]),
        p >= st.index.heic@.len() ==> !exact_in(st.index.heic@, st.index.mov@[m]),
    ensures
        !to_quarantine(st.kept@, st.repairs@, st.index.mov@[m].name@),
        !to_quarantine(st.kept@, st.repairs@, pool(st.index)[p].name@),
{
    exact_pair_is_kept(st, m, p);
}

/// In a listing without repeated names, each planned file goes to the first version that
/// held no file of its name before the plan.
pub proof fn quarantine_takes_first_free(
    all: Seq<Vec<char>>,
    kept: Seq<Vec<char>>,
    repairs: Seq<RepairRecord>,
    occ0: Seq<Slot>,
    occ: Seq<Slot>,
    plan: Seq<Option<u64>>,
    k: int,
)
    requires
        plan_upto(all, kept, repairs, occ0, occ, plan, all.len() as int),
        distinct_names(all),
        0 <= k < all.len(),
        plan[k] is Some,
    ensures
        first_free_from(occ0, all[k]@, 0, plan[k]->0),
{
    assert(placed_first(all, occ0, occ, plan, k));
    assert forall|w: u64| 0 <= w < plan[k]->0 implies #[trigger] occupied(occ0, w, all[k]@) by {
        if !occupied(occ0, w, all[k]@) {
            let j = choose|j: int| 0 <= j < k && plan[j] == Some(w) && all[j]@ == all[k]@;
        }
    };
}

/// A motion file left unpaired by the matching pass leaves the working directory, unless
/// a repair gave another file its very name.
pub proof fn unpaired_motion_is_quarantined(st: Matcher, m: int)
    requires
        st.wf(),
        0 <= m < st.index.mov@.len(),
        !st.matched@[m],
        !repaired_to(st.repairs@, st.index.mov@[m].name@),
    ensures
        to_quarantine(st.kept@, st.repairs@, st.index.mov@[m].name@),
{
    let x = st.index;
    let n = x.mov@[m].name@;
    assert(kind_of(n) == Kind::Motion);
    assert forall|m2: int| 0 <= m2 < x.mov@.len() && x.mov@[m2].name@ == n implies m2 == m by {
        if m2 != m {
            assert(x.mov@[m2].stem@ != x.mov@[m].stem@);
        }
    };
    assert forall|q: int| 0 <= q < pool(x).len() implies pool(x)[q].name@ != n by {
        if q < x.heic@.len() {
            assert(pool(x)[q] == x.heic@[q]);
            assert(kind_of(x.heic@[q].name@) == Kind::StillHeic);
        } else {
            assert(pool(x)[q] == x.jpeg@[q - x.heic@.len()]);
            assert(kind_of(x.jpeg@[q - x.heic@.len()].name@) == Kind::StillJpeg);
        }
    };
    if holds_name(st.kept@, n) {
        let k = choose|k: int| 0 <= k < st.kept@.len() && (#[trigger] st.kept@[k])@ == n;
        assert(in_exact_pair(x, st.kept@[k]@) || repaired_to(st.repairs@, st.kept@[k]@));
        let m2 = choose|m2: int| 0 <= m2 < x.mov@.len() && #[trigger] exact_pair_name(x, m2, n);
        if x.mov@[m2].name@ == n && (exact_in(x.heic@, x.mov@[m2]) || exact_in(x.jpeg@, x.mov@[m2])) {
            assert(m2 == m);
            assert(st.matched@[m]);
        } else if exists|p: int| 0 <= p < x.heic@.len() && exact_pair(x.mov@[m2], x.heic@[p]) && x.heic@[p].name@ == n {
            let p = choose|p: int| 0 <= p < x.heic@.len() && exact_pair(x.mov@[m2], x.heic@[p]) && x.heic@[p].name@ == n;
            assert(pool(x)[p] == x.heic@[p]);
        } else {
            let p = choose|p: int| 0 <= p < x.jpeg@.len() && exact_pair(x.mov@[m2], x.jpeg@[p]) && x.jpeg@[p].name@ == n;
            assert(pool(x)[x.heic@.len() + p] == x.jpeg@[p]);
        }
    }
    if renamed_away(st.repairs@, n) {
        let r = choose|r: int|
            0 <= r < st.repairs@.len() && (((#[trigger] st.repairs@[r]).original_motion@ == n
                && st.repairs@[r].repaired_motion@ != n) || (st.repairs@[r].original_still@ == n
                && st.repairs@[r].repaired_still@ != n));
        assert(st.repair_ok(st.repairs@[r]));
        if st.repairs@[r].original_motion@ == n {
            let m2 = choose|m2: int|
                0 <= m2 < x.mov@.len() && st.matched@[m2] && #[trigger] x.mov@[m2].name@ == st.repairs@[r].original_motion@;
            assert(m2 == m);
        } else {
            let q = choose|q: int| 0 <= q < pool(x).len() && #[trigger] pool(x)[q].name@ == st.repairs@[r].original_still@;
        }
    }
}

} // verus!
