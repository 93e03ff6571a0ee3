//! Relocation of canonical pairs into versioned destination directories.

use vstd::prelude::*;

use crate::matcher::{img_marker, prefix_len};
use crate::names::{concat, eq_fold, ext_of, has_prefix, same, same_fold, slice, split_name, starts_with, stem_of};
use crate::slots::{
    lemma_occupied_grows, lemma_occupied_push_cases, lemma_prefix_occupied, occupied, reserve, Slot,
};

verus! {

/// The first version of the destination directories.
pub const FIRST_VERSION: u64 = 100;

/// One pair to relocate: listing positions of the motion file and its still, the
/// destination version, and the names both take there.
#[derive(Clone, Debug)]
pub struct Transfer {
    pub motion: usize,
    pub still: usize,
    pub version: u64,
    pub motion_target: Vec<char>,
    pub still_target: Vec<char>,
}

pub open spec fn mov_ext() -> Seq<char> {
    seq!['m', 'o', 'v']
}

pub open spec fn heic_ext() -> Seq<char> {
    seq!['h', 'e', 'i', 'c']
}

pub open spec fn jpg_ext() -> Seq<char> {
    seq!['j', 'p', 'g']
}

/// A motion file in canonical form: extension `mov` in any case, and a stem that starts
/// with the camera marker and is longer than the prefix.
pub open spec fn canonical_motion(n: Seq<char>) -> bool {
    &&& ext_of(n) is Some
    &&& eq_fold(ext_of(n).unwrap(), mov_ext())
    &&& has_prefix(stem_of(n), img_marker())
    &&& stem_of(n).len() > prefix_len()
}

/// Name `j` of the listing has stem `stem` and extension `ext` in any case.
pub open spec fn is_sibling(names: Seq<Vec<char>>, j: int, stem: Seq<char>, ext: Seq<char>) -> bool {
    &&& 0 <= j < names.len()
    &&& stem_of(names[j]@) == stem
    &&& ext_of(names[j]@) is Some
    &&& eq_fold(ext_of(names[j]@).unwrap(), ext)
}

/// Name `j` is the first of the listing with stem `stem` and extension `ext`.
pub open spec fn first_sibling(names: Seq<Vec<char>>, j: int, stem: Seq<char>, ext: Seq<char>) -> bool {
    &&& is_sibling(names, j, stem, ext)
    &&& forall|l: int| 0 <= l < j ==> !#[trigger] is_sibling(names, l, stem, ext)
}

pub open spec fn has_sibling(names: Seq<Vec<char>>, stem: Seq<char>, ext: Seq<char>) -> bool {
    exists|j: int| #[trigger] is_sibling(names, j, stem, ext)
}

/// The still that pairs with the motion file named `n`: one of its stem with extension
/// `heic`, else one with extension `jpg`.
pub open spec fn chosen_still(names: Seq<Vec<char>>, n: Seq<char>, j: int) -> bool {
    ||| first_sibling(names, j, stem_of(n), heic_ext())
    ||| (!has_sibling(names, stem_of(n), heic_ext()) && first_sibling(names, j, stem_of(n), jpg_ext()))
}

/// Listed file `k` is distributed: a canonical motion file with a still beside it.
pub open spec fn distributed(names: Seq<Vec<char>>, k: int) -> bool {
    &&& canonical_motion(names[k]@)
    &&& (has_sibling(names, stem_of(names[k]@), heic_ext()) || has_sibling(
        names,
        stem_of(names[k]@),
        jpg_ext(),
    ))
}

/// The name a file takes in its destination: the prefix of the motion stem and extension `ext`.
pub open spec fn target_name(motion: Seq<char>, ext: Seq<char>) -> Seq<char> {
    stem_of(motion).subrange(0, prefix_len()) + seq!['.'] + ext
}

/// The first name of the listing with stem `stem` and extension `ext`, ignoring case.
pub fn find_sibling(names: &Vec<Vec<char>>, stem: &Vec<char>, ext: &Vec<char>) -> (r: Option<usize>)
    ensures
        r matches Some(j) ==> first_sibling(names@, j as int, stem@, ext@),
        r is None ==> !has_sibling(names@, stem@, ext@),
{
    let mut j: usize = 0;
    while j < names.len()
        invariant
            j <= names@.len(),
            forall|l: int| 0 <= l < j ==> !#[trigger] is_sibling(names@, l, stem@, ext@),
        decreases names@.len() - j,
    {
        let (s, e) = split_name(&names[j]);
        match e {
            Some(e) => {
                if same(&s, stem) && same_fold(&e, ext) {
                    return Some(j);
                }
            },
            None => {},
        }
        j = j + 1;
    }
    None
}

/// The still and the destination names for listed file `k`, when it is distributed.
pub fn pair_for(names: &Vec<Vec<char>>, k: usize) -> (r: Option<(usize, Vec<char>, Vec<char>)>)
    requires
        k < names@.len(),
    ensures
        r is Some <==> distributed(names@, k as int),
        r matches Some((j, mt, st)) ==> chosen_still(names@, names@[k as int]@, j as int) && mt@
            == target_name(names@[k as int]@, mov_ext()) && st@ == target_name(
            names@[k as int]@,
            ext_of(names@[j as int]@).unwrap(),
        ),
{
    let n = &names[k];
    let (stem, ext) = split_name(n);
    let e = match ext {
        Some(e) => e,
        None => {
            return None;
        },
    };
    let mov = vec!['m', 'o', 'v'];
    let heic = vec!['h', 'e', 'i', 'c'];
    let jpg = vec!['j', 'p', 'g'];
    let marker = vec!['I', 'M', 'G', '_'];
    assert(mov@ =~= mov_ext());
    assert(heic@ =~= heic_ext());
    assert(jpg@ =~= jpg_ext());
    assert(marker@ =~= img_marker());
    if !same_fold(&e, &mov) || !starts_with(&stem, &marker) || stem.len() <= 8 {
        return None;
    }
    let j = match find_sibling(names, &stem, &heic) {
        Some(j) => j,
        None => match find_sibling(names, &stem, &jpg) {
            Some(j) => j,
            None => {
                return None;
            },
        },
    };
    let prefix = slice(&stem, 0, 8);
    let dot = vec!['.'];
    assert(dot@ =~= seq!['.']);
    let (_, sext) = split_name(&names[j]);
    let sext = sext.unwrap();
    let mt = concat(&concat(&prefix, &dot), &mov);
    let st = concat(&concat(&prefix, &dot), &sext);
    Some((j, mt, st))
}

/// Transfer `t` puts a file named `f` in version `w`.
pub open spec fn lands(t: Transfer, w: u64, f: Seq<char>) -> bool {
    t.version == w && (t.motion_target@ == f || t.still_target@ == f)
}

/// An entry of the plan before `k` puts a file named `f` in version `w`.
pub open spec fn moved_before(plan: Seq<Option<Transfer>>, k: int, w: u64, f: Seq<char>) -> bool {
    exists|j: int| 0 <= j < k && plan[j] is Some && #[trigger] lands(plan[j]->0, w, f)
}

/// Every slot recorded now stood before the plan, or holds a file the plan put there.
pub open spec fn dist_accounted(occ0: Seq<Slot>, occ: Seq<Slot>, plan: Seq<Option<Transfer>>) -> bool {
    forall|w: u64, f: Seq<char>|
        #[trigger] occupied(occ, w, f) ==> occupied(occ0, w, f) || moved_before(plan, plan.len() as int, w, f)
}

/// The distribution plan covers the listed files before `i`.
pub open spec fn dist_upto(
    names: Seq<Vec<char>>,
    occ0: Seq<Slot>,
    occ: Seq<Slot>,
    plan: Seq<Option<Transfer>>,
    i: int,
) -> bool {
    &&& plan.len() == i
    &&& occ0.len() <= occ.len()
    &&& occ.subrange(0, occ0.len() as int) == occ0
    &&& dist_accounted(occ0, occ, plan)
    &&& forall|k: int| 0 <= k < i ==> (#[trigger] plan[k] is Some <==> distributed(names, k))
    &&& forall|k: int| 0 <= k < i && #[trigger] plan[k] is Some ==> transfer_ok(names, occ0, occ, plan, k)
    &&& forall|a: int, b: int|
        0 <= a < i && 0 <= b < i && a != b && #[trigger] plan[a] is Some && #[trigger] plan[b] is Some
            ==> !(plan[a]->0.version == plan[b]->0.version && plan[a]->0.motion_target@
            == plan[b]->0.motion_target@)
}

/// Entry `k` of the plan is the transfer of listed file `k`: its still and names, and
/// the first version from `FIRST_VERSION` on where no motion file of its target name
/// stood before the plan and none was put earlier in the plan.
pub open spec fn transfer_ok(
    names: Seq<Vec<char>>,
    occ0: Seq<Slot>,
    occ: Seq<Slot>,
    plan: Seq<Option<Transfer>>,
    k: int,
) -> bool {
    let t = plan[k]->0;
    &&& t.motion == k
    &&& chosen_still(names, names[k]@, t.still as int)
    &&& t.motion_target@ == target_name(names[k]@, mov_ext())
    &&& t.still_target@ == target_name(names[k]@, ext_of(names[t.still as int]@).unwrap())
    &&& FIRST_VERSION <= t.version
    &&& !occupied(occ0, t.version, t.motion_target@)
    &&& occupied(occ, t.version, t.motion_target@)
    &&& forall|w: u64|
        FIRST_VERSION <= w < t.version ==> #[trigger] occupied(occ0, w, t.motion_target@) || moved_before(
            plan,
            k,
            w,
            t.motion_target@,
        )
}

proof fn lemma_transfer_ok_push(
    names: Seq<Vec<char>>,
    occ0: Seq<Slot>,
    occ: Seq<Slot>,
    occ1: Seq<Slot>,
    plan: Seq<Option<Transfer>>,
    x: Option<Transfer>,
    k: int,
)
    requires
        0 <= k < plan.len(),
        transfer_ok(names, occ0, occ, plan, k),
        forall|v: u64, f: Seq<char>| #[trigger] occupied(occ, v, f) ==> occupied(occ1, v, f),
    ensures
        transfer_ok(names, occ0, occ1, plan.push(x), k),
{
    let plan1 = plan.push(x);
    assert(plan1[k] == plan[k]);
    let t = plan[k]->0;
    assert(occupied(occ, t.version, t.motion_target@));
    assert forall|w: u64| FIRST_VERSION <= w < t.version implies #[trigger] occupied(occ0, w, t.motion_target@)
        || moved_before(plan1, k, w, t.motion_target@) by {
        if !occupied(occ0, w, t.motion_target@) {
            let j = choose|j: int| 0 <= j < k && plan[j] is Some && #[trigger] lands(plan[j]->0, w, t.motion_target@);
            assert(plan1[j] == plan[j]);
        }
    };
}

proof fn lemma_moved_before_push(plan: Seq<Option<Transfer>>, x: Option<Transfer>, w: u64, f: Seq<char>)
    requires
        moved_before(plan, plan.len() as int, w, f),
    ensures
        moved_before(plan.push(x), plan.len() as int, w, f),
        moved_before(plan.push(x), plan.len() as int + 1, w, f),
{
    let j = choose|j: int| 0 <= j < plan.len() && plan[j] is Some && #[trigger] lands(plan[j]->0, w, f);
    assert(plan.push(x)[j] == plan[j]);
}

/// Plan the distribution of a listing of the working directory: each canonical motion
/// file with a still beside it goes, with that still, to the first version from
/// `FIRST_VERSION` on whose directory holds no motion file of its target name; other
/// files get `None`. `occ` holds what the destination directories already contain, and
/// receives both planned files of each pair. `None` only when a pair finds every version
/// from `FIRST_VERSION` on taken.
pub fn plan_distribution(names: &Vec<Vec<char>>, occ: &mut Vec<Slot>) -> (r: Option<Vec<Option<Transfer>>>)
    ensures
        r matches Some(plan) ==> dist_upto(names@, old(occ)@, final(occ)@, plan@, names@.len() as int),
        r is None ==> exists|k: int|
            0 <= k < names@.len() && distributed(names@, k) && forall|w: u64|
                FIRST_VERSION <= w ==> #[trigger] occupied(final(occ)@, w, target_name(names@[k]@, mov_ext())),
{
    let ghost occ0 = occ@;
    let mut plan: Vec<Option<Transfer>> = Vec::new();
    assert(occ@.subrange(0, occ0.len() as int) =~= occ0);
    let mut i: usize = 0;
    while i < names.len()
        invariant
            i <= names@.len(),
            occ0 == old(occ)@,
            dist_upto(names@, occ0, occ@, plan@, i as int),
        decreases names@.len() - i,
    {
        let ghost plan0 = plan@;
        let ghost before = occ@;
        match pair_for(names, i) {
            None => {
                plan.push(None);
                proof {
                    assert forall|w: u64, f: Seq<char>| #[trigger] occupied(occ@, w, f) implies occupied(occ0, w, f)
                        || moved_before(plan@, plan@.len() as int, w, f) by {
                        if !occupied(occ0, w, f) {
                            lemma_moved_before_push(plan0, None, w, f);
                        }
                    };
                    assert forall|k: int| 0 <= k < i + 1 && #[trigger] plan@[k] is Some implies transfer_ok(
                        names@,
                        occ0,
                        occ@,
                        plan@,
                        k,
                    ) by {
                        lemma_transfer_ok_push(names@, occ0, occ@, occ@, plan0, None, k);
                    };
                    assert forall|a: int, b: int|
                        0 <= a < i + 1 && 0 <= b < i + 1 && a != b && #[trigger] plan@[a] is Some
                            && #[trigger] plan@[b] is Some implies !(plan@[a]->0.version == plan@[b]->0.version
                            && plan@[a]->0.motion_target@ == plan@[b]->0.motion_target@) by {
                        assert(plan@[a] == plan0[a] && plan@[b] == plan0[b]);
                    };
                }
            },
            Some((j, mt, st)) => {
                match reserve(occ, &mt, FIRST_VERSION) {
                    None => {
                        return None;
                    },
                    Some(v) => {
                        let ghost mid = occ@;
                        let st2 = st.clone();
                        occ.push(Slot { version: v, file: st2 });
                        let t = Transfer { motion: i, still: j, version: v, motion_target: mt, still_target: st };
                        plan.push(Some(t));
                        proof {
                            let e1 = mid.last();
                            let e2 = occ@.last();
                            lemma_occupied_grows(before, e1);
                            assert(mid == before.push(e1));
                            lemma_occupied_grows(mid, e2);
                            assert(occ@ == mid.push(e2));
                            lemma_prefix_occupied(occ0, before);
                            assert(occ@.subrange(0, occ0.len() as int) =~= occ0);
                            assert forall|vv: u64, f: Seq<char>| #[trigger] occupied(before, vv, f) implies occupied(
                                occ@,
                                vv,
                                f,
                            ) by {
                                assert(occupied(mid, vv, f));
                            };
                            assert(plan@[i as int] == Some(t));
                            assert forall|w: u64, f: Seq<char>| #[trigger] occupied(occ@, w, f) implies occupied(occ0, w, f)
                                || moved_before(plan@, plan@.len() as int, w, f) by {
                                lemma_occupied_push_cases(mid, e2, w, f);
                                if occupied(mid, w, f) {
                                    lemma_occupied_push_cases(before, e1, w, f);
                                }
                                if occupied(before, w, f) && !occupied(occ0, w, f) {
                                    lemma_moved_before_push(plan0, Some(t), w, f);
                                } else if !occupied(occ0, w, f) {
                                    assert(lands(plan@[i as int]->0, w, f));
                                }
                            };
                            assert forall|w: u64| FIRST_VERSION <= w < v implies #[trigger] occupied(occ0, w, mt@)
                                || moved_before(plan@, i as int, w, mt@) by {
                                assert(occupied(before, w, mt@));
                                if !occupied(occ0, w, mt@) {
                                    lemma_moved_before_push(plan0, Some(t), w, mt@);
                                }
                            };
                            assert(transfer_ok(names@, occ0, occ@, plan@, i as int));
                            assert forall|k: int| 0 <= k < i + 1 && #[trigger] plan@[k] is Some implies transfer_ok(
                                names@,
                                occ0,
                                occ@,
                                plan@,
                                k,
                            ) by {
                                if k < i {
                                    lemma_transfer_ok_push(names@, occ0, before, occ@, plan0, Some(t), k);
                                }
                            };
                            assert forall|a: int, b: int|
                                0 <= a < i + 1 && 0 <= b < i + 1 && a != b && #[trigger] plan@[a] is Some
                                    && #[trigger] plan@[b] is Some implies !(plan@[a]->0.version
                                    == plan@[b]->0.version && plan@[a]->0.motion_target@
                                    == plan@[b]->0.motion_target@) by {
                                if a == i {
                                    assert(plan@[b] == plan0[b]);
                                    assert(occupied(before, plan@[b]->0.version, plan@[b]->0.motion_target@));
                                } else if b == i {
                                    assert(plan@[a] == plan0[a]);
                                    assert(occupied(before, plan@[a]->0.version, plan@[a]->0.motion_target@));
                                } else {
                                    assert(plan@[a] == plan0[a] && plan@[b] == plan0[b]);
                                }
                            };
                        }
                    },
                }
            },
        }
        i = i + 1;
    }
    Some(plan)
}

/// Distribution never overwrites a motion file: where the directory of version `n`
/// already holds the target name of a pair, the pair goes to another version, and
/// every version from the first up to the one chosen was taken for that name.
pub proof fn distribution_advances_past_taken(
    names: Seq<Vec<char>>,
    occ0: Seq<Slot>,
    occ: Seq<Slot>,
    plan: Seq<Option<Transfer>>,
    k: int,
    n: u64,
)
    requires
        dist_upto(names, occ0, occ, plan, names.len() as int),
        0 <= k < names.len(),
        plan[k] is Some,
        occupied(occ0, n, plan[k]->0.motion_target@),
    ensures
        plan[k]->0.version != n,
        forall|w: u64|
            FIRST_VERSION <= w < plan[k]->0.version ==> #[trigger] occupied(occ0, w, plan[k]->0.motion_target@)
                || moved_before(plan, k, w, plan[k]->0.motion_target@),
{
    assert(transfer_ok(names, occ0, occ, plan, k));
}

} // verus!
