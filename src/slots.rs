//! What numbered sibling directories already hold, and the first version free for a name.

use vstd::prelude::*;

use crate::names::same;

verus! {

/// A file name present in one numbered sibling of a destination directory.
#[derive(Clone, Debug)]
pub struct Slot {
    pub version: u64,
    pub file: Vec<char>,
}

/// Version `v` of the destination already holds a file named `f`.
pub open spec fn occupied(occ: Seq<Slot>, v: u64, f: Seq<char>) -> bool {
    exists|k: int| 0 <= k < occ.len() && (#[trigger] occ[k]).version == v && occ[k].file@ == f
}

/// `v` is the first version from `start` on whose directory has no file named `f`.
pub open spec fn first_free_from(occ: Seq<Slot>, f: Seq<char>, start: u64, v: u64) -> bool {
    &&& start <= v
    &&& !occupied(occ, v, f)
    &&& forall|w: u64| start <= w < v ==> #[trigger] occupied(occ, w, f)
}

/// Whether version `v` already holds a file named `f`.
pub fn is_occupied(occ: &Vec<Slot>, v: u64, f: &Vec<char>) -> (r: bool)
    ensures
        r == occupied(occ@, v, f@),
{
    let mut k: usize = 0;
    while k < occ.len()
        invariant
            k <= occ@.len(),
            forall|j: int| 0 <= j < k ==> !(occ@[j].version == v && occ@[j].file@ == f@),
        decreases occ@.len() - k,
    {
        if occ[k].version == v && same(&occ[k].file, f) {
            return true;
        }
        k = k + 1;
    }
    false
}

/// The first version from `start` on that has no file named `f`; `None` when the
/// versions run out before one is free.
pub fn first_free(occ: &Vec<Slot>, f: &Vec<char>, start: u64) -> (r: Option<u64>)
    ensures
        r matches Some(v) ==> first_free_from(occ@, f@, start, v),
        r is None ==> forall|w: u64| start <= w ==> #[trigger] occupied(occ@, w, f@),
{
    let mut v: u64 = start;
    loop
        invariant
            start <= v,
            forall|w: u64| start <= w < v ==> #[trigger] occupied(occ@, w, f@),
        decreases u64::MAX - v,
    {
        if !is_occupied(occ, v, f) {
            return Some(v);
        }
        if v == u64::MAX {
            assert forall|w: u64| start <= w implies #[trigger] occupied(occ@, w, f@) by {
                if w < v {
                }
            };
            return None;
        }
        v = v + 1;
    }
}

/// Reserve the first free version from `start` on for a file named `f`, and record the
/// file there.
pub fn reserve(occ: &mut Vec<Slot>, f: &Vec<char>, start: u64) -> (r: Option<u64>)
    ensures
        r matches Some(v) ==> first_free_from(old(occ)@, f@, start, v) && final(occ)@.len() == old(
            occ,
        )@.len() + 1 && final(occ)@.last().version == v && final(occ)@.last().file@ == f@
            && final(occ)@.subrange(0, old(occ)@.len() as int) == old(occ)@,
        r is None ==> final(occ)@ == old(occ)@ && forall|w: u64|
            start <= w ==> #[trigger] occupied(old(occ)@, w, f@),
{
    match first_free(occ, f, start) {
        Some(v) => {
            let ghost o = occ@;
            occ.push(Slot { version: v, file: f.clone() });
            assert(occ@.subrange(0, o.len() as int) =~= o);
            Some(v)
        },
        None => None,
    }
}

/// A slot stays occupied when another is added.
pub proof fn lemma_occupied_grows(occ: Seq<Slot>, extra: Slot)
    ensures
        forall|v: u64, f: Seq<char>| occupied(occ, v, f) ==> #[trigger] occupied(occ.push(extra), v, f),
        occupied(occ.push(extra), extra.version, extra.file@),
{
    assert forall|v: u64, f: Seq<char>| occupied(occ, v, f) implies #[trigger] occupied(occ.push(extra), v, f) by {
        let k = choose|k: int| 0 <= k < occ.len() && (#[trigger] occ[k]).version == v && occ[k].file@ == f;
        assert(occ.push(extra)[k] == occ[k]);
    };
    assert(occ.push(extra)[occ.len() as int] == extra);
}

/// A slot of a listing stays occupied in any listing that extends it.
pub proof fn lemma_prefix_occupied(small: Seq<Slot>, big: Seq<Slot>)
    requires
        small.len() <= big.len(),
        big.subrange(0, small.len() as int) == small,
    ensures
        forall|v: u64, f: Seq<char>| #[trigger] occupied(small, v, f) ==> occupied(big, v, f),
{
    assert forall|v: u64, f: Seq<char>| #[trigger] occupied(small, v, f) implies occupied(big, v, f) by {
        let k = choose|k: int| 0 <= k < small.len() && (#[trigger] small[k]).version == v && small[k].file@ == f;
        assert(big.subrange(0, small.len() as int)[k] == big[k]);
    };
}

/// A slot occupied after one more is added was occupied before, or is the added one.
pub proof fn lemma_occupied_push_cases(occ: Seq<Slot>, extra: Slot, v: u64, f: Seq<char>)
    requires
        occupied(occ.push(extra), v, f),
    ensures
        occupied(occ, v, f) || (extra.version == v && extra.file@ == f),
{
    let k = choose|k: int| 0 <= k < occ.len() + 1 && (#[trigger] occ.push(extra)[k]).version == v && occ.push(extra)[k].file@ == f;
    if k < occ.len() {
        assert(occ.push(extra)[k] == occ[k]);
    }
}

/// Reserving never picks a slot that is taken: a name reserved once more from the same
/// start lands in a later version.
pub proof fn reserve_twice_differs(occ: Seq<Slot>, f: Seq<char>, start: u64, v: u64, extra: Slot, w: u64)
    requires
        first_free_from(occ, f, start, v),
        extra.version == v,
        extra.file@ == f,
        first_free_from(occ.push(extra), f, start, w),
    ensures
        w != v,
        v < w,
{
    lemma_occupied_grows(occ, extra);
    if w < v {
        assert(occupied(occ, w, f));
    }
}

pub open spec fn digits() -> Seq<char> {
    seq!['0', '1', '2', '3', '4', '5', '6', '7', '8', '9']
}

/// The decimal digits of `n`, most significant first, without leading zeros.
pub open spec fn decimal(n: nat) -> Seq<char>
    decreases n,
{
    if n < 10 {
        seq![digits()[n as int]]
    } else {
        decimal(n / 10) + seq![digits()[(n % 10) as int]]
    }
}

/// The decimal digits of `n`.
pub fn to_decimal(n: u64) -> (r: Vec<char>)
    ensures
        r@ == decimal(n as nat),
    decreases n,
{
    let ds = vec!['0', '1', '2', '3', '4', '5', '6', '7', '8', '9'];
    assert(ds@ =~= digits());
    if n < 10 {
        let mut r: Vec<char> = Vec::new();
        r.push(ds[n as usize]);
        assert(r@ =~= seq![digits()[n as int]]);
        r
    } else {
        let mut r = to_decimal(n / 10);
        r.push(ds[(n % 10) as usize]);
        assert(r@ =~= decimal((n / 10) as nat) + seq![digits()[(n % 10) as int]]);
        r
    }
}

/// The name of quarantine version `v`: the base name itself for version 0, else the base
/// name followed by the version number.
pub open spec fn version_dir(base: Seq<char>, v: u64) -> Seq<char> {
    if v == 0 {
        base
    } else {
        base + decimal(v as nat)
    }
}

/// The name of the directory of quarantine version `v`.
pub fn version_dir_name(base: &Vec<char>, v: u64) -> (r: Vec<char>)
    ensures
        r@ == version_dir(base@, v),
{
    if v == 0 {
        let r = crate::names::slice(base, 0, base.len());
        assert(r@ =~= base@);
        r
    } else {
        crate::names::concat(base, &to_decimal(v))
    }
}

pub open spec fn apple_suffix() -> Seq<char> {
    seq!['A', 'P', 'P', 'L', 'E']
}

/// The name of destination version `v`: the version number followed by `APPLE`.
pub fn apple_dir_name(v: u64) -> (r: Vec<char>)
    ensures
        r@ == decimal(v as nat) + apple_suffix(),
{
    let suffix = vec!['A', 'P', 'P', 'L', 'E'];
    assert(suffix@ =~= apple_suffix());
    crate::names::concat(&to_decimal(v), &suffix)
}

} // verus!
