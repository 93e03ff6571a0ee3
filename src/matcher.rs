//! Pairing motion files with their stills. All exact pairs (same stem, same modification
//! time) are made first; then each motion file left over, in index order, may be offered
//! one fuzzy match, which the caller confirms once the rename that repairs it succeeded.

use vstd::prelude::*;

use crate::index::{lemma_kind_has_ext, tables_ok, CaptureFile, Index};
use crate::names::{concat, ext_of, has_prefix, same, slice, split_name, starts_with, stem_of};

verus! {

/// One fuzzy repair: both names before and after the rename.
#[derive(Clone, Debug)]
pub struct RepairRecord {
    pub original_motion: Vec<char>,
    pub original_still: Vec<char>,
    pub repaired_motion: Vec<char>,
    pub repaired_still: Vec<char>,
}

/// Two repair records hold the same names.
pub open spec fn same_record(a: RepairRecord, b: RepairRecord) -> bool {
    &&& a.original_motion@ == b.original_motion@
    &&& a.original_still@ == b.original_still@
    &&& a.repaired_motion@ == b.repaired_motion@
    &&& a.repaired_still@ == b.repaired_still@
}

/// A fuzzy match waiting for its rename: motion `motion` of the index, still `still` of
/// the pool of stills, and the names before and after.
#[derive(Clone, Debug)]
pub struct Proposal {
    pub motion: usize,
    pub still: usize,
    pub record: RepairRecord,
}

/// The state of one matching pass over an index.
pub struct Matcher {
    pub index: Index,
    /// Names that must survive quarantine.
    pub kept: Vec<Vec<char>>,
    /// Original names of the stills already paired.
    pub processed: Vec<Vec<char>>,
    /// Which motion files are paired.
    pub matched: Vec<bool>,
    pub repairs: Vec<RepairRecord>,
}

/// `n` is one of the names in `v`.
pub open spec fn holds_name(v: Seq<Vec<char>>, n: Seq<char>) -> bool {
    exists|i: int| 0 <= i < v.len() && (#[trigger] v[i])@ == n
}

/// No name occurs twice in `v`.
pub open spec fn distinct_names(v: Seq<Vec<char>>) -> bool {
    forall|i: int, j: int| 0 <= i < v.len() && 0 <= j < v.len() && i != j ==> v[i]@ != v[j]@
}

/// Every still that fuzzy matching looks at: the HEIC table, then the JPEG table.
pub open spec fn pool(x: Index) -> Seq<CaptureFile> {
    x.heic@ + x.jpeg@
}

/// Each name of `v` is the name of a still in the pool.
pub open spec fn from_pool(x: Index, v: Seq<Vec<char>>) -> bool {
    forall|k: int|
        0 <= k < v.len() ==> exists|q: int| 0 <= q < pool(x).len() && pool(x)[q].name@ == (#[trigger] v[k])@
}

/// Some repair gave a file the name `n`.
pub open spec fn repaired_to(repairs: Seq<RepairRecord>, n: Seq<char>) -> bool {
    exists|r: int|
        0 <= r < repairs.len() && ((#[trigger] repairs[r]).repaired_motion@ == n || repairs[r].repaired_still@ == n)
}

/// Still `s` pairs exactly with motion `m`: same stem, same modification time.
pub open spec fn exact_pair(m: CaptureFile, s: CaptureFile) -> bool {
    s.stem@ == m.stem@ && s.modified == m.modified
}

/// Table `t` holds an exact partner of motion `m`.
pub open spec fn exact_in(t: Seq<CaptureFile>, m: CaptureFile) -> bool {
    exists|p: int| 0 <= p < t.len() && exact_pair(m, #[trigger] t[p])
}

/// Name `n` belongs to the exact pair of motion `m`: the motion file itself, its HEIC
/// partner, or its JPEG partner where it has no HEIC partner.
pub open spec fn exact_pair_name(x: Index, m: int, n: Seq<char>) -> bool {
    ||| (x.mov@[m].name@ == n && (exact_in(x.heic@, x.mov@[m]) || exact_in(x.jpeg@, x.mov@[m])))
    ||| exists|p: int| 0 <= p < x.heic@.len() && exact_pair(x.mov@[m], x.heic@[p]) && x.heic@[p].name@ == n
    ||| (!exact_in(x.heic@, x.mov@[m]) && exists|p: int|
        0 <= p < x.jpeg@.len() && exact_pair(x.mov@[m], x.jpeg@[p]) && x.jpeg@[p].name@ == n)
}

/// Name `n` belongs to some exact pair of the index.
pub open spec fn in_exact_pair(x: Index, n: Seq<char>) -> bool {
    exists|m: int| 0 <= m < x.mov@.len() && #[trigger] exact_pair_name(x, m, n)
}

pub open spec fn img_marker() -> Seq<char> {
    seq!['I', 'M', 'G', '_']
}

/// The length of the prefix that fuzzy matching compares.
pub open spec fn prefix_len() -> int {
    8
}

/// A motion stem that fuzzy matching may try.
pub open spec fn fuzzy_eligible(stem: Seq<char>) -> bool {
    has_prefix(stem, img_marker()) && stem.len() >= prefix_len()
}

/// Still `i` of the pool is a fuzzy candidate for motion `m`: not yet paired, of the
/// same modification time, and its stem starts with the motion's prefix.
pub open spec fn is_candidate(x: Index, processed: Seq<Vec<char>>, m: int, i: int) -> bool {
    &&& 0 <= i < pool(x).len()
    &&& !holds_name(processed, pool(x)[i].name@)
    &&& pool(x)[i].modified == x.mov@[m].modified
    &&& has_prefix(pool(x)[i].stem@, x.mov@[m].stem@.subrange(0, prefix_len()))
}

/// Still `i` is the one and only fuzzy candidate for motion `m`.
pub open spec fn sole_candidate(x: Index, processed: Seq<Vec<char>>, m: int, i: int) -> bool {
    &&& is_candidate(x, processed, m, i)
    &&& forall|j: int| #[trigger] is_candidate(x, processed, m, j) ==> j == i
}

/// The name a file takes when it adopts stem `stem`, keeping its own extension.
pub open spec fn renamed(name: Seq<char>, stem: Seq<char>) -> Seq<char> {
    stem + seq!['.'] + ext_of(name).unwrap()
}

/// The names of a motion file and a still after a fuzzy repair: the file with the
/// shorter stem adopts the longer stem (the motion file, when the two are equally long).
pub open spec fn repaired_names(m: CaptureFile, s: CaptureFile) -> (Seq<char>, Seq<char>) {
    if m.stem@.len() > s.stem@.len() {
        (m.name@, renamed(s.name@, m.stem@))
    } else {
        (renamed(m.name@, s.stem@), s.name@)
    }
}

impl Matcher {
    /// The matching state is consistent with its index.
    pub open spec fn wf(self) -> bool {
        &&& tables_ok(self.index)
        &&& pool(self.index).len() <= usize::MAX
        &&& self.matched@.len() == self.index.mov@.len()
        &&& distinct_names(self.processed@)
        &&& from_pool(self.index, self.processed@)
        &&& self.keeps_exact_pairs()
        &&& forall|k: int|
            0 <= k < self.kept@.len() ==> in_exact_pair(self.index, (#[trigger] self.kept@[k])@) || repaired_to(
                self.repairs@,
                self.kept@[k]@,
            )
        &&& forall|r: int| 0 <= r < self.repairs@.len() ==> #[trigger] self.repair_ok(self.repairs@[r])
        &&& forall|m: int|
            0 <= m < self.index.mov@.len() && (exact_in(self.index.heic@, self.index.mov@[m]) || exact_in(
                self.index.jpeg@,
                self.index.mov@[m],
            )) ==> #[trigger] self.matched@[m]
    }

    /// Every exact pair of the index is kept and its still consumed: a motion file and a HEIC of its stem and
    /// time, or a JPEG of its stem and time where no such HEIC exists.
    pub open spec fn keeps_exact_pairs(self) -> bool {
        &&& forall|m: int, p: int|
            0 <= m < self.index.mov@.len() && 0 <= p < self.index.heic@.len() && exact_pair(
                #[trigger] self.index.mov@[m],
                #[trigger] self.index.heic@[p],
            ) ==> holds_name(self.kept@, self.index.mov@[m].name@) && holds_name(
                self.kept@,
                self.index.heic@[p].name@,
            ) && holds_name(self.processed@, self.index.heic@[p].name@)
        &&& forall|m: int, p: int|
            0 <= m < self.index.mov@.len() && 0 <= p < self.index.jpeg@.len() && exact_pair(
                #[trigger] self.index.mov@[m],
                #[trigger] self.index.jpeg@[p],
            ) && !exact_in(self.index.heic@, self.index.mov@[m]) ==> holds_name(
                self.kept@,
                self.index.mov@[m].name@,
            ) && holds_name(self.kept@, self.index.jpeg@[p].name@) && holds_name(
                self.processed@,
                self.index.jpeg@[p].name@,
            )
    }

    /// A logged repair started from a paired motion file and a still of the pool.
    pub open spec fn repair_ok(self, rec: RepairRecord) -> bool {
        &&& exists|m: int|
            0 <= m < self.index.mov@.len() && self.matched@[m] && #[trigger] self.index.mov@[m].name@
                == rec.original_motion@
        &&& exists|q: int| 0 <= q < pool(self.index).len() && #[trigger] pool(self.index)[q].name@ == rec.original_still@
    }

    /// The fuzzy match owed to motion `m` in this state: only for a motion that is
    /// not yet paired, whose stem is eligible, and that has exactly one candidate.
    pub open spec fn fuzzy_match(self, m: int) -> Option<int> {
        if 0 <= m < self.index.mov@.len() && !self.matched@[m] && fuzzy_eligible(
            self.index.mov@[m].stem@,
        ) && exists|i: int| sole_candidate(self.index, self.processed@, m, i) {
            Some(choose|i: int| sole_candidate(self.index, self.processed@, m, i))
        } else {
            None
        }
    }

    /// `p` is the fuzzy match owed in this state, with the repair it makes.
    pub open spec fn proposes(self, p: Proposal) -> bool {
        let m = self.index.mov@[p.motion as int];
        let s = pool(self.index)[p.still as int];
        &&& self.fuzzy_match(p.motion as int) == Some(p.still as int)
        &&& p.record.original_motion@ == m.name@
        &&& p.record.original_still@ == s.name@
        &&& p.record.repaired_motion@ == repaired_names(m, s).0
        &&& p.record.repaired_still@ == repaired_names(m, s).1
    }
}

/// A name stays in a list when another is appended.
proof fn lemma_push_keeps(v: Seq<Vec<char>>, x: Vec<char>)
    ensures
        forall|n: Seq<char>| holds_name(v, n) ==> holds_name(v.push(x), n),
        holds_name(v.push(x), x@),
{
    assert forall|n: Seq<char>| holds_name(v, n) implies holds_name(v.push(x), n) by {
        let i = choose|i: int| 0 <= i < v.len() && (#[trigger] v[i])@ == n;
        assert(v.push(x)[i] == v[i]);
    };
    assert(v.push(x)[v.len() as int] == x);
}

/// Whether `n` is one of the names in `v`.
pub fn contains_name(v: &Vec<Vec<char>>, n: &Vec<char>) -> (r: bool)
    ensures
        r == holds_name(v@, n@),
{
    let mut i: usize = 0;
    while i < v.len()
        invariant
            i <= v@.len(),
            forall|j: int| 0 <= j < i ==> v@[j]@ != n@,
        decreases v@.len() - i,
    {
        if same(&v[i], n) {
            return true;
        }
        i = i + 1;
    }
    false
}

/// The position of the exact partner of `m` in table `t`, whose stems are unique.
fn exact_pos(t: &Vec<CaptureFile>, m: &CaptureFile) -> (r: Option<usize>)
    requires
        crate::index::unique_stems(t@),
    ensures
        r matches Some(p) ==> p < t@.len() && exact_pair(*m, t@[p as int]),
        r is None ==> !exact_in(t@, *m),
{
    match crate::index::find_stem(t, &m.stem) {
        Some(p) => {
            if t[p].modified == m.modified {
                Some(p)
            } else {
                assert forall|q: int| 0 <= q < t@.len() implies !exact_pair(*m, #[trigger] t@[q]) by {
                    if q != p {
                        assert(t@[q].stem@ != t@[p as int].stem@);
                    }
                };
                None
            }
        },
        None => None,
    }
}

impl Matcher {
    /// The exact pass has handled the motion files before `i`.
    #[verifier::opaque]
    pub open spec fn exact_done(self, i: int) -> bool {
        &&& tables_ok(self.index)
        &&& pool(self.index).len() <= usize::MAX
        &&& 0 <= i <= self.index.mov@.len()
        &&& self.matched@.len() == self.index.mov@.len()
        &&& self.repairs@.len() == 0
        &&& distinct_names(self.processed@)
        &&& forall|k: int| 0 <= k < self.kept@.len() ==> in_exact_pair(self.index, (#[trigger] self.kept@[k])@)
        &&& forall|m: int|
            0 <= m < self.index.mov@.len() ==> #[trigger] self.matched@[m] == (m < i && (exact_in(
                self.index.heic@,
                self.index.mov@[m],
            ) || exact_in(self.index.jpeg@, self.index.mov@[m])))
        &&& from_pool(self.index, self.processed@)
        &&& forall|k: int|
            0 <= k < self.processed@.len() ==> exists|m: int|
                0 <= m < i && stem_of((#[trigger] self.processed@[k])@) == self.index.mov@[m].stem@
        &&& forall|m: int, p: int|
            0 <= m < i && 0 <= p < self.index.heic@.len() && exact_pair(
                #[trigger] self.index.mov@[m],
                #[trigger] self.index.heic@[p],
            ) ==> holds_name(self.kept@, self.index.mov@[m].name@) && holds_name(
                self.kept@,
                self.index.heic@[p].name@,
            ) && holds_name(self.processed@, self.index.heic@[p].name@)
        &&& forall|m: int, p: int|
            0 <= m < i && 0 <= p < self.index.jpeg@.len() && exact_pair(
                #[trigger] self.index.mov@[m],
                #[trigger] self.index.jpeg@[p],
            ) && !exact_in(self.index.heic@, self.index.mov@[m]) ==> holds_name(
                self.kept@,
                self.index.mov@[m].name@,
            ) && holds_name(self.kept@, self.index.jpeg@[p].name@) && holds_name(
                self.processed@,
                self.index.jpeg@[p].name@,
            )
    }
}

impl Matcher {
    /// Pair motion `i` with a still of its own stem and time, preferring HEIC.
    #[verifier::rlimit(100)]
    fn exact_step(&mut self, i: usize)
        requires
            old(self).exact_done(i as int),
            i < old(self).index.mov@.len(),
        ensures
            final(self).exact_done(i + 1),
            final(self).index == old(self).index,
    {
        proof {
            reveal(Matcher::exact_done);
        }
        let ghost x = self.index;
        let ghost kept0 = self.kept@;
        let ghost proc0 = self.processed@;
        proof {
            assert(crate::index::unique_stems(x.heic@));
        }
        let hp = exact_pos(&self.index.heic, &self.index.mov[i]);
        let sp: Option<(bool, usize)> = match hp {
            Some(p) => Some((true, p)),
            None => match exact_pos(&self.index.jpeg, &self.index.mov[i]) {
                Some(p) => Some((false, p)),
                None => None,
            },
        };
        match sp {
            Some((heic, p)) => {
                let still = if heic {
                    self.index.heic[p].name.clone()
                } else {
                    self.index.jpeg[p].name.clone()
                };
                let ghost q: int = if heic { p as int } else { x.heic@.len() + p };
                assert(pool(x)[q] == (if heic { x.heic@[p as int] } else { x.jpeg@[p as int] }));
                assert(still@ == pool(x)[q].name@);
                assert(stem_of(still@) == x.mov@[i as int].stem@);
                proof {
                    assert forall|k: int| 0 <= k < proc0.len() implies proc0[k]@ != still@ by {
                        let m = choose|m: int|
                            0 <= m < i && stem_of((#[trigger] proc0[k])@) == x.mov@[m].stem@;
                        assert(x.mov@[m].stem@ != x.mov@[i as int].stem@);
                    };
                }
                if !contains_name(&self.processed, &still) {
                    let mname = self.index.mov[i].name.clone();
                    self.kept.push(mname);
                    self.kept.push(still.clone());
                    self.processed.push(still);
                    self.matched.set(i, true);
                    proof {
                        let k1 = self.kept@;
                        let n0 = kept0.len() as int;
                        assert(k1 == kept0.push(k1[n0]).push(k1[n0 + 1]));
                        lemma_push_keeps(kept0, k1[n0]);
                        lemma_push_keeps(kept0.push(k1[n0]), k1[n0 + 1]);
                        lemma_push_keeps(proc0, self.processed@[proc0.len() as int]);
                        assert(holds_name(self.kept@, x.mov@[i as int].name@));
                        assert(holds_name(self.kept@, pool(x)[q].name@));
                        assert(holds_name(self.processed@, pool(x)[q].name@));
                        assert(exact_pair_name(x, i as int, k1[n0]@));
                        if heic {
                            assert(exact_pair_name(x, i as int, k1[n0 + 1]@));
                        } else {
                            assert(exact_pair(x.mov@[i as int], x.jpeg@[p as int]));
                            assert(exact_pair_name(x, i as int, k1[n0 + 1]@));
                        }
                        assert forall|k: int| 0 <= k < k1.len() implies in_exact_pair(x, (#[trigger] k1[k])@) by {
                            if k < n0 {
                                assert(k1[k] == kept0[k]);
                            } else if k == n0 {
                                assert(exact_pair_name(x, i as int, k1[k]@));
                            } else {
                                assert(exact_pair_name(x, i as int, k1[k]@));
                            }
                        };
                        assert forall|k: int| 0 <= k < self.processed@.len() implies exists|qq: int|
                            0 <= qq < pool(x).len() && pool(x)[qq].name@ == (
                            #[trigger] self.processed@[k])@ by {
                            if k < proc0.len() {
                                assert(self.processed@[k] == proc0[k]);
                            } else {
                                assert(pool(x)[q].name@ == self.processed@[k]@);
                            }
                        };
                    }
                }
            },
            None => {},
        }
        proof {
            if self.kept@.len() > kept0.len() {
                let k1 = self.kept@;
                let n0 = kept0.len() as int;
                lemma_push_keeps(kept0, k1[n0]);
                lemma_push_keeps(kept0.push(k1[n0]), k1[n0 + 1]);
                lemma_push_keeps(proc0, self.processed@[proc0.len() as int]);
            }
            assert forall|m: int, p: int|
                0 <= m < i + 1 && 0 <= p < x.heic@.len() && exact_pair(
                    #[trigger] x.mov@[m],
                    #[trigger] x.heic@[p],
                ) implies holds_name(self.kept@, x.mov@[m].name@) && holds_name(
                    self.kept@,
                    x.heic@[p].name@,
                ) && holds_name(self.processed@, x.heic@[p].name@) by {
                if m == i {
                    assert(exact_in(x.heic@, x.mov@[m]));
                    if let Some(pp) = hp {
                        if pp != p {
                            assert(x.heic@[pp as int].stem@ != x.heic@[p].stem@);
                        }
                    }
                }
            };
            assert forall|m: int, p: int|
                0 <= m < i + 1 && 0 <= p < x.jpeg@.len() && exact_pair(
                    #[trigger] x.mov@[m],
                    #[trigger] x.jpeg@[p],
                ) && !exact_in(x.heic@, x.mov@[m]) implies holds_name(self.kept@, x.mov@[m].name@)
                && holds_name(self.kept@, x.jpeg@[p].name@) && holds_name(self.processed@, x.jpeg@[p].name@) by {
                if m == i {
                    assert(exact_in(x.jpeg@, x.mov@[m]));
                    if let Some((_, pp)) = sp {
                        if pp != p {
                            assert(x.jpeg@[pp as int].stem@ != x.jpeg@[p].stem@);
                        }
                    }
                }
            };
            assert forall|k: int| 0 <= k < self.processed@.len() implies exists|m: int|
                0 <= m < i + 1 && stem_of((#[trigger] self.processed@[k])@) == x.mov@[m].stem@ by {
                if k < proc0.len() {
                    assert(self.processed@[k] == proc0[k]);
                }
            };

            reveal(Matcher::exact_done);
        }
    }

    /// Start a matching pass over an index: every motion file that has a still of the
    /// same stem and modification time is paired with it (HEIC before JPEG), and both
    /// are kept.
    pub fn new(index: Index) -> (r: Matcher)
        requires
            tables_ok(index),
            index.heic@.len() + index.jpeg@.len() <= usize::MAX,
        ensures
            r.exact_done(index.mov@.len() as int),
            r.wf(),
            r.keeps_exact_pairs(),
            r.index == index,
            r.repairs@.len() == 0,
            forall|k: int| 0 <= k < r.kept@.len() ==> in_exact_pair(index, (#[trigger] r.kept@[k])@),
            forall|m: int|
                0 <= m < index.mov@.len() ==> #[trigger] r.matched@[m] == (exact_in(index.heic@, index.mov@[m])
                    || exact_in(index.jpeg@, index.mov@[m])),
    {
        let n = index.mov.len();
        let mut matched: Vec<bool> = Vec::new();
        let mut k: usize = 0;
        while k < n
            invariant
                k <= n,
                n == index.mov@.len(),
                matched@.len() == k,
                forall|j: int| 0 <= j < k ==> !(#[trigger] matched@[j]),
            decreases n - k,
        {
            matched.push(false);
            k = k + 1;
        }
        let mut r = Matcher { index, kept: Vec::new(), processed: Vec::new(), matched, repairs: Vec::new() };
        proof {
            reveal(Matcher::exact_done);
        }
        let mut i: usize = 0;
        while i < n
            invariant
                i <= n,
                n == index.mov@.len(),
                r.index == index,
                r.exact_done(i as int),
            decreases n - i,
        {
            r.exact_step(i);
            i = i + 1;
        }
        proof {
            r.lemma_exact_done_wf();
        }
        r
    }

    proof fn lemma_exact_done_wf(self)
        requires
            self.exact_done(self.index.mov@.len() as int),
        ensures
            self.wf(),
            self.keeps_exact_pairs(),
            self.repairs@.len() == 0,
            forall|k: int| 0 <= k < self.kept@.len() ==> in_exact_pair(self.index, (#[trigger] self.kept@[k])@),
            forall|m: int|
                0 <= m < self.index.mov@.len() ==> #[trigger] self.matched@[m] == (exact_in(
                    self.index.heic@,
                    self.index.mov@[m],
                ) || exact_in(self.index.jpeg@, self.index.mov@[m])),
    {
        reveal(Matcher::exact_done);
    }
}

/// Still `i` of the pool: the HEIC table, then the JPEG table.
fn pool_get(x: &Index, i: usize) -> (r: &CaptureFile)
    requires
        i < pool(*x).len(),
    ensures
        *r == pool(*x)[i as int],
{
    if i < x.heic.len() {
        &x.heic[i]
    } else {
        &x.jpeg[i - x.heic.len()]
    }
}

/// The name a file takes when it adopts `stem`, keeping its own extension.
fn rename_to(name: &Vec<char>, stem: &Vec<char>) -> (r: Vec<char>)
    requires
        ext_of(name@) is Some,
    ensures
        r@ == renamed(name@, stem@),
{
    let (_, ext) = split_name(name);
    let e = ext.unwrap();
    let dot = vec!['.'];
    assert(dot@ =~= seq!['.']);
    concat(&concat(stem, &dot), &e)
}

impl Matcher {
    /// The fuzzy match owed to motion `m` in this state, if any, with the names that
    /// its repair gives both files.
    pub fn propose(&self, m: usize) -> (r: Option<Proposal>)
        requires
            self.wf(),
            m < self.index.mov@.len(),
        ensures
            r is None <==> self.fuzzy_match(m as int) is None,
            r matches Some(p) ==> p.motion == m && self.proposes(p),
    {
        let x = &self.index;
        let mv = &x.mov[m];
        if self.matched[m] {
            return None;
        }
        let marker = vec!['I', 'M', 'G', '_'];
        assert(marker@ =~= img_marker());
        if !starts_with(&mv.stem, &marker) || mv.stem.len() < 8 {
            return None;
        }
        let prefix = slice(&mv.stem, 0, 8);
        let n = x.heic.len() + x.jpeg.len();
        let mut found: Option<usize> = None;
        let mut i: usize = 0;
        while i < n
            invariant
                self.wf(),
                x == &self.index,
                m < x.mov@.len(),
                *mv == x.mov@[m as int],
                x.mov@[m as int].stem@.len() >= prefix_len(),
                n == pool(*x).len(),
                prefix@ == x.mov@[m as int].stem@.subrange(0, prefix_len()),
                i <= n,
                found matches Some(c) ==> c < i && is_candidate(*x, self.processed@, m as int, c as int),
                forall|j: int|
                    0 <= j < i && #[trigger] is_candidate(*x, self.processed@, m as int, j) ==> found
                        == Some(j as usize),
            decreases n - i,
        {
            let s = pool_get(x, i);
            if s.modified == mv.modified && starts_with(&s.stem, &prefix) && !contains_name(
                &self.processed,
                &s.name,
            ) {
                assert(is_candidate(*x, self.processed@, m as int, i as int));
                if found.is_some() {
                    assert(!exists|c: int| sole_candidate(*x, self.processed@, m as int, c));
                    return None;
                }
                found = Some(i);
            }
            i = i + 1;
        }
        match found {
            None => {
                assert(!exists|c: int| sole_candidate(*x, self.processed@, m as int, c));
                None
            },
            Some(c) => {
                assert(sole_candidate(*x, self.processed@, m as int, c as int));
                let s = pool_get(x, c);
                proof {
                    lemma_kind_has_ext(mv.name@);
                    lemma_kind_has_ext(s.name@);
                }
                let (rm, rs) = if mv.stem.len() > s.stem.len() {
                    (mv.name.clone(), rename_to(&s.name, &mv.stem))
                } else {
                    (rename_to(&mv.name, &s.stem), s.name.clone())
                };
                let record = RepairRecord {
                    original_motion: mv.name.clone(),
                    original_still: s.name.clone(),
                    repaired_motion: rm,
                    repaired_still: rs,
                };
                Some(Proposal { motion: m, still: c, record })
            },
        }
    }

    /// Record a fuzzy match whose rename succeeded: both final names are kept, the
    /// still is consumed, the motion file is paired and the repair is logged.
    pub fn accept(&mut self, p: Proposal)
        requires
            old(self).wf(),
            old(self).proposes(p),
        ensures
            final(self).wf(),
            final(self).index == old(self).index,
            final(self).kept@ == old(self).kept@.push(p.record.repaired_motion).push(
                p.record.repaired_still,
            ),
            final(self).processed@ == old(self).processed@.push(p.record.original_still),
            !holds_name(old(self).processed@, p.record.original_still@),
            final(self).matched@ == old(self).matched@.update(p.motion as int, true),
            final(self).repairs@.len() == old(self).repairs@.len() + 1,
            forall|k: int| 0 <= k < old(self).repairs@.len() ==> final(self).repairs@[k] == old(self).repairs@[k],
            same_record(final(self).repairs@.last(), p.record),
    {
        let ghost st0 = *self;
        let ghost x = self.index;
        assert(is_candidate(x, self.processed@, p.motion as int, p.still as int));
        let Proposal { motion, still: _, record } = p;
        let RepairRecord { original_motion, original_still, repaired_motion, repaired_still } = record;
        self.repairs.push(
            RepairRecord {
                original_motion,
                original_still: original_still.clone(),
                repaired_motion: repaired_motion.clone(),
                repaired_still: repaired_still.clone(),
            },
        );
        self.kept.push(repaired_motion);
        self.kept.push(repaired_still);
        self.processed.push(original_still);
        self.matched.set(motion, true);
        proof {
            let k0 = st0.kept@;
            let k1 = self.kept@;
            let n0 = k0.len() as int;
            assert(k1 == k0.push(k1[n0]).push(k1[n0 + 1]));
            lemma_push_keeps(k0, k1[n0]);
            lemma_push_keeps(k0.push(k1[n0]), k1[n0 + 1]);
            let pr0 = st0.processed@;
            let pr1 = self.processed@;
            lemma_push_keeps(pr0, pr1[pr0.len() as int]);
            assert(pr1 == pr0.push(pr1[pr0.len() as int]));
            assert forall|k: int| 0 <= k < pr1.len() implies exists|q: int|
                0 <= q < pool(x).len() && pool(x)[q].name@ == (#[trigger] pr1[k])@ by {
                if k < pr0.len() {
                    assert(pr1[k] == pr0[k]);
                } else {
                    assert(pool(x)[p.still as int].name@ == pr1[k]@);
                }
            };
            assert forall|a: int, b: int| 0 <= a < pr1.len() && 0 <= b < pr1.len() && a != b implies pr1[a]@
                != pr1[b]@ by {
                if a < pr0.len() && b < pr0.len() {
                    assert(pr1[a] == pr0[a] && pr1[b] == pr0[b]);
                } else if a < pr0.len() {
                    assert(pr1[a] == pr0[a]);
                } else if b < pr0.len() {
                    assert(pr1[b] == pr0[b]);
                }
            };
            let rs0 = st0.repairs@;
            let rs1 = self.repairs@;
            let last = rs1[rs0.len() as int];
            assert(same_record(last, p.record));
            assert forall|k: int| 0 <= k < k1.len() implies in_exact_pair(x, (#[trigger] k1[k])@) || repaired_to(
                rs1,
                k1[k]@,
            ) by {
                if k < n0 {
                    assert(k1[k] == k0[k]);
                    if !in_exact_pair(x, k0[k]@) {
                        let r = choose|r: int|
                            0 <= r < rs0.len() && ((#[trigger] rs0[r]).repaired_motion@ == k0[k]@
                                || rs0[r].repaired_still@ == k0[k]@);
                        assert(rs1[r] == rs0[r]);
                    }
                } else {
                    assert(rs1[rs0.len() as int] == last);
                }
            };
            assert forall|r: int| 0 <= r < rs1.len() implies #[trigger] self.repair_ok(rs1[r]) by {
                if r < rs0.len() {
                    assert(rs1[r] == rs0[r]);
                    assert(st0.repair_ok(rs0[r]));
                    let m = choose|m: int|
                        0 <= m < x.mov@.len() && st0.matched@[m] && #[trigger] x.mov@[m].name@ == rs0[r].original_motion@;
                    assert(self.matched@[m]);
                    let q = choose|q: int| 0 <= q < pool(x).len() && #[trigger] pool(x)[q].name@ == rs0[r].original_still@;
                } else {
                    assert(self.matched@[p.motion as int]);
                    assert(x.mov@[p.motion as int].name@ == rs1[r].original_motion@);
                    assert(pool(x)[p.still as int].name@ == rs1[r].original_still@);
                }
            };
        }
    }
}

/// A motion file that has a still of its own stem and modification time is never
/// offered a fuzzy match.
pub proof fn fuzzy_never_overrides_exact(st: Matcher, m: int)
    requires
        st.wf(),
        0 <= m < st.index.mov@.len(),
        exact_in(st.index.heic@, st.index.mov@[m]) || exact_in(st.index.jpeg@, st.index.mov@[m]),
    ensures
        st.fuzzy_match(m) is None,
{
    assert(st.matched@[m]);
}

/// A fuzzy match is offered only for a stem that starts with the camera marker and is
/// long enough to hold the compared prefix.
pub proof fn fuzzy_needs_camera_stem(st: Matcher, m: int)
    requires
        st.fuzzy_match(m) is Some,
    ensures
        fuzzy_eligible(st.index.mov@[m].stem@),
        !st.matched@[m],
{
}

/// Two or more candidates never produce a fuzzy match.
pub proof fn ambiguous_candidates_never_match(st: Matcher, m: int, i: int, j: int)
    requires
        is_candidate(st.index, st.processed@, m, i),
        is_candidate(st.index, st.processed@, m, j),
        i != j,
    ensures
        st.fuzzy_match(m) is None,
{
    assert(!exists|c: int| sole_candidate(st.index, st.processed@, m, c));
}

/// A still is consumed by at most one pair: the still of an offered match is not yet
/// consumed, and no consumed still is listed twice.
pub proof fn still_consumed_once(st: Matcher, p: Proposal)
    requires
        st.wf(),
        st.proposes(p),
    ensures
        !holds_name(st.processed@, pool(st.index)[p.still as int].name@),
        distinct_names(st.processed@),
{
}

/// An exact pair stays kept, and its still consumed, in every state of the matching pass.
pub proof fn exact_pair_is_kept(st: Matcher, m: int, p: int)
    requires
        st.wf(),
        0 <= m < st.index.mov@.len(),
        0 <= p < st.index.heic@.len() + st.index.jpeg@.len(),
        exact_pair(st.index.mov@[m], pool(st.index)[p]),
        p >= st.index.heic@.len() ==> !exact_in(st.index.heic@, st.index.mov@[m]),
    ensures
        holds_name(st.kept@, st.index.mov@[m].name@),
        holds_name(st.kept@, pool(st.index)[p].name@),
        holds_name(st.processed@, pool(st.index)[p].name@),
        forall|c: int| !is_candidate(st.index, st.processed@, c, p),
{
    if p < st.index.heic@.len() {
        assert(pool(st.index)[p] == st.index.heic@[p]);
    } else {
        assert(pool(st.index)[p] == st.index.jpeg@[p - st.index.heic@.len()]);
    }
}

} // verus!
