//! One scan of the working directory: each file classified by extension and kept in a
//! table of its kind, keyed by stem.

use vstd::prelude::*;

use crate::names::{eq_fold, ext_of, has_prefix, split_name, starts_with, same, same_fold, stem_of};

verus! {

/// A modification time, as seconds and nanoseconds since the Unix epoch.
#[derive(Clone, Copy, Debug, PartialEq, Eq, Structural)]
pub struct Stamp {
    pub secs: i64,
    pub nanos: u32,
}

/// What a file is, by its extension.
#[derive(Clone, Copy, Debug, PartialEq, Eq, Structural)]
pub enum Kind {
    StillHeic,
    StillJpeg,
    Motion,
    Unclassified,
}

/// One file of a directory listing.
#[derive(Clone, Debug)]
pub struct Entry {
    pub name: Vec<char>,
    pub modified: Stamp,
}

/// A classified file: its name, stem, kind and modification time.
#[derive(Clone, Debug)]
pub struct CaptureFile {
    pub name: Vec<char>,
    pub stem: Vec<char>,
    pub kind: Kind,
    pub modified: Stamp,
}

/// One scan of the working directory: a table per kind, keyed by stem, and every
/// name that was listed.
#[derive(Clone, Debug)]
pub struct Index {
    pub heic: Vec<CaptureFile>,
    pub jpeg: Vec<CaptureFile>,
    pub mov: Vec<CaptureFile>,
    pub all: Vec<Vec<char>>,
}

pub open spec fn sidecar_marker() -> Seq<char> {
    seq!['.', '_']
}

/// The kind of a file name: device sidecar files are never classified.
#[verifier::opaque]
pub open spec fn kind_of(name: Seq<char>) -> Kind {
    if has_prefix(name, sidecar_marker()) {
        Kind::Unclassified
    } else {
        match ext_of(name) {
            Some(e) => if eq_fold(e, seq!['h', 'e', 'i', 'c']) {
                Kind::StillHeic
            } else if eq_fold(e, seq!['j', 'p', 'g']) || eq_fold(e, seq!['j', 'p', 'e', 'g']) {
                Kind::StillJpeg
            } else if eq_fold(e, seq!['m', 'o', 'v']) {
                Kind::Motion
            } else {
                Kind::Unclassified
            },
            None => Kind::Unclassified,
        }
    }
}

/// A classified name has an extension.
pub proof fn lemma_kind_has_ext(name: Seq<char>)
    requires
        kind_of(name) != Kind::Unclassified,
    ensures
        ext_of(name) is Some,
{
    reveal(kind_of);
}

/// Classify a file name by its extension, ignoring case.
pub fn classify(name: &Vec<char>) -> (r: Kind)
    ensures
        r == kind_of(name@),
{
    proof {
        reveal(kind_of);
    }
    let marker = vec!['.', '_'];
    assert(marker@ =~= sidecar_marker());
    if starts_with(name, &marker) {
        return Kind::Unclassified;
    }
    let (_, ext) = split_name(name);
    match ext {
        Some(e) => {
            let heic = vec!['h', 'e', 'i', 'c'];
            let jpg = vec!['j', 'p', 'g'];
            let jpeg = vec!['j', 'p', 'e', 'g'];
            let mov = vec!['m', 'o', 'v'];
            assert(heic@ =~= seq!['h', 'e', 'i', 'c']);
            assert(jpg@ =~= seq!['j', 'p', 'g']);
            assert(jpeg@ =~= seq!['j', 'p', 'e', 'g']);
            assert(mov@ =~= seq!['m', 'o', 'v']);
            if same_fold(&e, &heic) {
                Kind::StillHeic
            } else if same_fold(&e, &jpg) || same_fold(&e, &jpeg) {
                Kind::StillJpeg
            } else if same_fold(&e, &mov) {
                Kind::Motion
            } else {
                Kind::Unclassified
            }
        },
        None => Kind::Unclassified,
    }
}

/// Stems are unique in a table.
pub open spec fn unique_stems(t: Seq<CaptureFile>) -> bool {
    forall|i: int, j: int| 0 <= i < t.len() && 0 <= j < t.len() && i != j ==> t[i].stem@ != t[j].stem@
}

/// `c` records the listing entry `e` as a file of kind `k`.
pub open spec fn records(c: CaptureFile, e: Entry, k: Kind) -> bool {
    &&& c.name@ == e.name@
    &&& c.stem@ == stem_of(e.name@)
    &&& c.kind == k
    &&& c.modified == e.modified
}

/// Listing entry `j` is of kind `k`, and no later entry of that kind has its stem.
pub open spec fn last_of_stem(es: Seq<Entry>, k: Kind, j: int) -> bool {
    &&& 0 <= j < es.len()
    &&& kind_of(es[j].name@) == k
    &&& forall|l: int|
        j < l < es.len() && kind_of(#[trigger] es[l].name@) == k ==> stem_of(es[l].name@) != stem_of(
            es[j].name@,
        )
}

/// `t` is the table of kind `k` built from listing `es`: one record per stem, of the
/// last entry with that stem.
pub open spec fn table_of(t: Seq<CaptureFile>, es: Seq<Entry>, k: Kind) -> bool {
    &&& unique_stems(t)
    &&& forall|i: int| 0 <= i < t.len() ==> #[trigger] from_last(t, es, k, i)
    &&& forall|j: int|
        0 <= j < es.len() && kind_of(es[j].name@) == k ==> #[trigger] has_stem(t, stem_of(es[j].name@))
}

/// Record `i` of table `t` is that of the last entry of kind `k` with its stem.
pub open spec fn from_last(t: Seq<CaptureFile>, es: Seq<Entry>, k: Kind, i: int) -> bool {
    exists|j: int| last_of_stem(es, k, j) && records(t[i], es[j], k)
}

/// Some record of table `t` has stem `s`.
pub open spec fn has_stem(t: Seq<CaptureFile>, s: Seq<char>) -> bool {
    exists|i: int| 0 <= i < t.len() && t[i].stem@ == s
}

/// The position of a stem in a table.
pub fn find_stem(t: &Vec<CaptureFile>, stem: &Vec<char>) -> (r: Option<usize>)
    ensures
        r matches Some(i) ==> i < t@.len() && t@[i as int].stem@ == stem@,
        r is None ==> forall|i: int| 0 <= i < t@.len() ==> t@[i].stem@ != stem@,
{
    let mut i: usize = 0;
    while i < t.len()
        invariant
            i <= t@.len(),
            forall|j: int| 0 <= j < i ==> t@[j].stem@ != stem@,
        decreases t@.len() - i,
    {
        if same(&t[i].stem, stem) {
            return Some(i);
        }
        i = i + 1;
    }
    None
}

/// Put a record into a table, replacing the one of the same stem.
fn put(t: &mut Vec<CaptureFile>, c: CaptureFile)
    requires
        unique_stems(old(t)@),
    ensures
        unique_stems(final(t)@),
        exists|p: int| 0 <= p < final(t)@.len() && final(t)@[p] == c,
        forall|i: int|
            0 <= i < final(t)@.len() ==> final(t)@[i] == c || (exists|j: int|
                0 <= j < old(t)@.len() && old(t)@[j] == #[trigger] final(t)@[i] && old(t)@[j].stem@
                    != c.stem@),
        forall|j: int|
            0 <= j < old(t)@.len() ==> exists|i: int|
                0 <= i < final(t)@.len() && final(t)@[i].stem@ == #[trigger] old(t)@[j].stem@,
{
    match find_stem(t, &c.stem) {
        Some(p) => {
            let ghost before = t@;
            t.set(p, c);
            assert(t@[p as int] == c);
            assert forall|i: int| 0 <= i < t@.len() implies t@[i] == c || (exists|j: int|
                0 <= j < before.len() && before[j] == #[trigger] t@[i] && before[j].stem@ != c.stem@) by {
                if i != p {
                    assert(before[i] == t@[i]);
                }
            };
            assert forall|j: int| 0 <= j < before.len() implies exists|i: int|
                0 <= i < t@.len() && t@[i].stem@ == #[trigger] before[j].stem@ by {
                if j != p {
                    assert(t@[j] == before[j]);
                } else {
                    assert(t@[p as int].stem@ == before[j].stem@);
                }
            };
        },
        None => {
            let ghost before = t@;
            t.push(c);
            assert(t@[before.len() as int] == c);
            assert forall|i: int| 0 <= i < t@.len() implies t@[i] == c || (exists|j: int|
                0 <= j < before.len() && before[j] == #[trigger] t@[i] && before[j].stem@ != c.stem@) by {
                if i < before.len() {
                    assert(before[i] == t@[i]);
                }
            };
            assert forall|j: int| 0 <= j < before.len() implies exists|i: int|
                0 <= i < t@.len() && t@[i].stem@ == #[trigger] before[j].stem@ by {
                assert(t@[j] == before[j]);
            };
        },
    }
}

#[verifier::rlimit(40)]
proof fn lemma_table_put(t0: Seq<CaptureFile>, t1: Seq<CaptureFile>, es: Seq<Entry>, e: Entry, c: CaptureFile, k: Kind)
    requires
        table_of(t0, es, k),
        records(c, e, k),
        kind_of(e.name@) == k,
        unique_stems(t1),
        exists|p: int| 0 <= p < t1.len() && t1[p] == c,
        forall|i: int|
            0 <= i < t1.len() ==> t1[i] == c || (exists|j: int|
                0 <= j < t0.len() && t0[j] == #[trigger] t1[i] && t0[j].stem@ != c.stem@),
        forall|j: int|
            0 <= j < t0.len() ==> exists|i: int|
                0 <= i < t1.len() && t1[i].stem@ == #[trigger] t0[j].stem@,
    ensures
        table_of(t1, es.push(e), k),
{
    let es1 = es.push(e);
    assert forall|i: int| 0 <= i < t1.len() implies #[trigger] from_last(t1, es1, k, i) by {
        if t1[i] == c {
            assert(last_of_stem(es1, k, es.len() as int));
            assert(records(t1[i], es1[es.len() as int], k));
        } else {
            let j0 = choose|j: int| 0 <= j < t0.len() && t0[j] == t1[i] && t0[j].stem@ != c.stem@;
            assert(from_last(t0, es, k, j0));
            let j = choose|j: int| last_of_stem(es, k, j) && records(t0[j0], es[j], k);
            assert(es1[j] == es[j]);
            assert forall|l: int|
                j < l < es1.len() && kind_of(#[trigger] es1[l].name@) == k implies stem_of(es1[l].name@)
                != stem_of(es1[j].name@) by {
                if l < es.len() {
                    assert(es1[l] == es[l]);
                }
            };
            assert(last_of_stem(es1, k, j));
            assert(records(t1[i], es1[j], k));
        }
    };
    assert forall|j: int| 0 <= j < es1.len() && kind_of(es1[j].name@) == k implies #[trigger] has_stem(
        t1,
        stem_of(es1[j].name@),
    ) by {
        if j == es.len() {
            let p = choose|p: int| 0 <= p < t1.len() && t1[p] == c;
            assert(t1[p].stem@ == stem_of(es1[j].name@));
        } else {
            assert(es1[j] == es[j]);
            assert(has_stem(t0, stem_of(es[j].name@)));
            let i0 = choose|i: int| 0 <= i < t0.len() && t0[i].stem@ == stem_of(es[j].name@);
            assert(exists|i: int| 0 <= i < t1.len() && t1[i].stem@ == t0[i0].stem@);
        }
    };
}

proof fn lemma_table_skip(t: Seq<CaptureFile>, es: Seq<Entry>, e: Entry, k: Kind)
    requires
        table_of(t, es, k),
        kind_of(e.name@) != k,
    ensures
        table_of(t, es.push(e), k),
{
    let es1 = es.push(e);
    assert forall|i: int| 0 <= i < t.len() implies #[trigger] from_last(t, es1, k, i) by {
        assert(from_last(t, es, k, i));
        let j = choose|j: int| last_of_stem(es, k, j) && records(t[i], es[j], k);
        assert(es1[j] == es[j]);
        assert forall|l: int|
            j < l < es1.len() && kind_of(#[trigger] es1[l].name@) == k implies stem_of(es1[l].name@)
            != stem_of(es1[j].name@) by {
            if l < es.len() {
                assert(es1[l] == es[l]);
            }
        };
        assert(last_of_stem(es1, k, j));
        assert(records(t[i], es1[j], k));
    };
    assert forall|j: int| 0 <= j < es1.len() && kind_of(es1[j].name@) == k implies #[trigger] has_stem(
        t,
        stem_of(es1[j].name@),
    ) by {
        assert(es1[j] == es[j]);
        assert(has_stem(t, stem_of(es[j].name@)));
    };
}

/// Each record of a table of kind `k` carries the stem of its name, and its name is of kind `k`.
pub open spec fn well_named(t: Seq<CaptureFile>, k: Kind) -> bool {
    &&& unique_stems(t)
    &&& forall|i: int|
        0 <= i < t.len() ==> kind_of((#[trigger] t[i]).name@) == k && t[i].stem@ == stem_of(t[i].name@)
            && t[i].kind == k
}

/// The three tables of an index are well named.
pub open spec fn tables_ok(x: Index) -> bool {
    &&& well_named(x.heic@, Kind::StillHeic)
    &&& well_named(x.jpeg@, Kind::StillJpeg)
    &&& well_named(x.mov@, Kind::Motion)
}

proof fn lemma_table_well_named(t: Seq<CaptureFile>, es: Seq<Entry>, k: Kind)
    requires
        table_of(t, es, k),
    ensures
        well_named(t, k),
{
    assert forall|i: int| 0 <= i < t.len() implies kind_of((#[trigger] t[i]).name@) == k && t[i].stem@
        == stem_of(t[i].name@) && t[i].kind == k by {
        assert(from_last(t, es, k, i));
    };
}

/// A scan's tables are well named.
pub proof fn lemma_index_tables_ok(x: Index, es: Seq<Entry>)
    requires
        index_of(x, es),
    ensures
        tables_ok(x),
{
    lemma_table_well_named(x.heic@, es, Kind::StillHeic);
    lemma_table_well_named(x.jpeg@, es, Kind::StillJpeg);
    lemma_table_well_named(x.mov@, es, Kind::Motion);
}

/// The index is the scan of listing `es`.
pub open spec fn index_of(x: Index, es: Seq<Entry>) -> bool {
    &&& table_of(x.heic@, es, Kind::StillHeic)
    &&& table_of(x.jpeg@, es, Kind::StillJpeg)
    &&& table_of(x.mov@, es, Kind::Motion)
    &&& lists_names(x.all@, es)
}

/// `all` holds the names of listing `es`, in order.
pub open spec fn lists_names(all: Seq<Vec<char>>, es: Seq<Entry>) -> bool {
    all.len() == es.len() && forall|i: int| 0 <= i < es.len() ==> (#[trigger] all[i])@ == es[i].name@
}

/// Add one listing entry to the scan of the entries before it.
fn add_entry(x: &mut Index, e: &Entry, pre: Ghost<Seq<Entry>>)
    requires
        index_of(*old(x), pre@),
    ensures
        index_of(*final(x), pre@.push(*e)),
{
    let ghost es1 = pre@.push(*e);
    x.all.push(e.name.clone());
    assert forall|i: int| 0 <= i < es1.len() implies (#[trigger] x.all@[i])@ == es1[i].name@ by {
        if i < pre@.len() {
            assert(es1[i] == pre@[i]);
        }
    };
    let k = classify(&e.name);
    if k != Kind::Unclassified {
        let (stem, _) = split_name(&e.name);
        let c = CaptureFile { name: e.name.clone(), stem, kind: k, modified: e.modified };
        assert(records(c, *e, k));
        match k {
            Kind::StillHeic => {
                let ghost t0 = x.heic@;
                put(&mut x.heic, c);
                proof {
                    lemma_table_put(t0, x.heic@, pre@, *e, c, k);
                }
            },
            Kind::StillJpeg => {
                let ghost t0 = x.jpeg@;
                put(&mut x.jpeg, c);
                proof {
                    lemma_table_put(t0, x.jpeg@, pre@, *e, c, k);
                }
            },
            _ => {
                let ghost t0 = x.mov@;
                put(&mut x.mov, c);
                proof {
                    lemma_table_put(t0, x.mov@, pre@, *e, c, k);
                }
            },
        }
    }
    proof {
        if k != Kind::StillHeic {
            lemma_table_skip(x.heic@, pre@, *e, Kind::StillHeic);
        }
        if k != Kind::StillJpeg {
            lemma_table_skip(x.jpeg@, pre@, *e, Kind::StillJpeg);
        }
        if k != Kind::Motion {
            lemma_table_skip(x.mov@, pre@, *e, Kind::Motion);
        }
    }
}

/// Scan a directory listing: sort each classified file into the table of its kind (a
/// later file replaces an earlier one of the same stem and kind) and keep every name.
pub fn build_index(es: &Vec<Entry>) -> (r: Index)
    ensures
        index_of(r, es@),
        tables_ok(r),
{
    let mut x = Index { heic: Vec::new(), jpeg: Vec::new(), mov: Vec::new(), all: Vec::new() };
    assert(es@.subrange(0, 0) =~= Seq::<Entry>::empty());
    let mut i: usize = 0;
    while i < es.len()
        invariant
            i <= es@.len(),
            index_of(x, es@.subrange(0, i as int)),
        decreases es@.len() - i,
    {
        assert(es@.subrange(0, i + 1) =~= es@.subrange(0, i as int).push(es@[i as int]));
        add_entry(&mut x, &es[i], Ghost(es@.subrange(0, i as int)));
        i = i + 1;
    }
    assert(es@.subrange(0, es@.len() as int) =~= es@);
    proof {
        lemma_index_tables_ok(x, es@);
    }
    x
}

} // verus!
