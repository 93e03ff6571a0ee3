use livephoto_sorter::distribute::{pair_for, plan_distribution, FIRST_VERSION};
use livephoto_sorter::index::{build_index, classify, Entry, Kind, Stamp};
use livephoto_sorter::matcher::Matcher;
use livephoto_sorter::names::{chars_of, split_name};
use livephoto_sorter::quarantine::plan_quarantine;
use livephoto_sorter::slots::{apple_dir_name, first_free, to_decimal, version_dir_name, Slot};

fn n(s: &str) -> Vec<char> {
    s.chars().collect()
}

fn text(v: &[char]) -> String {
    v.iter().collect()
}

fn entry(name: &str, t: i64) -> Entry {
    Entry { name: n(name), modified: Stamp { secs: t, nanos: 0 } }
}

fn matcher_for(entries: &[Entry]) -> Matcher {
    Matcher::new(build_index(&entries.to_vec()))
}

fn kept_names(m: &Matcher) -> Vec<String> {
    m.kept.iter().map(|k| text(k)).collect()
}

/// Run the fuzzy pass as a caller would, with every rename succeeding.
fn fuzzy_pass(m: &mut Matcher) {
    for i in 0..m.index.mov.len() {
        if let Some(p) = m.propose(i) {
            m.accept(p);
        }
    }
}

#[test]
fn exact_heic_pair_is_kept_without_repair() {
    let es = vec![entry("IMG_0001.MOV", 100), entry("IMG_0001.HEIC", 100)];
    let mut m = matcher_for(&es);
    assert_eq!(kept_names(&m), vec!["IMG_0001.MOV", "IMG_0001.HEIC"]);
    assert!(m.propose(0).is_none());
    fuzzy_pass(&mut m);
    assert!(m.repairs.is_empty());
    let mut occ: Vec<Slot> = Vec::new();
    let plan = plan_quarantine(&m.index.all, &m.kept, &m.repairs, &mut occ).unwrap();
    assert_eq!(plan, vec![None, None]);
    assert!(occ.is_empty());
}

#[test]
fn exact_jpeg_pair_is_kept() {
    let es = vec![entry("IMG_0007.jpg", 9), entry("IMG_0007.mov", 9)];
    let m = matcher_for(&es);
    assert_eq!(kept_names(&m), vec!["IMG_0007.mov", "IMG_0007.jpg"]);
    assert_eq!(m.processed, vec![n("IMG_0007.jpg")]);
}

#[test]
fn heic_is_preferred_over_jpeg_for_exact_pairs() {
    let es = vec![entry("IMG_0008.JPG", 3), entry("IMG_0008.HEIC", 3), entry("IMG_0008.MOV", 3)];
    let m = matcher_for(&es);
    assert_eq!(kept_names(&m), vec!["IMG_0008.MOV", "IMG_0008.HEIC"]);
    let mut occ: Vec<Slot> = Vec::new();
    let plan = plan_quarantine(&m.index.all, &m.kept, &m.repairs, &mut occ).unwrap();
    assert_eq!(plan, vec![Some(0), None, None]);
}

#[test]
fn differing_times_do_not_pair() {
    let es = vec![entry("IMG_0009.MOV", 1), entry("IMG_0009.HEIC", 2)];
    let mut m = matcher_for(&es);
    fuzzy_pass(&mut m);
    assert!(m.kept.is_empty());
    assert!(m.repairs.is_empty());
}

#[test]
fn fuzzy_match_renames_shorter_motion_stem() {
    let es = vec![entry("IMG_0002.MOV", 200), entry("IMG_00025.JPG", 200)];
    let mut m = matcher_for(&es);
    assert!(m.kept.is_empty());
    let p = m.propose(0).unwrap();
    assert_eq!(p.motion, 0);
    assert_eq!(text(&p.record.original_motion), "IMG_0002.MOV");
    assert_eq!(text(&p.record.original_still), "IMG_00025.JPG");
    assert_eq!(text(&p.record.repaired_motion), "IMG_00025.MOV");
    assert_eq!(text(&p.record.repaired_still), "IMG_00025.JPG");
    m.accept(p);
    assert_eq!(m.repairs.len(), 1);
    assert_eq!(kept_names(&m), vec!["IMG_00025.MOV", "IMG_00025.JPG"]);
    let mut occ: Vec<Slot> = Vec::new();
    let plan = plan_quarantine(&m.index.all, &m.kept, &m.repairs, &mut occ).unwrap();
    assert_eq!(plan, vec![None, None]);
}

#[test]
fn fuzzy_match_renames_shorter_still_stem() {
    let es = vec![entry("IMG_00031.MOV", 4), entry("IMG_0003.HEIC", 4)];
    let mut m = matcher_for(&es);
    let p = m.propose(0).unwrap();
    assert_eq!(text(&p.record.repaired_motion), "IMG_00031.MOV");
    assert_eq!(text(&p.record.repaired_still), "IMG_00031.HEIC");
    m.accept(p);
    let mut occ: Vec<Slot> = Vec::new();
    let plan = plan_quarantine(&m.index.all, &m.kept, &m.repairs, &mut occ).unwrap();
    assert_eq!(plan, vec![None, None]);
}

#[test]
fn equal_length_stems_rename_the_motion() {
    let es = vec![entry("IMG_00041.MOV", 4), entry("IMG_00042.HEIC", 4)];
    let m = matcher_for(&es);
    let p = m.propose(0).unwrap();
    assert_eq!(text(&p.record.repaired_motion), "IMG_00042.MOV");
    assert_eq!(text(&p.record.repaired_still), "IMG_00042.HEIC");
}

#[test]
fn ambiguous_candidates_make_no_match() {
    let es = vec![entry("IMG_0003.MOV", 7), entry("IMG_00031.JPG", 7), entry("IMG_00032.HEIC", 7)];
    let mut m = matcher_for(&es);
    assert!(m.propose(0).is_none());
    fuzzy_pass(&mut m);
    assert!(m.kept.is_empty());
    let mut occ: Vec<Slot> = Vec::new();
    let plan = plan_quarantine(&m.index.all, &m.kept, &m.repairs, &mut occ).unwrap();
    assert_eq!(plan, vec![Some(0), Some(0), Some(0)]);
}

#[test]
fn exact_match_takes_precedence_over_fuzzy() {
    let es = vec![entry("IMG_0004.MOV", 1), entry("IMG_0004.JPG", 1), entry("IMG_00041.HEIC", 1)];
    let mut m = matcher_for(&es);
    assert!(m.propose(0).is_none());
    fuzzy_pass(&mut m);
    assert_eq!(kept_names(&m), vec!["IMG_0004.MOV", "IMG_0004.JPG"]);
    assert!(m.repairs.is_empty());
}

#[test]
fn fuzzy_needs_camera_marker_and_length() {
    let es = vec![entry("DSC_0005.MOV", 1), entry("DSC_00051.HEIC", 1)];
    let m = matcher_for(&es);
    assert!(m.propose(0).is_none());
    let es = vec![entry("IMG_005.MOV", 1), entry("IMG_0051.HEIC", 1)];
    let m = matcher_for(&es);
    assert!(m.propose(0).is_none());
}

#[test]
fn a_still_is_consumed_once() {
    let es = vec![entry("IMG_00011.MOV", 5), entry("IMG_00012.MOV", 5), entry("IMG_0001.HEIC", 5)];
    let mut m = matcher_for(&es);
    let p = m.propose(0).unwrap();
    m.accept(p);
    assert!(m.propose(1).is_none());
    fuzzy_pass(&mut m);
    assert_eq!(m.processed, vec![n("IMG_0001.HEIC")]);
    assert_eq!(m.repairs.len(), 1);
}

#[test]
fn exact_pair_survives_a_competing_fuzzy_motion() {
    let es = vec![entry("IMG_00012.MOV", 6), entry("IMG_00015.MOV", 6), entry("IMG_00015.HEIC", 6)];
    let mut m = matcher_for(&es);
    fuzzy_pass(&mut m);
    assert_eq!(kept_names(&m), vec!["IMG_00015.MOV", "IMG_00015.HEIC"]);
    assert!(m.repairs.is_empty());
}

#[test]
fn orphan_motion_is_quarantined() {
    let es = vec![entry("IMG_9999.MOV", 1), entry("IMG_1000.HEIC", 1)];
    let mut m = matcher_for(&es);
    fuzzy_pass(&mut m);
    assert!(m.kept.is_empty());
    let mut occ: Vec<Slot> = Vec::new();
    let plan = plan_quarantine(&m.index.all, &m.kept, &m.repairs, &mut occ).unwrap();
    assert_eq!(plan[0], Some(0));
    let mut occ = vec![Slot { version: 0, file: n("IMG_9999.MOV") }];
    let plan = plan_quarantine(&m.index.all, &m.kept, &m.repairs, &mut occ).unwrap();
    assert_eq!(plan[0], Some(1));
    assert_eq!(occ.len(), 3);
}

#[test]
fn sidecar_and_unknown_files_are_quarantined() {
    let es = vec![entry("IMG_0010.MOV", 2), entry("IMG_0010.HEIC", 2), entry("._IMG_0010.HEIC", 2), entry("notes.txt", 2)];
    let m = matcher_for(&es);
    assert_eq!(m.index.heic.len(), 1);
    let mut occ: Vec<Slot> = Vec::new();
    let plan = plan_quarantine(&m.index.all, &m.kept, &m.repairs, &mut occ).unwrap();
    assert_eq!(plan, vec![None, None, Some(0), Some(0)]);
}

#[test]
fn safe_moves_never_collide() {
    let occ = vec![Slot { version: 0, file: n("a.txt") }, Slot { version: 2, file: n("a.txt") }];
    assert_eq!(first_free(&occ, &n("a.txt"), 0), Some(1));
    assert_eq!(first_free(&occ, &n("b.txt"), 0), Some(0));
    let mut occ = vec![Slot { version: 0, file: n("a.txt") }, Slot { version: 1, file: n("a.txt") }];
    let all = vec![n("a.txt")];
    let plan = plan_quarantine(&all, &Vec::new(), &Vec::new(), &mut occ).unwrap();
    assert_eq!(plan, vec![Some(2)]);
    let plan = plan_quarantine(&all, &Vec::new(), &Vec::new(), &mut occ).unwrap();
    assert_eq!(plan, vec![Some(3)]);
}

#[test]
fn versions_can_run_out() {
    let occ = vec![Slot { version: u64::MAX, file: n("a") }];
    assert_eq!(first_free(&occ, &n("a"), u64::MAX), None);
}

#[test]
fn distribution_places_pair_under_prefix() {
    let names = vec![n("IMG_00015.HEIC"), n("IMG_00015.MOV")];
    let mut occ: Vec<Slot> = Vec::new();
    let plan = plan_distribution(&names, &mut occ).unwrap();
    assert!(plan[0].is_none());
    let t = plan[1].as_ref().unwrap();
    assert_eq!(t.version, FIRST_VERSION);
    assert_eq!(t.version, 100);
    assert_eq!(t.still, 0);
    assert_eq!(text(&t.motion_target), "IMG_0001.mov");
    assert_eq!(text(&t.still_target), "IMG_0001.HEIC");
    assert_eq!(occ.len(), 2);
}

#[test]
fn distribution_advances_past_taken_version() {
    let names = vec![n("IMG_00015.MOV"), n("IMG_00015.jpg")];
    let mut occ = vec![Slot { version: 100, file: n("IMG_0001.mov") }];
    let plan = plan_distribution(&names, &mut occ).unwrap();
    let t = plan[0].as_ref().unwrap();
    assert_eq!(t.version, 101);
    assert_eq!(text(&t.still_target), "IMG_0001.jpg");
    let again = plan_distribution(&names, &mut occ).unwrap();
    assert_eq!(again[0].as_ref().unwrap().version, 102);
}

#[test]
fn distribution_prefers_heic_and_skips_short_stems() {
    let names = vec![n("IMG_00016.MOV"), n("IMG_00016.JPG"), n("IMG_00016.heic"), n("IMG_0001.MOV"), n("IMG_0001.HEIC")];
    let mut occ: Vec<Slot> = Vec::new();
    let plan = plan_distribution(&names, &mut occ).unwrap();
    assert_eq!(plan[0].as_ref().unwrap().still, 2);
    assert!(plan[3].is_none());
    assert!(pair_for(&names, 3).is_none());
    let lone = vec![n("IMG_00017.MOV")];
    assert!(pair_for(&lone, 0).is_none());
}

#[test]
fn two_pairs_with_one_prefix_take_successive_versions() {
    let names = vec![n("IMG_00018.MOV"), n("IMG_00018.HEIC"), n("IMG_00019.MOV"), n("IMG_00019.HEIC")];
    let mut occ: Vec<Slot> = Vec::new();
    let plan = plan_distribution(&names, &mut occ).unwrap();
    assert_eq!(plan[0].as_ref().unwrap().version, 100);
    assert_eq!(plan[2].as_ref().unwrap().version, 101);
}

#[test]
fn classification_by_extension() {
    assert_eq!(classify(&n("a.HeIc")), Kind::StillHeic);
    assert_eq!(classify(&n("a.JPEG")), Kind::StillJpeg);
    assert_eq!(classify(&n("a.jpg")), Kind::StillJpeg);
    assert_eq!(classify(&n("a.Mov")), Kind::Motion);
    assert_eq!(classify(&n("a.png")), Kind::Unclassified);
    assert_eq!(classify(&n("noext")), Kind::Unclassified);
    assert_eq!(classify(&n(".heic")), Kind::Unclassified);
    assert_eq!(classify(&n("._a.heic")), Kind::Unclassified);
}

#[test]
fn names_split_at_last_dot() {
    let (s, e) = split_name(&n("a.b.mov"));
    assert_eq!(text(&s), "a.b");
    assert_eq!(text(&e.unwrap()), "mov");
    let (s, e) = split_name(&n("foo."));
    assert_eq!(text(&s), "foo");
    assert_eq!(e, Some(Vec::new()));
    let (s, e) = split_name(&n(".bashrc"));
    assert_eq!(text(&s), ".bashrc");
    assert!(e.is_none());
    assert_eq!(chars_of("IMG_1"), n("IMG_1"));
}

#[test]
fn later_entry_replaces_same_stem() {
    let es = vec![entry("IMG_1.jpg", 1), entry("IMG_1.jpeg", 2), entry("IMG_2.jpg", 3)];
    let x = build_index(&es);
    assert_eq!(x.jpeg.len(), 2);
    assert_eq!(text(&x.jpeg[0].name), "IMG_1.jpeg");
    assert_eq!(x.jpeg[0].modified, Stamp { secs: 2, nanos: 0 });
    assert_eq!(x.all.len(), 3);
}

#[test]
fn directory_names_follow_versions() {
    assert_eq!(text(&version_dir_name(&n("Other"), 0)), "Other");
    assert_eq!(text(&version_dir_name(&n("Other"), 1)), "Other1");
    assert_eq!(text(&version_dir_name(&n("Other"), 12)), "Other12");
    assert_eq!(text(&apple_dir_name(100)), "100APPLE");
    assert_eq!(text(&apple_dir_name(101)), "101APPLE");
    assert_eq!(text(&to_decimal(0)), "0");
    assert_eq!(text(&to_decimal(u64::MAX)), "18446744073709551615");
}

#[test]
fn exact_jpeg_still_is_not_offered_again() {
    let es = vec![entry("IMG_0005.MOV", 1), entry("IMG_0005.JPG", 1), entry("IMG_00051.MOV", 1)];
    let mut m = matcher_for(&es);
    assert_eq!(m.processed, vec![n("IMG_0005.JPG")]);
    assert!(m.propose(1).is_none());
    fuzzy_pass(&mut m);
    assert!(m.repairs.is_empty());
    let mut occ: Vec<Slot> = Vec::new();
    let plan = plan_quarantine(&m.index.all, &m.kept, &m.repairs, &mut occ).unwrap();
    assert_eq!(plan, vec![None, None, Some(0)]);
}
