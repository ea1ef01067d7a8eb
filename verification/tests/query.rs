use frecdb::db::Database;
use frecdb::entry::Entry;
use frecdb::matching::matches_keywords;

fn paths_of(db: &Database, now: u64, keywords: Vec<Vec<u8>>) -> Vec<Vec<u8>> {
    let mut stream = db.stream(now).with_keywords(keywords);
    let mut out = Vec::new();
    while let Some(e) = stream.next() {
        out.push(e.path);
    }
    out
}

#[test]
fn end_to_end_two_visits_win() {
    let mut db = Database::new();
    db.add(b"/x".to_vec(), 0);
    db.add(b"/y".to_vec(), 10);
    db.add(b"/x".to_vec(), 20);
    let order = paths_of(&db, 20, Vec::new());
    assert_eq!(order, vec![b"/x".to_vec(), b"/y".to_vec()]);
    assert_eq!(db.entries[0].rank, 200);
    assert_eq!(db.entries[0].last_access, 20);
}

#[test]
fn ordering_is_deterministic() {
    let db = Database {
        entries: vec![
            Entry { path: b"/ab".to_vec(), rank: 300, last_access: 50 },
            Entry { path: b"/aa".to_vec(), rank: 300, last_access: 40 },
            Entry { path: b"/zz".to_vec(), rank: 700, last_access: 50 },
        ],
        dirty: false,
    };
    let first = paths_of(&db, 60, Vec::new());
    let second = paths_of(&db, 60, Vec::new());
    assert_eq!(first, second);
    // same frecency and rank for /aa and /ab: the lexicographically
    // smaller path comes first
    assert_eq!(first, vec![b"/zz".to_vec(), b"/aa".to_vec(), b"/ab".to_vec()]);
}

#[test]
fn ties_break_by_rank_before_path() {
    // both entries land in the day band, so their scores tie while the
    // ranks differ
    let db = Database {
        entries: vec![
            Entry { path: b"/aaa".to_vec(), rank: 400, last_access: 0 },
            Entry { path: b"/zzz".to_vec(), rank: 401, last_access: 0 },
        ],
        dirty: false,
    };
    let order = paths_of(&db, 3600, Vec::new());
    assert_eq!(order, vec![b"/zzz".to_vec(), b"/aaa".to_vec()]);
}

#[test]
fn recent_visit_outranks_higher_rank() {
    let db = Database {
        entries: vec![
            Entry { path: b"/old".to_vec(), rank: 200, last_access: 0 },
            Entry { path: b"/fresh".to_vec(), rank: 150, last_access: 3600 },
        ],
        dirty: false,
    };
    // at now = 3600: /old has age 3600 (weight 2, score 100), /fresh
    // has age 0 (weight 1, score 150)
    let order = paths_of(&db, 3600, Vec::new());
    assert_eq!(order, vec![b"/fresh".to_vec(), b"/old".to_vec()]);
}

#[test]
fn keyword_subsequence_matching() {
    let kws = vec![b"foo".to_vec(), b"bar".to_vec()];
    assert!(matches_keywords(&b"/home/foo/bar".to_vec(), &kws));
    assert!(!matches_keywords(&b"/home/bar/foo".to_vec(), &kws));

    let db = Database {
        entries: vec![
            Entry { path: b"/home/foo/bar".to_vec(), rank: 100, last_access: 0 },
            Entry { path: b"/home/bar/foo".to_vec(), rank: 100, last_access: 0 },
        ],
        dirty: false,
    };
    let order = paths_of(&db, 0, vec![b"foo".to_vec(), b"bar".to_vec()]);
    assert_eq!(order, vec![b"/home/foo/bar".to_vec()]);
}

#[test]
fn keyword_matching_ignores_ascii_case() {
    let kws = vec![b"FOO".to_vec()];
    assert!(matches_keywords(&b"/home/foo".to_vec(), &kws));
    assert!(matches_keywords(&b"/home/FoO".to_vec(), &vec![b"foo".to_vec()]));
}

#[test]
fn keyword_matches_do_not_overlap() {
    let kws = vec![b"ab".to_vec(), b"b".to_vec()];
    assert!(!matches_keywords(&b"/ab".to_vec(), &kws));
    assert!(matches_keywords(&b"/abb".to_vec(), &kws));
}

#[test]
fn keyword_longer_than_path_does_not_match() {
    assert!(!matches_keywords(&b"/a".to_vec(), &vec![b"alpha".to_vec()]));
}

#[test]
fn keywords_must_all_occur() {
    let kws = vec![b"foo".to_vec(), b"qux".to_vec()];
    assert!(!matches_keywords(&b"/home/foo/bar".to_vec(), &kws));
}

#[test]
fn empty_keywords_match_everything() {
    let mut db = Database::new();
    db.add(b"/a".to_vec(), 1);
    db.add(b"/b".to_vec(), 2);
    let order = paths_of(&db, 2, Vec::new());
    assert_eq!(order.len(), 2);
}

#[test]
fn exclusion_of_only_match_is_reported() {
    let mut db = Database::new();
    db.add(b"/only".to_vec(), 1);
    let mut stream = db.stream(1).with_exclude(b"/only".to_vec());
    assert!(stream.next().is_none());
    assert!(stream.did_exclude());
}

#[test]
fn exclusion_flag_is_false_on_empty_store() {
    let db = Database::new();
    let mut stream = db.stream(1).with_exclude(b"/only".to_vec());
    assert!(stream.next().is_none());
    assert!(!stream.did_exclude());
}

#[test]
fn exclusion_drops_exactly_one_path() {
    let mut db = Database::new();
    db.add(b"/keep".to_vec(), 1);
    db.add(b"/drop".to_vec(), 2);
    let mut stream = db.stream(2).with_exclude(b"/drop".to_vec());
    let e = stream.next().expect("the other entry stays");
    assert_eq!(e.path, b"/keep".to_vec());
    assert!(stream.next().is_none());
    assert!(stream.did_exclude());
}

#[test]
fn score_follows_the_decay_bands() {
    let e = Entry { path: b"/a".to_vec(), rank: 800, last_access: 1000 };
    assert_eq!(e.score(1000), 800);
    assert_eq!(e.score(1000 + 3599), 800);
    assert_eq!(e.score(1000 + 3600), 400);
    assert_eq!(e.score(1000 + 86400), 200);
    assert_eq!(e.score(1000 + 604800), 100);
    // a stamp in the future counts as age zero
    assert_eq!(e.score(0), 800);
}

#[test]
fn exists_mode_reports_the_configuration() {
    let db = Database::new();
    let stream = db.stream(0);
    assert_eq!(stream.exists_mode(), None);
    let stream = db.stream(0).with_exists(true);
    assert_eq!(stream.exists_mode(), Some(true));
    let stream = db.stream(0).with_exists(false);
    assert_eq!(stream.exists_mode(), Some(false));
}
