use pro_search::database::Database;
use pro_search::filter::find_candidate;
use pro_search::index::KmerIndex;
use pro_search::pipeline::{search, SearchMode, SearchParams};
use pro_search::simd::{extend_direction_simd, extend_right_blocked};
use pro_search::spaced::SpacedIndex;
use pro_search::ungapped::{extend_direction_scalar, Scoring};

fn db_of(records: &[(&str, &str)]) -> Database {
    let mut db = Database::new();
    for (id, seq) in records {
        db.push(id.to_string(), seq.as_bytes());
    }
    db
}

fn named(db: &Database, hits: &[(u32, u32)]) -> Vec<(String, u32)> {
    hits.iter()
        .map(|(pid, score)| (db.get(*pid as usize).unwrap().0.to_string(), *score))
        .collect()
}

#[test]
fn identity_search_scores_full_length() {
    let db = db_of(&[("P1", "ACDEFGHIKLMNPQRSTVWY")]);
    let index = KmerIndex::build(&db, 5).unwrap();
    let params = SearchParams::with_defaults(1, 10);
    let hits = search(&db, &index, None, b"ACDEFGHIKLMNPQRSTVWY", SearchMode::Auto, &params).unwrap();
    assert_eq!(named(&db, &hits), vec![("P1".to_string(), 20)]);
}

#[test]
fn single_substitution_keeps_diagonal() {
    let db = db_of(&[("P1", "ACDEFGHIKLMNPQRSTVWY")]);
    let index = KmerIndex::build(&db, 5).unwrap();
    let cands = find_candidate(&index, b"ACDEFGHIKLXNPQRSTVWY", 2);
    assert!(!cands.is_empty());
    assert_eq!(cands[0].id, 0);
    assert_eq!(cands[0].best_diagonal, 0);
    let params = SearchParams::with_defaults(10, 10);
    let hits = search(&db, &index, None, b"ACDEFGHIKLXNPQRSTVWY", SearchMode::Diagonal, &params).unwrap();
    assert_eq!(hits[0].0, 0);
}

#[test]
fn offset_match_finds_diagonal_five() {
    let db = db_of(&[("P1", "AAAAACDEFGHIKLMAAAAA")]);
    let index = KmerIndex::build(&db, 5).unwrap();
    let cands = find_candidate(&index, b"CDEFGHIKLM", 2);
    assert_eq!(cands.len(), 1);
    assert_eq!(cands[0].id, 0);
    assert_eq!(cands[0].best_diagonal, 5);
    assert_eq!(cands[0].score, 6);
}

#[test]
fn xdrop_stops_after_mismatch_run() {
    let scoring = Scoring::default();
    let q = b"AAAABBBB";
    let t = b"AAAACCCC";
    assert_eq!(extend_direction_scalar(q, t, &scoring, 0, 0, 1, 3), (4, 3, 3));
    assert_eq!(extend_right_blocked(q, t, &scoring, 0, 0, 3), (4, 3, 3));
    assert_eq!(extend_direction_simd(q, t, &scoring, 0, 0, 1, 3), (4, 3, 3));
}

#[test]
fn invalid_residue_windows_are_skipped() {
    let db = db_of(&[("P1", "ACDEFXGHIKLM")]);
    let index = KmerIndex::build(&db, 5).unwrap();
    let mut positions: Vec<(u32, u16)> = index.map.values().flat_map(|v| v.iter().copied()).collect();
    positions.sort();
    assert_eq!(positions, vec![(0, 0), (0, 6), (0, 7)]);
}

#[test]
fn no_shared_words_gives_empty_ranking() {
    let db = db_of(&[("P1", "AAAAAAAAAA")]);
    let index = KmerIndex::build(&db, 5).unwrap();
    let spaced = SpacedIndex::build(&db, "11011").unwrap();
    let params = SearchParams::with_defaults(10, 10);
    for mode in [SearchMode::Basic, SearchMode::Diagonal, SearchMode::Spaced, SearchMode::Auto] {
        let hits = search(&db, &index, Some(&spaced), b"WWWWWWWWWW", mode, &params).unwrap();
        assert!(hits.is_empty(), "{:?}", mode);
    }
}
