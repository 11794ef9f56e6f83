use pro_search::alphabet::{decode_kmer, encode_kmer, encode_spaced, get_score};
use pro_search::database::{Database, MAX_SEQ_LEN};
use pro_search::fasta::{FastaError, FastaReader};
use pro_search::filter::find_candidate;
use pro_search::index::{IndexError, KmerIndex};
use pro_search::metric::{truth_rank, truth_ranks};
use pro_search::pipeline::{search, search_auto, SearchError, SearchMode, SearchParams};
use pro_search::rescore::{align_sw, extract_window, rescore_hits};
use pro_search::simd::extend_right_blocked;
use pro_search::spaced::SpacedIndex;
use pro_search::ungapped::{extend_direction_scalar, extend_ungapped, refine_ungapped, Scoring};

const ALPHABET: &[u8] = b"ACDEFGHIKLMNPQRSTVWY";

fn db_of(records: &[(&str, &str)]) -> Database {
    let mut db = Database::new();
    for (id, seq) in records {
        db.push(id.to_string(), seq.as_bytes());
    }
    db
}

fn pseudo_protein(seed: u64, len: usize) -> Vec<u8> {
    let mut x = seed.wrapping_mul(6364136223846793005).wrapping_add(1442695040888963407);
    let mut out = Vec::with_capacity(len);
    for _ in 0..len {
        x = x.wrapping_mul(6364136223846793005).wrapping_add(1442695040888963407);
        out.push(ALPHABET[((x >> 33) % 20) as usize]);
    }
    out
}

#[test]
fn codec_round_trip_every_length() {
    for k in 3..=12 {
        for seed in 0..20u64 {
            let word = pseudo_protein(seed * 31 + k as u64, k);
            let key = encode_kmer(&word).unwrap();
            assert_eq!(decode_kmer(key, k).as_bytes(), &word[..]);
        }
    }
}

#[test]
fn codec_known_key_and_lowercase() {
    assert_eq!(encode_kmer(b"ACD"), Some((0 << 10) | (1 << 5) | 2));
    assert_eq!(encode_kmer(b"acd"), encode_kmer(b"ACD"));
    assert_eq!(encode_kmer(b"Y"), Some(19));
    assert_eq!(encode_kmer(b""), Some(0));
}

#[test]
fn codec_rejects_ambiguous_and_long_words() {
    for bad in [b"ACB".as_slice(), b"AJC", b"OAC", b"ACU", b"XAA", b"AAZ", b"A C", b"A*C"] {
        assert_eq!(encode_kmer(bad), None);
    }
    assert_eq!(encode_kmer(b"AAAAAAAAAAAAA"), None);
    assert!(encode_kmer(b"AAAAAAAAAAAA").is_some());
}

#[test]
fn decode_marks_unused_codes() {
    assert_eq!(decode_kmer(31, 2), "A?");
    assert_eq!(decode_kmer((4 << 5) | 19, 2), "FY");
    assert_eq!(decode_kmer(0, 0), "");
}

#[test]
fn spaced_encoding_selects_pattern_positions() {
    let mask = [true, true, false, true];
    assert_eq!(encode_spaced(b"ACXD", &mask), encode_kmer(b"ACD"));
    assert_eq!(encode_spaced(b"ACDX", &mask), None);
    assert_eq!(encode_spaced(b"ACDEF", &[true, true, true]), encode_kmer(b"ACD"));
}

#[test]
fn blosum_scores() {
    assert_eq!(get_score(b'A', b'A'), 4);
    assert_eq!(get_score(b'W', b'W'), 11);
    assert_eq!(get_score(b'A', b'R'), -1);
    assert_eq!(get_score(b'a', b'a'), 4);
    assert_eq!(get_score(b'*', b'*'), 1);
    assert_eq!(get_score(b'C', b'?'), -2);
}

#[test]
fn all_ones_pattern_matches_contiguous_index() {
    let db = db_of(&[
        ("a", "ACDEFGHIKLMNPQRSTVWYACDEFXGHIK"),
        ("b", "MKVLAAGGGACDEFAAAA"),
        ("c", "GGGG"),
    ]);
    let kmer = KmerIndex::build(&db, 4).unwrap();
    let spaced = SpacedIndex::build(&db, "1111").unwrap();
    assert_eq!(kmer.map.len(), spaced.map.len());
    for (key, list) in kmer.map.iter() {
        assert_eq!(spaced.query(*key).unwrap(), list.as_slice());
    }
}

#[test]
fn every_valid_window_is_indexed() {
    let seqs = ["ACDEFGHIKLMNPQRSTVWY", "WWWWACDXEFGH", "KLMNPKLMNP"];
    let db = db_of(&[("a", seqs[0]), ("b", seqs[1]), ("c", seqs[2])]);
    let k = 3;
    let index = KmerIndex::build(&db, k).unwrap();
    for (pid, s) in seqs.iter().enumerate() {
        for pos in 0..=(s.len() - k) {
            if let Some(key) = encode_kmer(&s.as_bytes()[pos..pos + k]) {
                assert!(index.query(key).unwrap().contains(&(pid as u32, pos as u16)));
            }
        }
    }
}

#[test]
fn build_rejects_bad_parameters() {
    let db = db_of(&[("a", "ACDEFGHIK")]);
    assert_eq!(KmerIndex::build(&db, 2).err(), Some(IndexError::WordLength));
    assert_eq!(KmerIndex::build(&db, 13).err(), Some(IndexError::WordLength));
    assert!(KmerIndex::build(&db, 12).is_ok());
    assert_eq!(SpacedIndex::build(&db, "1102").err(), Some(IndexError::PatternSymbol));
    assert_eq!(SpacedIndex::build(&db, "000").err(), Some(IndexError::PatternWeight));
    assert_eq!(SpacedIndex::build(&db, "").err(), Some(IndexError::PatternWeight));
    assert_eq!(SpacedIndex::build(&db, "1111111111111").err(), Some(IndexError::PatternWeight));
    assert_eq!(SpacedIndex::build(&db, "11010111").unwrap().weight, 6);
}

#[test]
fn candidates_have_true_seed_support() {
    let db = db_of(&[("a", "MKVLAACDEFGHIKLMAAA"), ("b", "ACDEFGHIKLMWWWWW"), ("c", "PPPPPPPP")]);
    let k = 3;
    let index = KmerIndex::build(&db, k).unwrap();
    let query = b"CDEFGHIKLM";
    let cands = find_candidate(&index, query, 2);
    assert_eq!(cands.len(), 2);
    for c in &cands {
        let target = db.get(c.id as usize).unwrap().1;
        let mut seeds = 0;
        for q in 0..=(query.len() - k) {
            let t = q as i64 + c.best_diagonal as i64;
            if t >= 0 && (t as usize) + k <= target.len() {
                let w = encode_kmer(&query[q..q + k]);
                if w.is_some() && w == encode_kmer(&target[t as usize..t as usize + k]) {
                    seeds += 1;
                }
            }
        }
        assert_eq!(seeds, c.score);
    }
    assert_eq!((cands[0].id, cands[0].best_diagonal, cands[0].score), (0, 6, 8));
    assert_eq!((cands[1].id, cands[1].best_diagonal, cands[1].score), (1, 1, 8));
}

#[test]
fn candidate_ties_go_to_lower_id_and_lower_diagonal() {
    let db = db_of(&[("a", "ACDEFAACDEF"), ("b", "ACDEF")]);
    let index = KmerIndex::build(&db, 3).unwrap();
    let cands = find_candidate(&index, b"ACDEF", 1);
    assert_eq!(cands.len(), 2);
    assert_eq!((cands[0].id, cands[0].best_diagonal, cands[0].score), (0, 0, 3));
    assert_eq!((cands[1].id, cands[1].best_diagonal, cands[1].score), (1, 0, 3));
    assert!(find_candidate(&index, b"AC", 1).is_empty());
    assert_eq!(find_candidate(&index, b"ACD", 1).len(), 2);
}

#[test]
fn xdrop_best_is_maximum_prefix() {
    let scoring = Scoring::default();
    let q = b"ACDEFWWACDEFGH";
    let t = b"ACDEFKKACDEFGH";
    let (best, qe, te) = extend_direction_scalar(q, t, &scoring, 0, 0, 1, 10);
    let mut run = 0i32;
    let mut max = 0i32;
    for i in 0..q.len() {
        run += if q[i] == t[i] { 1 } else { -1 };
        max = max.max(run);
    }
    assert_eq!(best, max);
    assert_eq!((best, qe, te), (10, 13, 13));
    assert_eq!(extend_direction_scalar(q, t, &scoring, 0, 0, 1, 1), (5, 4, 4));
    assert_eq!(extend_direction_scalar(q, t, &scoring, 13, 13, -1, 1), (7, 7, 7));
}

#[test]
fn blocked_matches_scalar() {
    let scoring = Scoring { match_score: 2, mismatch_score: -3 };
    for seed in 0..40u64 {
        let base = pseudo_protein(seed, 150);
        let mut other = base.clone();
        for i in (0..other.len()).step_by(7 + (seed % 5) as usize) {
            other[i] = b'W';
        }
        for x_drop in [0, 1, 5, 20, 1000] {
            for start in [0usize, 3, 40, 149, 150, 200] {
                assert_eq!(
                    extend_right_blocked(&base, &other, &scoring, start, start, x_drop),
                    extend_direction_scalar(&base, &other, &scoring, start, start, 1, x_drop),
                );
            }
        }
    }
}

#[test]
fn extension_joins_both_directions() {
    let scoring = Scoring::default();
    let e = extend_ungapped(b"WWACDEFGHWW", b"KACDEFGHK", &scoring, 4, 3, 5);
    assert_eq!((e.score, e.q_start, e.q_end, e.t_start, e.t_end), (7, 2, 8, 1, 7));
    let e = extend_ungapped(b"ACDEF", b"ACDEF", &scoring, 0, 0, 5);
    assert_eq!((e.score, e.q_start, e.q_end), (5, 0, 4));
}

#[test]
fn refine_drops_unanchored_and_ranks() {
    let db = db_of(&[("a", "ACDEFGHIK"), ("b", "ACDEFGHIKLMNP")]);
    let scoring = Scoring::default();
    let cands = vec![
        pro_search::filter::Candidate { id: 0, score: 3, best_diagonal: 0 },
        pro_search::filter::Candidate { id: 1, score: 3, best_diagonal: 0 },
        pro_search::filter::Candidate { id: 7, score: 3, best_diagonal: 0 },
        pro_search::filter::Candidate { id: 0, score: 3, best_diagonal: 50 },
    ];
    let hits = refine_ungapped(b"ACDEFGHIKLMNP", &cands, &db, &scoring, 5, 10);
    assert_eq!(hits.len(), 2);
    assert_eq!((hits[0].0, hits[0].1.score), (1, 13));
    assert_eq!((hits[1].0, hits[1].1.score), (0, 9));
    assert_eq!(refine_ungapped(b"ACDEFGHIKLMNP", &cands, &db, &scoring, 5, 1).len(), 1);
}

#[test]
fn windows_clip_to_sequence() {
    let s = b"ACDEFGHIKL";
    assert_eq!(extract_window(s, 5, 2), (&s[3..7], 3));
    assert_eq!(extract_window(s, 1, 4), (&s[0..5], 0));
    assert_eq!(extract_window(s, 8, 4), (&s[4..10], 4));
    assert_eq!(extract_window(s, 3, usize::MAX), (&s[..], 0));
    assert_eq!(extract_window(s, 20, 1), (&s[10..10], 10));
}

#[test]
fn gapped_alignment_scores() {
    assert_eq!(align_sw(b"ACDEFGHIKL", b"ACDEFGHIKL", -10, -1, 1, -1), 10);
    assert_eq!(align_sw(b"ACDEFGHIKL", b"WWWWW", -10, -1, 1, -1), 0);
    assert_eq!(align_sw(b"WWACDEFWW", b"ACDEF", -10, -1, 1, -1), 5);
}

#[test]
fn rescoring_replaces_ungapped_score() {
    let db = db_of(&[("a", "ACDEFGHIKLMNPQ"), ("b", "ACDEFG")]);
    let scoring = Scoring::default();
    let query = b"ACDEFGHIKLMNPQ";
    let cands = find_candidate(&KmerIndex::build(&db, 3).unwrap(), query, 1);
    let hits = refine_ungapped(query, &cands, &db, &scoring, 5, 10);
    let rescored = rescore_hits(query, &hits, &db, 60, 20);
    assert_eq!(rescored, vec![(0, 14), (1, 6)]);
    assert_eq!(rescore_hits(query, &hits, &db, 60, 1), vec![(0, 14)]);
}

#[test]
fn self_search_ranks_source_first() {
    let records: Vec<(String, String)> = (0..12u64)
        .map(|i| (format!("T{}", i), String::from_utf8(pseudo_protein(i + 100, 80)).unwrap()))
        .collect();
    let mut db = Database::new();
    for (id, s) in &records {
        db.push(id.clone(), s.as_bytes());
    }
    let index = KmerIndex::build(&db, 5).unwrap();
    let params = SearchParams::with_defaults(10, 10);
    let rankings: Vec<Vec<(u32, u32)>> = records
        .iter()
        .map(|(_, s)| search(&db, &index, None, s.as_bytes(), SearchMode::Auto, &params).unwrap())
        .collect();
    let truths: Vec<u32> = (0..12).collect();
    let ranks = truth_ranks(&rankings, &truths);
    assert!(ranks.iter().all(|r| *r == Some(0)));
}

#[test]
fn larger_budgets_keep_recall() {
    let records: Vec<Vec<u8>> = (0..8u64).map(|i| pseudo_protein(i + 7, 60)).collect();
    let mut db = Database::new();
    for (i, s) in records.iter().enumerate() {
        db.push(format!("T{}", i), s);
    }
    let index = KmerIndex::build(&db, 4).unwrap();
    let mut query = records[3][10..50].to_vec();
    query[20] = b'W';
    let small = SearchParams { n: 50, x_drop: 10, min_support: 2, extend_budget: 2, rescore_budget: 1, radius: 60 };
    let large = SearchParams { n: 50, x_drop: 10, min_support: 2, extend_budget: 50, rescore_budget: 20, radius: 60 };
    let a = search_auto(&db, &index, &query, &small);
    let b = search_auto(&db, &index, &query, &large);
    assert_eq!(truth_rank(&a, 3), Some(0));
    assert!(truth_rank(&b, 3).is_some());
    for (pid, _) in &a {
        assert!(b.iter().any(|(p, _)| p == pid));
    }
}

#[test]
fn basic_and_spaced_voting() {
    let db = db_of(&[("a", "ACDEFGHIKL"), ("b", "ACDEFAAAAA"), ("c", "WWWWWWWWWW")]);
    let index = KmerIndex::build(&db, 3).unwrap();
    assert_eq!(index.search_basic(b"ACDEFGH", 10), vec![(0, 5), (1, 3)]);
    assert_eq!(index.search_basic(b"ACDEFGH", 1), vec![(0, 5)]);
    assert!(index.search_basic(b"AC", 10).is_empty());
    let spaced = SpacedIndex::build(&db, "101").unwrap();
    assert_eq!(spaced.search_basic(b"ACDEFGH", 10), vec![(0, 5), (1, 3)]);
    let params = SearchParams::with_defaults(10, 10);
    assert_eq!(search(&db, &index, Some(&spaced), b"ACDEFGH", SearchMode::Spaced, &params), Ok(vec![(0, 5), (1, 3)]));
    assert_eq!(search(&db, &index, None, b"ACDEFGH", SearchMode::Basic, &params), Ok(vec![(0, 5), (1, 3)]));
}

#[test]
fn search_rejects_bad_parameters() {
    let db = db_of(&[("a", "ACDEFGHIKL")]);
    let index = KmerIndex::build(&db, 3).unwrap();
    let bad = SearchParams::with_defaults(10, -1);
    assert_eq!(search(&db, &index, None, b"ACDEF", SearchMode::Auto, &bad), Err(SearchError::NegativeXDrop));
    let params = SearchParams::with_defaults(10, 0);
    assert_eq!(search(&db, &index, None, b"ACDEF", SearchMode::Spaced, &params), Err(SearchError::MissingSpacedIndex));
    assert_eq!(search(&db, &index, None, b"ACDEF", SearchMode::Diagonal, &params), Ok(vec![(0, 3)]));
}

#[test]
fn empty_inputs() {
    let db = Database::new();
    assert!(db.is_empty());
    assert_eq!(db.len(), 0);
    assert!(db.get(0).is_none());
    let index = KmerIndex::build(&db, 5).unwrap();
    assert!(find_candidate(&index, b"", 2).is_empty());
    assert!(index.search_basic(b"ACDEFG", 5).is_empty());
    let empty = KmerIndex::new(4);
    assert_eq!(empty.k, 4);
    assert!(empty.query(0).is_none());
}

#[test]
fn database_records_and_truncation() {
    let mut db = Database::new();
    db.push("x".to_string(), b"ACD");
    let long = vec![b'A'; MAX_SEQ_LEN + 10];
    db.push("y".to_string(), &long);
    assert_eq!(db.len(), 2);
    assert_eq!(db.get(0), Some(("x", b"ACD".as_slice())));
    assert_eq!(db.get(1).unwrap().1.len(), MAX_SEQ_LEN);
    assert!(db.get(2).is_none());
}

#[test]
fn fasta_records() {
    let mut r = FastaReader::new();
    for line in ["", ">sp|Q9 first protein", "ACDEF", "  GHIK \r", "", ">", "MMM", ">Q3 x", "W>Y", "\t>Q4 "] {
        r.feed_line(line.as_bytes()).unwrap();
    }
    let db = r.finish().unwrap();
    assert_eq!(db.len(), 4);
    assert_eq!(db.get(0), Some(("sp|Q9", b"ACDEFGHIK".as_slice())));
    assert_eq!(db.get(1), Some(("unknown", b"MMM".as_slice())));
    assert_eq!(db.get(2), Some(("Q3", b"W>Y".as_slice())));
    assert_eq!(db.get(3), Some(("Q4", b"".as_slice())));
}

#[test]
fn fasta_rejects_sequence_before_header() {
    let mut r = FastaReader::new();
    assert_eq!(r.feed_line(b"   "), Ok(()));
    assert_eq!(r.feed_line(b"ACDEF"), Err(FastaError::DataBeforeHeader));
    assert_eq!(r.finish().unwrap().len(), 0);
}

#[test]
fn fasta_truncates_long_records() {
    let mut r = FastaReader::new();
    r.feed_line(b">long").unwrap();
    let line = vec![b'C'; 40000];
    r.feed_line(&line).unwrap();
    r.feed_line(&line).unwrap();
    let db = r.finish().unwrap();
    assert_eq!(db.get(0).unwrap().1.len(), MAX_SEQ_LEN);
}

#[test]
fn fasta_non_ascii_identifier() {
    let mut r = FastaReader::new();
    r.feed_line(">prot\u{e9}ine desc".as_bytes()).unwrap();
    r.feed_line(b"AC").unwrap();
    let db = r.finish().unwrap();
    assert_eq!(db.get(0).unwrap().0, "prot\u{e9}ine");
}

#[test]
fn gapped_alignment_of_empty_window() {
    assert_eq!(align_sw(b"", b"ACDEF", -10, -1, 1, -1), 0);
    assert_eq!(align_sw(b"ACDEF", b"", -10, -1, 1, -1), 0);
    assert_eq!(align_sw(b"", b"", -10, -1, 1, -1), 0);
}

#[test]
fn truth_rank_positions() {
    let hits = vec![(4, 9), (2, 7), (4, 1)];
    assert_eq!(truth_rank(&hits, 4), Some(0));
    assert_eq!(truth_rank(&hits, 2), Some(1));
    assert_eq!(truth_rank(&hits, 3), None);
    let ranks = truth_ranks(&[hits.clone(), vec![]], &[2, 2, 2]);
    assert_eq!(ranks, vec![Some(1), None]);
}

#[test]
fn blosum_scores_are_symmetric_and_bounded() {
    for a in 0..=255u8 {
        for b in 0..=255u8 {
            let s = get_score(a, b);
            assert_eq!(s, get_score(b, a));
            assert!((-4..=11).contains(&s));
        }
    }
    assert_eq!(get_score(b'K', b'Y'), -2);
    assert_eq!(get_score(b'Y', b'K'), -2);
}

#[test]
fn search_rejects_overlong_auto_window() {
    let db = db_of(&[("a", "ACDEFGHIKL")]);
    let index = KmerIndex::build(&db, 3).unwrap();
    let query = vec![b'W'; 1_000_001];
    let mut params = SearchParams::with_defaults(10, 10);
    params.radius = 600_000;
    assert_eq!(search(&db, &index, None, &query, SearchMode::Auto, &params), Err(SearchError::WindowTooLong));
    params.radius = 60;
    assert_eq!(search(&db, &index, None, &query, SearchMode::Auto, &params), Ok(vec![]));
}
