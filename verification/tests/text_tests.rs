use n0xis_core::ctx::Ctx;
use n0xis_core::diff::{lcs_diff, DiffArtifact, DiffInput, DiffOp, DiffPass};
use n0xis_core::gamegrep::{
    count_occurrences, gather, rank, snippet_around, vocabulary, Document, GameGrepArtifact, Gathered, RankOptions,
};
use n0xis_core::source::Snapshot;

fn diff(a: Vec<&str>, b: Vec<&str>) -> DiffArtifact {
    let snap = Snapshot { regions: vec![], code: vec![] };
    let ctx = Ctx::new(&snap);
    DiffPass
        .run(&ctx, DiffInput { a: a.into_iter().map(String::from).collect(), b: b.into_iter().map(String::from).collect() })
        .unwrap()
}

fn similarity(d: &DiffArtifact) -> f32 {
    d.equal as f32 / d.denom as f32
}

#[test]
fn identical_input_is_fully_equal() {
    let art = diff(vec!["a", "b", "c"], vec!["a", "b", "c"]);
    assert_eq!(art.equal, 3);
    assert_eq!(art.inserted, 0);
    assert_eq!(art.deleted, 0);
    assert_eq!(similarity(&art), 1.0);
}

#[test]
fn a_single_changed_line_is_reported_precisely() {
    let art = diff(vec!["a", "b", "c"], vec!["a", "B", "c"]);
    assert_eq!(art.equal, 2, "a and c are still equal: {:#?}", art.hunks);
    assert_eq!(art.deleted, 1);
    assert_eq!(art.inserted, 1);
    let deleted: Vec<_> = art.hunks.iter().filter(|h| h.op == DiffOp::Delete).map(|h| h.text.as_str()).collect();
    let inserted: Vec<_> = art.hunks.iter().filter(|h| h.op == DiffOp::Insert).map(|h| h.text.as_str()).collect();
    assert_eq!(deleted, vec!["b"]);
    assert_eq!(inserted, vec!["B"]);
}

#[test]
fn an_appended_line_is_a_pure_insert() {
    let art = diff(vec!["a", "b"], vec!["a", "b", "c"]);
    assert_eq!(art.equal, 2);
    assert_eq!(art.inserted, 1);
    assert_eq!(art.deleted, 0);
}

#[test]
fn completely_different_functions_have_low_similarity() {
    let art = diff(vec!["x", "y", "z"], vec!["p", "q", "r"]);
    assert_eq!(art.equal, 0);
    assert_eq!(similarity(&art), 0.0);
}

#[test]
fn empty_inputs_do_not_panic() {
    let art = diff(vec![], vec![]);
    assert_eq!(art.hunks.len(), 0);
    assert_eq!(similarity(&art), 0.0, "denom clamps to 1 so this never divides by zero");
}

#[test]
fn both_texts_can_be_read_off_the_changes() {
    let a = vec!["k", "l", "m", "n", "o"];
    let b = vec!["l", "x", "n", "k", "o", "y"];
    let art = diff(a.clone(), b.clone());
    let old: Vec<_> = art.hunks.iter().filter(|h| h.op != DiffOp::Insert).map(|h| h.text.as_str()).collect();
    let new: Vec<_> = art.hunks.iter().filter(|h| h.op != DiffOp::Delete).map(|h| h.text.as_str()).collect();
    assert_eq!(old, a);
    assert_eq!(new, b);
    assert_eq!(art.equal, 3);
    let lines: Vec<_> = art.hunks.iter().filter_map(|h| h.b_line).collect();
    assert_eq!(lines, vec![1, 2, 3, 4, 5, 6]);
}

#[test]
fn very_long_texts_are_replaced_as_a_whole() {
    let a: Vec<&str> = vec!["same"; 1500];
    let b: Vec<&str> = vec!["same"; 1400];
    let art = diff(a, b);
    assert_eq!((art.equal, art.deleted, art.inserted, art.denom), (0, 1500, 1400, 1500));
    assert_eq!((art.hunks[0].a_line, art.hunks[0].b_line), (Some(1), None));
    assert_eq!((art.hunks[1500].a_line, art.hunks[1500].b_line), (None, Some(1)));
}

fn doc(id: &str, kind: &str, text: &str) -> Document {
    Document { id: id.into(), kind: kind.into(), text: text.into() }
}

fn scores(g: &Gathered) -> Vec<u64> {
    g.hits
        .iter()
        .map(|h| {
            let breadth = h.distinct_terms as f64;
            let tail: f64 = h.term_hits.iter().map(|t| (t.count as f64).ln_1p()).sum();
            (breadth * breadth * 100.0 + tail).to_bits()
        })
        .collect()
}

fn ranked(concept: &[String], docs: &[Document], opts: &RankOptions) -> GameGrepArtifact {
    let g = gather(concept, docs, opts).unwrap();
    let s = scores(&g);
    rank(g, &s, opts)
}

#[test]
fn breadth_outranks_frequency() {
    let a = doc("a", "lua", &"combo ".repeat(50));
    let b = doc("b", "lua", "combo interact stratagem");
    let art = ranked(&["combo".into(), "interact".into(), "stratagem".into()], &[a, b], &RankOptions::default());
    assert_eq!(art.hits[0].id, "b", "breadth (3 distinct terms) must beat frequency (50 of one)");
    assert_eq!(art.hits[0].distinct_terms, 3);
}

#[test]
fn min_distinct_filters_single_word_noise() {
    let a = doc("noise", "text", "combo combo combo");
    let b = doc("signal", "lua", "combo interact");
    let opts = RankOptions { min_distinct: 2, ..RankOptions::default() };
    let art = ranked(&["combo".into(), "interact".into()], &[a, b], &opts);
    assert_eq!(art.documents_matched, 1);
    assert_eq!(art.hits[0].id, "signal");
}

#[test]
fn substring_matches_identifiers() {
    let d = doc("m", "lua", "function interact_progress() end");
    let art = ranked(&["interact".into()], &[d], &RankOptions::default());
    assert_eq!(art.hits[0].total_hits, 1);
    assert!(art.hits[0].snippets[0].contains("interact_progress"));
}

#[test]
fn no_match_reports_nothing() {
    let d = doc("x", "lua", "totally unrelated content");
    let art = ranked(&["combo".into()], &[d], &RankOptions::default());
    assert_eq!(art.documents_matched, 0);
    assert!(art.hits.is_empty());
}

#[test]
fn concept_is_normalized() {
    let d = doc("x", "lua", "Combo INTERACT");
    let art = ranked(&["COMBO".into(), " interact ".into(), "combo".into()], &[d], &RankOptions::default());
    assert_eq!(art.concept.len(), 2);
    assert_eq!(art.hits[0].distinct_terms, 2);
}

#[test]
fn hits_of_equal_breadth_go_by_score_and_then_by_name() {
    let docs = [doc("z", "t", "word"), doc("b", "t", "word word"), doc("a", "t", "word")];
    let art = ranked(&["WORD".into()], &docs, &RankOptions { limit: 2, ..RankOptions::default() });
    assert_eq!(art.documents_scanned, 3);
    assert_eq!(art.documents_matched, 3);
    let ids: Vec<_> = art.hits.iter().map(|h| h.id.as_str()).collect();
    assert_eq!(ids, vec!["b", "a"]);
    assert_eq!(art.hits[0].score, (100.0 + 2f64.ln_1p()).to_bits());
}

#[test]
fn words_are_listed_by_how_often_they_occur() {
    let d = doc("x", "t", "b b a c c");
    let art = ranked(&["a".into(), "b".into(), "c".into(), "".into()], &[d], &RankOptions::default());
    let words: Vec<_> = art.hits[0].term_hits.iter().map(|t| (t.term.as_str(), t.count)).collect();
    assert_eq!(words, vec![("b", 2), ("c", 2), ("a", 1)]);
    assert_eq!(art.hits[0].total_hits, 5);
    assert_eq!(art.hits[0].snippets, vec!["b b a c c"], "one line is shown once");
}

#[test]
fn a_vocabulary_is_sorted_and_without_repetition() {
    let v = vocabulary(&vec!["b".to_string(), "".to_string(), "a".to_string(), "b".to_string()]);
    assert_eq!(v, vec!["a", "b"]);
}

#[test]
fn occurrences_do_not_overlap() {
    assert_eq!(count_occurrences("aaaa", "aa"), 2);
    assert_eq!(count_occurrences("abc", ""), 0);
    assert_eq!(count_occurrences("", "a"), 0);
}

#[test]
fn a_long_line_is_cut_around_the_word() {
    let line = format!("{}needle{}", "x".repeat(200), "y".repeat(200));
    let s = snippet_around(&line, &line, "needle").unwrap().unwrap();
    assert_eq!(s, format!("\u{2026}{}needle{}\u{2026}", "x".repeat(80), "y".repeat(74)));
    let wide = format!("{}needle{}", "\u{e9}".repeat(101), "y".repeat(200));
    let s = snippet_around(&wide, &wide, "needle").unwrap().unwrap();
    assert!(s.starts_with("\u{2026}\u{e9}") && s.contains("needle"));
    assert_eq!(snippet_around("one\n  two  \nthree", "one\n  two  \nthree", "two"), Some(Some("two".to_string())));
    assert_eq!(snippet_around("abc", "abc", "x"), Some(None));
    let indented = format!("{}{}needle{}", " ".repeat(100), "x".repeat(90), "y".repeat(200));
    let s = snippet_around(&indented, &indented, "needle").unwrap().unwrap();
    assert_eq!(s, format!("\u{2026}{}needle{}\u{2026}", "x".repeat(80), "y".repeat(74)));
    let first = format!("{}needle{}", " ".repeat(300), "y".repeat(200));
    let s = snippet_around(&first, &first, "needle").unwrap().unwrap();
    assert_eq!(s, format!("\u{2026}needle{}\u{2026}", "y".repeat(154)));
}

#[test]
fn a_place_that_lower_case_moved_off_the_text_is_reported() {
    // The dotted capital takes two bytes, and three in lower case.
    let text = "\u{130}x";
    assert_eq!(snippet_around(text, &text.to_lowercase(), "x"), Some(Some(text.to_string())));
    let moved = "\u{130}\u{130}\u{130}x";
    assert_eq!(snippet_around(moved, &moved.to_lowercase(), "x"), None);
    assert!(gather(&["x".into()], &[doc("d", "t", moved)], &RankOptions::default()).is_none());
}

#[test]
fn large_texts_are_replaced_as_a_whole() {
    let art = diff(vec!["same"; 2_001], vec!["same"; 1_000]);
    assert_eq!((art.equal, art.deleted, art.inserted), (0, 2_001, 1_000));
    assert_eq!((art.hunks[0].op, art.hunks[0].a_line), (DiffOp::Delete, Some(1)));
    assert_eq!((art.hunks[2_001].op, art.hunks[2_001].b_line), (DiffOp::Insert, Some(1)));
    let art = diff(vec!["same"; 2_000], vec!["same"; 1_000]);
    assert_eq!(art.equal, 1_000);
}

#[test]
fn line_by_line_a_text_equals_itself_however_long() {
    let a: Vec<String> = (0..1500).map(|k| k.to_string()).collect();
    let same = lcs_diff(&a, &a);
    assert_eq!(same.len(), 1500);
    assert!(same.iter().all(|h| h.op == DiffOp::Equal && h.a_line == h.b_line));
    let mut b = a.clone();
    b.remove(700);
    let shorter = lcs_diff(&a, &b);
    assert_eq!(shorter.iter().filter(|h| h.op == DiffOp::Equal).count(), 1499);
    assert_eq!((shorter[700].op, shorter[700].a_line), (DiffOp::Delete, Some(701)));
}
