use filefinder::commands::search::{search, search_index};
use filefinder::index::builder::IndexBuilder;
use filefinder::index::store::{Index, IndexStore};
use filefinder::search::candidates::intersect_sorted_usize;
use filefinder::search::engine::{Hit, SearchEngine};
use filefinder::search::filters::{non_empty_bytes, type_filters};
use filefinder::search::scoring::{classify_match, MatchClass};
use filefinder::types::filter::FilterOptions;
use filefinder::types::result::SearchResult;
use std::sync::Arc;

fn score(name_len: usize, query_len: usize, match_pos: usize) -> u32 {
    let share = query_len as f32 / name_len as f32;
    let score: f32 = match classify_match(name_len, query_len, match_pos) {
        MatchClass::Whole => 100.0,
        MatchClass::Prefix => 90.0 + (10.0 * query_len as f32 / name_len as f32),
        MatchClass::Inner { penalty } => 60.0 - penalty as f32 + share * 20.0,
    };
    score.to_bits()
}

fn open_filters() -> FilterOptions {
    FilterOptions {
        file_types: Vec::new(),
        min_size: None,
        max_size: None,
        include_hidden: false,
        max_results: 100,
    }
}

fn with_types(types: &[&str]) -> FilterOptions {
    FilterOptions { file_types: types.iter().map(|t| t.to_string()).collect(), ..open_filters() }
}

fn sample() -> Arc<Index> {
    let mut builder = IndexBuilder::with_capacity(8);
    builder.add("Report.pdf", "C:\\Docs\\Report.pdf", false, false, 1000, 1_609_459_200);
    builder.add("my report.TXT", "C:\\my report.TXT", false, false, 10, 0);
    builder.add("Reports", "C:\\Reports", true, false, 0, 86_399);
    builder.add("secret report.txt", "C:\\secret report.txt", false, true, 20, 60);
    builder.add("image.png", "C:\\image.png", false, false, 5000, 0);
    builder.add("ОТЧЁТ.docx", "C:\\ОТЧЁТ.docx", false, false, 30, 0);
    builder.add("no", "C:\\no", false, false, 40, 0);
    Arc::new(builder.finalize())
}

fn names(results: &[SearchResult]) -> Vec<String> {
    results.iter().map(|r| r.name.clone()).collect()
}

fn sorted_names(index: &Arc<Index>, query: &str, filters: &FilterOptions) -> Vec<String> {
    let mut out = names(&SearchEngine::search(index, query, filters, score));
    out.sort();
    out
}

#[test]
fn matches_are_classified() {
    assert_eq!(classify_match(5, 5, 0), MatchClass::Whole);
    assert_eq!(classify_match(6, 5, 0), MatchClass::Prefix);
    assert_eq!(classify_match(6, 5, 1), MatchClass::Inner { penalty: 2 });
    assert_eq!(classify_match(40, 3, 14), MatchClass::Inner { penalty: 28 });
    assert_eq!(classify_match(40, 3, 15), MatchClass::Inner { penalty: 30 });
    assert_eq!(classify_match(400, 3, 300), MatchClass::Inner { penalty: 30 });
    assert_eq!(classify_match(0, 0, 0), MatchClass::Whole);
}

#[test]
fn search_finds_whatever_the_case() {
    let index = sample();
    assert_eq!(
        sorted_names(&index, "REPORT", &open_filters()),
        ["Report.pdf", "Reports", "my report.TXT"]
    );
    assert_eq!(sorted_names(&index, "отчёт", &open_filters()), ["ОТЧЁТ.docx"]);
    assert_eq!(sorted_names(&index, "nothing here", &open_filters()), Vec::<String>::new());
}

#[test]
fn best_matches_come_first() {
    let index = sample();
    let results = SearchEngine::search(&index, "report", &open_filters(), score);
    assert_eq!(names(&results), ["Reports", "Report.pdf", "my report.TXT"]);
    let scores: Vec<f32> = results.iter().map(|r| f32::from_bits(r.score.unwrap())).collect();
    assert_eq!(scores[0], 90.0 + 10.0 * 6.0 / 7.0);
    assert_eq!(scores[1], 96.0);
    assert_eq!(scores[2], 60.0 - 6.0 + 6.0 / 13.0 * 20.0);
}

#[test]
fn results_show_the_entries() {
    let index = sample();
    let results = SearchEngine::search(&index, "report.pdf", &open_filters(), score);
    assert_eq!(results.len(), 1);
    let r = &results[0];
    assert_eq!(r.name, "Report.pdf");
    assert_eq!(r.path, "C:\\Docs\\Report.pdf");
    assert_eq!(r.size, 1000);
    assert_eq!(r.modified, "2021-01-01 00:00");
    assert!(!r.is_dir);
    assert_eq!(r.score, Some(100.0f32.to_bits()));
    let dirs = SearchEngine::search(&index, "reports", &open_filters(), score);
    assert!(dirs[0].is_dir);
    assert_eq!(dirs[0].modified, "1970-01-01 23:59");
}

#[test]
fn short_queries_look_at_every_entry() {
    let index = sample();
    assert_eq!(sorted_names(&index, "no", &open_filters()), ["no"]);
    assert_eq!(
        sorted_names(&index, "p", &open_filters()),
        ["Report.pdf", "Reports", "image.png", "my report.TXT"]
    );
    assert_eq!(sorted_names(&index, "", &open_filters()).len(), 6);
}

#[test]
fn hidden_entries_are_found_on_demand() {
    let index = sample();
    let filters = FilterOptions { include_hidden: true, ..open_filters() };
    assert_eq!(
        sorted_names(&index, "report", &filters),
        ["Report.pdf", "Reports", "my report.TXT", "secret report.txt"]
    );
}

#[test]
fn size_limits_hold_for_files_only() {
    let index = sample();
    let filters = FilterOptions { min_size: Some(11), ..open_filters() };
    assert_eq!(sorted_names(&index, "report", &filters), ["Report.pdf", "Reports"]);
    let filters = FilterOptions { max_size: Some(999), ..open_filters() };
    assert_eq!(sorted_names(&index, "report", &filters), ["Reports", "my report.TXT"]);
    let filters = FilterOptions { min_size: Some(1000), max_size: Some(1000), ..open_filters() };
    assert_eq!(sorted_names(&index, "report", &filters), ["Report.pdf", "Reports"]);
}

#[test]
fn wanted_types_hold_for_files_only() {
    let index = sample();
    assert_eq!(
        sorted_names(&index, "report", &with_types(&[" .TXT "])),
        ["Reports", "my report.TXT"]
    );
    assert_eq!(
        sorted_names(&index, "report", &with_types(&["pdf", "..txt"])),
        ["Report.pdf", "Reports", "my report.TXT"]
    );
    assert_eq!(sorted_names(&index, "n", &with_types(&["png"])), ["image.png"]);
    assert_eq!(
        sorted_names(&index, "r", &with_types(&["docx", "zip"])),
        ["Reports"]
    );
    assert_eq!(sorted_names(&index, "report", &with_types(&["", " . "])).len(), 3);
}

#[test]
fn lowered_queries_are_searched_for_as_they_are() {
    let index = sample();
    let find = |query: &[u8], types: &[Vec<u8>]| {
        let filters = with_types(&["ignored"]);
        names(&SearchEngine::search_lowered(&index, query, types, &filters, score))
    };
    assert_eq!(find(b"report", &[]), ["Reports", "Report.pdf", "my report.TXT"]);
    assert_eq!(find(b"report", &[b"pdf".to_vec()]), ["Reports", "Report.pdf"]);
    assert_eq!(find(b"Report", &[]), Vec::<String>::new());
    assert_eq!(find(b"report", &[b"PDF".to_vec()]), ["Reports"]);
}

#[test]
fn number_of_results_is_limited() {
    let index = sample();
    let filters = FilterOptions { max_results: 2, ..open_filters() };
    assert_eq!(
        names(&SearchEngine::search(&index, "report", &filters, score)),
        ["Reports", "Report.pdf"]
    );
    let none = FilterOptions { max_results: 0, ..open_filters() };
    assert!(SearchEngine::search(&index, "report", &none, score).is_empty());
}

#[test]
fn too_long_type_finds_directories_only() {
    let mut builder = IndexBuilder::with_capacity(0);
    builder.add("a.abcdefghijklm", "p", false, false, 0, 0);
    builder.add("a dir", "q", true, false, 0, 0);
    let index = Arc::new(builder.finalize());
    assert_eq!(sorted_names(&index, "a", &with_types(&["abcdefghijklm"])), ["a dir"]);
}

#[test]
fn search_finds_what_a_full_scan_finds() {
    let words = ["alpha", "beta.txt", "gamma.TXT", "Alphabet.md", "beta", "betamax.Md", "delta"];
    let mut builder = IndexBuilder::with_capacity(0);
    let mut all: Vec<String> = Vec::new();
    for i in 0..500usize {
        let name = format!("{}{}", i % 13, words[i % words.len()]);
        builder.add(&name, &format!("C:\\{}", name), i % 5 == 0, false, i as u64, 0);
        all.push(name);
    }
    let index = Arc::new(builder.finalize());
    for query in ["a", "alp", "ALPHA", "beta", "1b", "max", "ta.t", "zzz", "7gamma.txt"] {
        let filters = FilterOptions { max_results: 10_000, ..open_filters() };
        let mut expected: Vec<String> = all
            .iter()
            .filter(|n| n.to_lowercase().contains(&query.to_lowercase()))
            .cloned()
            .collect();
        expected.sort();
        assert_eq!(sorted_names(&index, query, &filters), expected);
        let typed = FilterOptions { max_results: 10_000, ..with_types(&["md", "txt"]) };
        let mut expected: Vec<String> = all
            .iter()
            .enumerate()
            .filter(|(i, n)| {
                let lower = n.to_lowercase();
                lower.contains(&query.to_lowercase())
                    && (i % 5 == 0 || lower.ends_with(".md") || lower.ends_with(".txt"))
            })
            .map(|(_, n)| n.clone())
            .collect();
        expected.sort();
        assert_eq!(sorted_names(&index, query, &typed), expected);
    }
}

#[test]
fn matches_come_in_the_order_of_the_entries() {
    let mut builder = IndexBuilder::with_capacity(0);
    for i in 0..2000 {
        builder.add(&format!("file{}", i), "p", false, false, 0, 0);
    }
    let index = builder.finalize();
    let hits = SearchEngine::find_matches(&index, b"e1", &open_filters(), &[]);
    let expected: Vec<usize> = (0..2000).filter(|i| i.to_string().starts_with('1')).collect();
    assert_eq!(hits.iter().map(|h| h.id).collect::<Vec<_>>(), expected);
    assert!(hits.iter().all(|h| h.match_pos == 3));
    assert_eq!(hits[0], Hit { id: 1, name_len: 5, match_pos: 3 });
}

#[test]
fn first_occurrence_counts() {
    let mut builder = IndexBuilder::with_capacity(0);
    builder.add("xxabab", "p", false, false, 0, 0);
    let index = builder.finalize();
    let hits = SearchEngine::find_matches(&index, b"ab", &open_filters(), &[]);
    assert_eq!(hits, [Hit { id: 0, name_len: 6, match_pos: 2 }]);
    let everything = SearchEngine::find_matches(&index, b"", &open_filters(), &[]);
    assert_eq!(everything, [Hit { id: 0, name_len: 6, match_pos: 0 }]);
}

#[test]
fn candidates_are_narrowed() {
    let index = sample();
    assert_eq!(SearchEngine::collect_candidates(&index, b"re", &[]), [0, 1, 2, 3, 4, 5, 6]);
    assert_eq!(SearchEngine::collect_candidates(&index, b"rep", &[]), [0, 1, 2, 3]);
    let txt = [b"txt".to_vec()];
    assert_eq!(SearchEngine::collect_candidates(&index, b"re", &txt), [1, 2, 3]);
    assert_eq!(SearchEngine::collect_candidates(&index, b"report", &txt), [1, 2, 3]);
    let both = [b"png".to_vec(), b"txt".to_vec(), b"png".to_vec()];
    assert_eq!(SearchEngine::collect_candidates(&index, b"", &both), [1, 2, 3, 4]);
    assert_eq!(SearchEngine::collect_candidates(&index, b"image", &both), [4]);
}

#[test]
fn intersect_sorted_usize_keeps_common_positions() {
    assert_eq!(intersect_sorted_usize(&[0, 2, 4, 6], &[1, 2, 3, 6]), [2, 6]);
    assert!(intersect_sorted_usize(&[], &[]).is_empty());
}

#[test]
fn types_are_cleaned() {
    let types: Vec<String> =
        [" .PDF", "txt", "...", "", "tar.gz", "ДОК"].iter().map(|t| t.to_string()).collect();
    assert_eq!(
        type_filters(&types),
        [b"pdf".to_vec(), b"txt".to_vec(), b"tar.gz".to_vec(), "док".as_bytes().to_vec()]
    );
    assert_eq!(
        non_empty_bytes(&vec!["a".to_string(), String::new(), "b c".to_string()]),
        [b"a".to_vec(), b"b c".to_vec()]
    );
}

#[test]
fn top_k_keeps_the_largest() {
    let scored: Vec<(usize, u32)> = vec![(0, 5), (1, 9), (2, 1), (3, 7), (4, 3)];
    assert_eq!(SearchEngine::top_k(scored.clone(), 3), [(1, 9), (3, 7), (0, 5)]);
    assert_eq!(
        SearchEngine::top_k(scored.clone(), 5),
        [(1, 9), (3, 7), (0, 5), (4, 3), (2, 1)]
    );
    assert_eq!(SearchEngine::top_k(scored.clone(), 99).len(), 5);
    assert!(SearchEngine::top_k(scored, 0).is_empty());
    assert!(SearchEngine::top_k(Vec::new(), 4).is_empty());
}

#[test]
fn ties_stand_in_the_order_of_the_entries() {
    let scored: Vec<(usize, u32)> = vec![(5, 7), (3, 9), (1, 7), (4, 7), (2, 9)];
    assert_eq!(SearchEngine::top_k(scored.clone(), 3), [(2, 9), (3, 9), (1, 7)]);
    assert_eq!(SearchEngine::top_k(scored, 9), [(2, 9), (3, 9), (1, 7), (4, 7), (5, 7)]);
}

fn shown(results: &[SearchResult]) -> Vec<(String, String, u64, String, bool, Option<u32>)> {
    results
        .iter()
        .map(|r| {
            let r = r.clone();
            (r.name, r.path, r.size, r.modified, r.is_dir, r.score)
        })
        .collect()
}

fn many_ties() -> Arc<Index> {
    let mut builder = IndexBuilder::with_capacity(0);
    for i in 0..3000usize {
        let name = format!("tie{:04}.{}", i, ["txt", "PDF", "md"][i % 3]);
        builder.add(&name, &format!("C:\\{}", name), i % 7 == 0, false, i as u64, 60);
    }
    Arc::new(builder.finalize())
}

#[test]
fn equal_searches_agree() {
    let index = many_ties();
    let filters = FilterOptions { max_results: 500, ..open_filters() };
    let first = shown(&SearchEngine::search(&index, "tie", &filters, score));
    assert_eq!(first.len(), 500);
    for _ in 0..5 {
        assert_eq!(shown(&SearchEngine::search(&index, "tie", &filters, score)), first);
    }
}

#[test]
fn case_of_the_query_is_ignored() {
    let index = many_ties();
    let filters = FilterOptions { max_results: 40, ..open_filters() };
    for query in ["Tie1", "tIE00", ".pDf", "e"] {
        assert_eq!(
            shown(&SearchEngine::search(&index, &query.to_ascii_uppercase(), &filters, score)),
            shown(&SearchEngine::search(&index, &query.to_ascii_lowercase(), &filters, score))
        );
    }
}

#[test]
fn spelling_of_types_is_ignored() {
    let index = many_ties();
    let find = |types: &[&str]| {
        shown(&SearchEngine::search(&index, "tie0", &with_types(types), score))
    };
    for e in ["pdf", "txt", "Md", "none"] {
        let dirty = format!(" .{} ", e.to_ascii_uppercase());
        assert_eq!(find(&[&dirty, "", ".", "  "]), find(&[e]));
    }
    assert_eq!(find(&["", " ... ", "\t", "."]), find(&[]));
}

#[test]
fn as_many_matches_as_asked_for_are_all_shown() {
    let index = sample();
    let filters = FilterOptions { max_results: 3, ..open_filters() };
    assert_eq!(SearchEngine::search(&index, "report", &filters, score).len(), 3);
}

#[test]
fn top_k_of_many() {
    let scored: Vec<(usize, u32)> =
        (0..5000usize).map(|i| (i, (i as u32).wrapping_mul(2654435761) >> 8)).collect();
    let mut expected = scored.clone();
    expected.sort_by(|a, b| b.1.cmp(&a.1));
    let top = SearchEngine::top_k(scored, 50);
    let keys: Vec<u32> = top.iter().map(|t| t.1).collect();
    assert_eq!(keys, expected[..50].iter().map(|t| t.1).collect::<Vec<_>>());
}

#[test]
fn times_are_written_to_the_minute() {
    assert_eq!(SearchEngine::format_time(0), Some("1970-01-01 00:00".to_string()));
    assert_eq!(SearchEngine::format_time(1_709_210_096), Some("2024-02-29 12:34".to_string()));
    assert_eq!(SearchEngine::format_time(253_402_300_799), Some("9999-12-31 23:59".to_string()));
    assert_eq!(SearchEngine::format_time(253_402_300_800), None);
    assert_eq!(SearchEngine::format_time(u64::MAX), None);
}

#[test]
fn unknown_times_stay_empty() {
    let index = sample();
    let r = SearchEngine::result_for(&index, 4, 7, Some("ignored".to_string()));
    assert_eq!(r.modified, "");
    assert_eq!((r.name.as_str(), r.score), ("image.png", Some(7)));
    let r = SearchEngine::result_for(&index, 0, 7, Some("then".to_string()));
    assert_eq!(r.modified, "then");
    let r = SearchEngine::result_for(&index, 0, 7, None);
    assert_eq!(r.modified, "");
}

#[test]
fn blank_queries_bring_nothing() {
    let index = sample();
    assert!(search_index(Some(index.clone()), " \t ", &open_filters(), score).is_empty());
    assert!(search_index(None, "report", &open_filters(), score).is_empty());
    assert_eq!(search_index(Some(index), "  report ", &open_filters(), score).len(), 3);
}

#[test]
fn names_that_are_no_text_are_found() {
    let mut builder = IndexBuilder::with_capacity(0);
    builder.add_lowered(b"Bad\xed\xb0\x80", b"bad\xed\xb0\x80", b"C:\\Bad\xff", false, false, 1, 0);
    let index = Arc::new(builder.finalize());
    let results = SearchEngine::search(&index, "BAD", &open_filters(), score);
    assert_eq!(results.len(), 1);
    assert_eq!(results[0].name, "Bad\u{fffd}\u{fffd}\u{fffd}");
    assert_eq!(results[0].path, "C:\\Bad\u{fffd}");
}

#[test]
fn nothing_is_looked_for_in_an_unsound_index() {
    let store = IndexStore::new();
    let mut index = Arc::into_inner(sample()).unwrap();
    index.entries.pop();
    index.entries.pop();
    store.store(index);
    assert!(search(&store, "report", &open_filters(), score).is_empty());
}

#[test]
fn the_current_index_is_searched() {
    let store = IndexStore::new();
    assert!(search(&store, "report", &open_filters(), score).is_empty());
    store.store(Arc::into_inner(sample()).unwrap());
    assert_eq!(search(&store, " report ", &open_filters(), score).len(), 3);
    assert!(search(&store, "  ", &open_filters(), score).is_empty());
}
