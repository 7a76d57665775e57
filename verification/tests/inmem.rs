use rig_memory_policy::inmem::{query_term_count, rank_summaries, Episode, InMemoryStore};
use rig_memory_policy::PolicyError;

#[derive(Debug, Clone)]
struct TestEpisode(&'static str);

impl Episode for TestEpisode {
    fn view_summary(&self) -> vstd::seq::Seq<char> {
        unreachable!()
    }

    fn summary(&self) -> &str {
        self.0
    }
}

#[test]
fn append_assigns_unique_ordered_keys() {
    let mut store = InMemoryStore::<TestEpisode>::new();
    let key_one = store.append(TestEpisode("a")).unwrap();
    let key_two = store.append(TestEpisode("b")).unwrap();
    assert!(key_one < key_two);
}

#[test]
fn retrieve_returns_top_k_by_score() {
    let mut store = InMemoryStore::<TestEpisode>::new();
    store.append(TestEpisode("powershell maintenance scheduled task")).unwrap();
    store.append(TestEpisode("ddos amplification spike")).unwrap();
    let hits = store.retrieve_similar("powershell scheduled", 5).unwrap();
    assert_eq!(hits.len(), 1);
    assert!(hits.first().unwrap().episode.0.contains("powershell"));
}

#[test]
fn retrieve_skips_zero_score_hits() {
    let mut store = InMemoryStore::<TestEpisode>::new();
    store.append(TestEpisode("alpha bravo")).unwrap();
    let hits = store.retrieve_similar("zulu", 5).unwrap();
    assert!(hits.is_empty());
}

#[test]
fn retrieve_matches_case_insensitively() {
    let mut store = InMemoryStore::<TestEpisode>::new();
    store.append(TestEpisode("PowerShell scheduled task")).unwrap();
    let hits = store.retrieve_similar("powershell", 5).unwrap();
    assert_eq!(hits.len(), 1);
}

#[test]
fn retrieve_trims_simple_punctuation() {
    let mut store = InMemoryStore::<TestEpisode>::new();
    store.append(TestEpisode("powershell, scheduled-task beacon")).unwrap();
    let hits = store.retrieve_similar("powershell scheduled-task", 5).unwrap();
    assert_eq!(hits.len(), 1);
}

#[test]
fn retrieve_handles_unicode_case_folding() {
    let mut store = InMemoryStore::<TestEpisode>::new();
    store.append(TestEpisode("ПОЛЬЗОВАТЕЛЬ logged in")).unwrap();
    let hits = store.retrieve_similar("пользователь", 5).unwrap();
    assert_eq!(hits.len(), 1);
}

#[test]
fn retrieve_trims_unicode_punctuation() {
    let mut store = InMemoryStore::<TestEpisode>::new();
    store.append(TestEpisode("「scheduled-task」 beacon")).unwrap();
    let hits = store.retrieve_similar("scheduled-task", 5).unwrap();
    assert_eq!(hits.len(), 1);
}

#[test]
fn get_returns_not_found_for_unknown_key() {
    let store = InMemoryStore::<TestEpisode>::new();
    let err = store.get("nope").unwrap_err();
    assert!(matches!(err, PolicyError::NotFound(_)));
}

#[test]
fn len_and_is_empty_track_inserts() {
    let mut store = InMemoryStore::<TestEpisode>::new();
    assert!(store.is_empty().unwrap());
    store.append(TestEpisode("x")).unwrap();
    assert_eq!(store.len().unwrap(), 1);
    assert!(!store.is_empty().unwrap());
}

#[test]
fn k_zero_returns_empty() {
    let mut store = InMemoryStore::<TestEpisode>::new();
    store.append(TestEpisode("alpha")).unwrap();
    assert!(store.retrieve_similar("alpha", 0).unwrap().is_empty());
}

#[test]
fn keys_follow_the_counter_template() {
    let mut store = InMemoryStore::<TestEpisode>::new();
    assert_eq!(store.append(TestEpisode("a")).unwrap(), "ep-0000000000000001");
    for _ in 0..16 {
        store.append(TestEpisode("b")).unwrap();
    }
    let key = store.append(TestEpisode("c")).unwrap();
    assert_eq!(key, "ep-0000000000000012");
    assert_eq!(store.get(&key).unwrap().0, "c");
    assert_eq!(store.get("ep-0000000000000001").unwrap().0, "a");
    assert_eq!(store.len().unwrap(), 18);
}

#[test]
fn hits_rank_by_shared_terms_then_insertion_order() {
    let mut store = InMemoryStore::<TestEpisode>::new();
    let k1 = store.append(TestEpisode("alpha")).unwrap();
    let k2 = store.append(TestEpisode("alpha beta gamma")).unwrap();
    let k3 = store.append(TestEpisode("beta alpha")).unwrap();
    store.append(TestEpisode("delta")).unwrap();
    let hits = store.retrieve_similar("Alpha beta GAMMA alpha", 3).unwrap();
    let keys: Vec<_> = hits.iter().map(|h| h.key.clone()).collect();
    assert_eq!(keys, vec![k2, k3, k1]);
    let matched: Vec<_> = hits.iter().map(|h| h.matched).collect();
    assert_eq!(matched, vec![3, 2, 1]);
    assert!(hits.iter().all(|h| h.query_terms == 3));
    let top = store.retrieve_similar("alpha", 2).unwrap();
    assert_eq!(top.len(), 2);
    assert_eq!(top[0].episode.0, "alpha");
    assert_eq!(top[1].episode.0, "alpha beta gamma");
}

#[test]
fn rank_summaries_counts_distinct_normalized_terms() {
    let summaries = vec!["x, y! x", "Y", "", "z"];
    assert_eq!(rank_summaries("x y y", &summaries, 10), vec![(0, 2), (1, 1)]);
    assert_eq!(rank_summaries("x y", &summaries, 1), vec![(0, 2)]);
    assert!(rank_summaries("", &summaries, 10).is_empty());
    assert!(rank_summaries("--- !!", &summaries, 10).is_empty());
}

#[test]
fn query_term_count_ignores_duplicates_case_and_punctuation() {
    assert_eq!(query_term_count("A a, b!! --"), 2);
    assert_eq!(query_term_count("   "), 0);
    assert_eq!(query_term_count("Straße STRASSE"), 2);
}

#[test]
fn default_store_is_empty_and_appends_from_one() {
    let mut store = InMemoryStore::<TestEpisode>::default();
    assert!(store.is_empty().unwrap());
    assert_eq!(store.append(TestEpisode("x")).unwrap(), "ep-0000000000000001");
}
