//! Direct and sentence search.
use chibipop::config::Config;
use chibipop::dict::pitch::PitchClaim;
use chibipop::lookup::deconj::Deconjugator;
use chibipop::lookup::engine::LookupEngine;
use chibipop::lookup::model::{Dictionary, Entry, FakeDictionary, StoreError, TermRow};
use chibipop::lookup::rules::{Rule, StrOrList};
use chibipop::present::{DictInfo, PresentConfig};
use chibipop::search::{
    candidates, result_text, search, selected_presentation, sentence_token_at, sentence_tokens,
    ByteRange, SearchResult, SentenceAnalyzer,
};

fn ranges(list: &[(usize, usize)]) -> Vec<ByteRange> {
    list.iter().map(|(start, end)| ByteRange { start: *start, end: *end }).collect()
}

fn score(match_len: usize, freq: Option<i64>, kana: bool, steps: usize) -> i64 {
    match_len as i64 * 1_000_000 - freq.unwrap_or(60_000) + if kana { 3 } else { 0 } - steps as i64
}

#[test]
fn sentence_tokens_preserve_text_and_select_full_words_at_byte_offsets() {
    let text = "猫は食べました。\n 鳥";
    let words = ranges(&[(0, 3), (3, 6), (6, 21), (21, 24), (26, 29)]);
    let tokens = sentence_tokens(text, &words);
    assert_eq!(tokens.iter().map(|token| token.text.as_str()).collect::<String>(), text);
    let selected = sentence_token_at(&tokens, 12).unwrap();
    assert_eq!(selected.text, "食べました");
    assert_eq!(selected.range, ByteRange { start: 6, end: 21 });
    assert!(sentence_token_at(&tokens, 21).is_none());
    assert!(sentence_token_at(&tokens, 24).is_none());
    assert!(sentence_token_at(&tokens, text.len()).is_none());
}

#[test]
fn sentence_analysis_groups_real_japanese_inflections() {
    let mut analyzer = SentenceAnalyzer::new();
    let text = "猫は食べました。";
    assert!(analyzer.wants_model(text));
    analyzer.model_loaded(true);
    let tokens = analyzer.tokenize(text, &ranges(&[(0, 3), (3, 6), (6, 21), (21, 24)]));
    assert!(!analyzer.fallback_active());
    assert_eq!(sentence_token_at(&tokens, text.find("べ").unwrap()).unwrap().text, "食べました");
    assert_eq!(tokens.iter().map(|token| token.text.as_str()).collect::<String>(), text);
}

#[test]
fn missing_sentence_model_falls_back_without_losing_unicode_or_spacing() {
    let mut analyzer = SentenceAnalyzer::new();
    let text = "𠮷野家で 食べる。\n";
    assert!(!analyzer.wants_model("  "), "a blank text asks for nothing");
    assert!(analyzer.wants_model(text));
    assert!(!analyzer.wants_model(text), "the model is asked for once");
    analyzer.model_loaded(false);
    let words = ranges(&[(0, 10), (10, 13), (14, 23), (23, 26)]);
    let tokens = analyzer.tokenize(text, &words);
    assert!(analyzer.fallback_active());
    assert_eq!(tokens.iter().map(|token| token.text.as_str()).collect::<String>(), text);
    assert!(sentence_token_at(&tokens, 0).is_some());
    assert!(sentence_token_at(&tokens, text.len() - 1).is_none());
}

#[test]
fn japanese_repeated_empty_miss_and_dictionary_filter() {
    let mut dictionary = FakeDictionary::new();
    for id in 1..=14 {
        dictionary.add_term("猫", Some("猫"), Some("ねこ"), "", Some(id), id, id);
        dictionary.add_entry(id, id, "[\"a complete definition\",\"another sense\"]");
    }
    let dicts = vec![DictInfo { dict_id: 14, name: "Enabled".into() }];
    let config = PresentConfig { terms: vec!["Enabled".into()], pitch: vec![], summary_chars: 1 };
    let engine = LookupEngine::new(Deconjugator::new(vec![]));
    let run = |query| search(&dictionary, &engine, &dicts, &config, query, score).unwrap();
    assert_eq!(run("　 "), SearchResult::Empty);
    assert_eq!(run("犬"), SearchResult::Miss);
    let first = run(" 猫 ");
    assert!(matches!(first, SearchResult::Found(_)));
    let text = result_text(&first);
    assert!(text.contains("ねこ"));
    assert!(text.contains("a complete definition\nanother sense"));
    assert_eq!(run("猫"), first);
    let disabled = PresentConfig { terms: vec![], ..config };
    assert_eq!(search(&dictionary, &engine, &dicts, &disabled, "猫", score).unwrap(), SearchResult::Miss);
}

/// A store whose rows cannot be read any more.
struct Broken(FakeDictionary);

impl Dictionary for Broken {
    fn terms_for(&self, _surface: &str) -> Result<Vec<TermRow>, StoreError> {
        Err(StoreError { message: "no such table: term".to_string() })
    }

    fn entries(&self, ids: &Vec<i64>) -> Result<Vec<Entry>, StoreError> {
        self.0.entries(ids)
    }

    fn dicts(&self) -> Result<Vec<DictInfo>, StoreError> {
        self.0.dicts()
    }

    fn pitch_for(&self, term: &str, reading: &str) -> Vec<PitchClaim> {
        self.0.pitch_for(term, reading)
    }
}

#[test]
fn sqlite_fixture_supports_inflections_reload_and_disabled_dictionaries() {
    let mut dictionary = FakeDictionary::new();
    dictionary.add_dict(1, "FixtureTerms");
    dictionary.add_term("食べる", Some("食べる"), Some("たべる"), "v1", Some(10), 1, 1);
    dictionary.add_entry(1, 1, "[\"to eat\"]");
    dictionary.add_term("猫", Some("猫"), Some("ねこ"), "", Some(20), 2, 1);
    dictionary.add_entry(2, 1, "[\"cat (kanji)\"]");
    let dicts = dictionary.dicts().unwrap();
    let engine = LookupEngine::new(Deconjugator::new(vec![Rule {
        rule_type: "stdrule".to_string(),
        dec_end: StrOrList::One("る".to_string()),
        con_end: StrOrList::One("ました".to_string()),
        dec_tag: Some(StrOrList::One("v1".to_string())),
        con_tag: None,
        detail: "polite past".to_string(),
    }]));
    let mut config = Config::default();
    let find = |config: &Config, query: &str| {
        search(&dictionary, &engine, &dicts, &config.present_config(&dicts), query, score).unwrap()
    };
    assert_eq!(find(&config, "　"), SearchResult::Empty);
    assert_eq!(find(&config, "絶対にない検索"), SearchResult::Miss);
    let first = find(&config, "食べました");
    let choices = candidates(&first);
    assert!(!choices.is_empty());
    let index = choices.iter().find(|candidate| candidate.headword == "食べる").unwrap().index;
    let selected = selected_presentation(&first, index).unwrap();
    assert_eq!(selected.top.as_ref().unwrap().written.as_deref(), Some("食べる"));
    assert_eq!(selected.all_cards.len(), 1);
    assert!(selected.collapsed.is_empty());
    assert!(selected_presentation(&first, usize::MAX).is_none());
    let text = result_text(&first);
    assert!(text.contains("食べる"), "{text}");
    assert!(text.contains("to eat"), "{text}");
    assert!(result_text(&find(&config, "猫")).contains("cat (kanji)"));
    assert_eq!(find(&config, "食べました"), first);
    config.dictionaries.terms_disabled = vec!["FixtureTerms".into()];
    assert_eq!(find(&config, "猫"), SearchResult::Miss);
    config.dictionaries.terms_disabled.clear();
    assert!(matches!(find(&config, "猫"), SearchResult::Found(_)));
    let broken = Broken(FakeDictionary::new());
    let cfg = config.present_config(&dicts);
    let failed = search(&broken, &engine, &dicts, &cfg, "猫", score).unwrap_err();
    assert_eq!(failed.message, "no such table: term");
}

#[test]
fn overlapping_and_broken_words_lose_no_text() {
    let text = "猫がnya";
    let words = ranges(&[(0, 6), (3, 9), (1, 4), (7, 7), (9, 6), (7, 100), (6, 9)]);
    let tokens = sentence_tokens(text, &words);
    assert_eq!(tokens.iter().map(|t| t.text.as_str()).collect::<String>(), text);
    let all: Vec<(usize, usize)> = tokens.iter().map(|t| (t.range.start, t.range.end)).collect();
    assert_eq!(all.first().map(|r| r.0), Some(0));
    assert_eq!(all.last().map(|r| r.1), Some(text.len()));
    assert!(all.windows(2).all(|w| w[0].1 == w[1].0), "{all:?}");
    assert!(sentence_tokens("", &words).is_empty());
}

#[test]
fn a_result_reads_as_text_in_every_case() {
    assert_eq!(candidates(&SearchResult::Empty), Vec::new());
    assert_eq!(candidates(&SearchResult::Miss), Vec::new());
    assert!(selected_presentation(&SearchResult::Miss, 0).is_none());
    assert_ne!(result_text(&SearchResult::Empty), result_text(&SearchResult::Miss));
}
