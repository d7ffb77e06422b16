use rag_pdf::chunker::{chunk_text, chunk_words, join_range, validate_config, Chunk, ConfigError};
use rag_pdf::context::{assemble_context, build_context};
use rag_pdf::conversation::{retry_delay, Action, Conversation, Event, Phase, Role};
use rag_pdf::index::{IndexError, VectorIndex};

fn texts(chunks: &[Chunk]) -> Vec<String> {
    chunks.iter().map(|c| c.text.clone()).collect()
}

fn cosine(a: &[f64], b: &[f64]) -> f64 {
    let dot: f64 = a.iter().zip(b).map(|(x, y)| x * y).sum();
    let na: f64 = a.iter().map(|x| x * x).sum::<f64>().sqrt();
    let nb: f64 = b.iter().map(|x| x * x).sum::<f64>().sqrt();
    dot / (na * nb)
}

fn key(score: f64) -> u64 {
    ((score + 1.0) * 1e12) as u64
}

fn scores_for(index: &VectorIndex<f64>, q: &[f64]) -> Vec<u64> {
    (0..index.len()).map(|p| key(cosine(index.vector(p), q))).collect()
}

fn plain_chunks(n: usize) -> Vec<Chunk> {
    (0..n)
        .map(|i| Chunk { index: i, text: format!("t{}", i), source_offset: i, word_count: 1 })
        .collect()
}

#[test]
fn chunk_eight_words_size_three_overlap_one() {
    let cs = chunk_text("a b c d e f g h", 3, 1).unwrap();
    assert_eq!(texts(&cs), vec!["a b c", "c d e", "e f g", "g h"]);
    let idx: Vec<usize> = cs.iter().map(|c| c.index).collect();
    assert_eq!(idx, vec![0, 1, 2, 3]);
    let offs: Vec<usize> = cs.iter().map(|c| c.source_offset).collect();
    assert_eq!(offs, vec![0, 2, 4, 6]);
    let counts: Vec<usize> = cs.iter().map(|c| c.word_count).collect();
    assert_eq!(counts, vec![3, 3, 3, 2]);
}

#[test]
fn chunk_rejects_zero_size() {
    assert_eq!(chunk_text("a b c", 0, 0).unwrap_err(), ConfigError::ZeroSize);
    assert_eq!(validate_config(0, 0), Err(ConfigError::ZeroSize));
}

#[test]
fn chunk_rejects_overlap_not_below_size() {
    assert_eq!(chunk_text("a b c", 3, 3).unwrap_err(), ConfigError::OverlapNotBelowSize);
    assert_eq!(chunk_text("a b c", 2, 5).unwrap_err(), ConfigError::OverlapNotBelowSize);
    assert_eq!(validate_config(4, 1), Ok(()));
}

#[test]
fn chunk_empty_and_blank_text_give_no_chunks() {
    assert!(chunk_text("", 3, 1).unwrap().is_empty());
    assert!(chunk_text("  \n\t ", 3, 1).unwrap().is_empty());
}

#[test]
fn chunk_splits_on_any_whitespace() {
    let cs = chunk_text("  alpha\tbeta\n\ngamma  delta ", 10, 2).unwrap();
    assert_eq!(texts(&cs), vec!["alpha beta gamma delta"]);
    assert_eq!(cs[0].word_count, 4);
}

#[test]
fn chunk_count_matches_step_formula() {
    let words: Vec<String> = (0..10).map(|i| format!("w{}", i)).collect();
    let cs = chunk_words(&words, 4, 1).unwrap();
    // ceil((10 - 1) / (4 - 1)) = 3
    assert_eq!(cs.len(), 3);
    assert_eq!(texts(&cs), vec!["w0 w1 w2 w3", "w3 w4 w5 w6", "w6 w7 w8 w9"]);
    let cs = chunk_words(&words, 5, 0).unwrap();
    assert_eq!(cs.len(), 2);
    let cs = chunk_words(&words, 3, 2).unwrap();
    // ceil((10 - 2) / 1) = 8
    assert_eq!(cs.len(), 8);
}

#[test]
fn chunk_fewer_words_than_overlap_gives_one_chunk() {
    let cs = chunk_text("x", 5, 3).unwrap();
    assert_eq!(texts(&cs), vec!["x"]);
}

#[test]
fn chunks_cover_words_after_removing_overlap() {
    let text = "one two three four five six seven eight nine ten eleven";
    let words: Vec<&str> = text.split_whitespace().collect();
    for (size, overlap) in [(3usize, 1usize), (4, 2), (5, 0), (2, 1), (20, 4)] {
        let cs = chunk_text(text, size, overlap).unwrap();
        let mut rebuilt: Vec<String> = Vec::new();
        for (i, c) in cs.iter().enumerate() {
            let ws: Vec<&str> = c.text.split(' ').collect();
            let skip = if i == 0 { 0 } else { overlap };
            rebuilt.extend(ws[skip..].iter().map(|w| w.to_string()));
        }
        assert_eq!(rebuilt, words, "size {} overlap {}", size, overlap);
    }
}

#[test]
fn join_range_joins_with_single_spaces() {
    let words: Vec<String> = vec!["a".into(), "b".into(), "c".into()];
    assert_eq!(join_range(&words, 0, 3), "a b c");
    assert_eq!(join_range(&words, 1, 2), "b");
    assert_eq!(join_range(&words, 2, 2), "");
}

#[test]
fn index_build_rejects_count_mismatch() {
    let r = VectorIndex::build(plain_chunks(2), vec![vec![1.0, 0.0]]);
    assert_eq!(r.err(), Some(IndexError::CountMismatch));
}

#[test]
fn index_build_rejects_dimension_mismatch() {
    let r = VectorIndex::build(
        plain_chunks(3),
        vec![vec![1.0, 0.0], vec![0.0, 1.0], vec![1.0, 0.0, 0.0]],
    );
    assert_eq!(
        r.err(),
        Some(IndexError::DimensionMismatch { position: 2, expected: 2, found: 3 })
    );
}

#[test]
fn index_build_keeps_one_embedding_per_chunk() {
    let chunks = chunk_text("a b c d e f g h", 3, 1).unwrap();
    let vectors: Vec<Vec<f64>> = (0..chunks.len()).map(|i| vec![i as f64, 1.0]).collect();
    let index = VectorIndex::build(chunks.clone(), vectors).unwrap();
    assert_eq!(index.len(), chunks.len());
    assert_eq!(index.dimension(), 2);
    for i in 0..chunks.len() {
        assert_eq!(index.chunk(i).index, chunks[i].index);
        assert_eq!(index.vector(i), &vec![i as f64, 1.0]);
    }
}

fn abc_index() -> VectorIndex<f64> {
    let chunks = vec![
        Chunk { index: 0, text: "A".into(), source_offset: 0, word_count: 1 },
        Chunk { index: 1, text: "B".into(), source_offset: 1, word_count: 1 },
        Chunk { index: 2, text: "C".into(), source_offset: 2, word_count: 1 },
    ];
    VectorIndex::build(chunks, vec![vec![1.0, 0.0], vec![0.0, 1.0], vec![0.9, 0.1]]).unwrap()
}

#[test]
fn query_ranks_by_cosine_similarity() {
    let index = abc_index();
    let scores = scores_for(&index, &[1.0, 0.0]);
    let hits = index.query(&scores, 2);
    assert_eq!(hits, vec![0, 2]);
    let s_a = cosine(index.vector(0), &[1.0, 0.0]);
    let s_c = cosine(index.vector(2), &[1.0, 0.0]);
    assert!((s_a - 1.0).abs() < 1e-9);
    assert!((s_c - 0.994).abs() < 1e-3);
}

#[test]
fn query_breaks_ties_by_chunk_index() {
    let index = VectorIndex::build(plain_chunks(4), vec![vec![0u8]; 4]).unwrap();
    let hits = index.query(&vec![5, 7, 7, 5], 4);
    assert_eq!(hits, vec![1, 2, 0, 3]);
}

#[test]
fn query_with_large_k_returns_all_ranked() {
    let index = abc_index();
    let hits = index.query(&scores_for(&index, &[0.0, 1.0]), 10);
    assert_eq!(hits, vec![1, 2, 0]);
}

#[test]
fn query_is_deterministic() {
    let a = abc_index();
    let b = abc_index();
    let q = [0.5, 0.5];
    let r1 = a.query(&scores_for(&a, &q), 3);
    let r2 = b.query(&scores_for(&b, &q), 3);
    assert_eq!(r1, r2);
    let ties = VectorIndex::build(plain_chunks(3), vec![vec![0u8]; 3]).unwrap();
    assert_eq!(ties.query(&vec![1, 1, 1], 2), ties.query(&vec![1, 1, 1], 2));
}

#[test]
fn empty_index_gives_no_hits_and_empty_context() {
    let index: VectorIndex<f64> = VectorIndex::build(Vec::new(), Vec::new()).unwrap();
    assert!(index.is_empty());
    assert!(index.query(&Vec::new(), 3).is_empty());
    assert_eq!(build_context(&index, &Vec::new(), 3, 100), "");
}

#[test]
fn context_joins_ranked_texts_within_budget() {
    let chunks = vec![
        Chunk { index: 0, text: "one two".into(), source_offset: 0, word_count: 2 },
        Chunk { index: 1, text: "three four five".into(), source_offset: 2, word_count: 3 },
        Chunk { index: 2, text: "six".into(), source_offset: 5, word_count: 1 },
    ];
    let index = VectorIndex::build(chunks, vec![vec![0u8]; 3]).unwrap();
    let scores = vec![10, 30, 20];
    assert_eq!(build_context(&index, &scores, 3, 100), "three four five\n\nsix\n\none two");
    assert_eq!(build_context(&index, &scores, 3, 4), "three four five\n\nsix");
    assert_eq!(build_context(&index, &scores, 2, 100), "three four five\n\nsix");
    assert_eq!(build_context(&index, &scores, 3, 2), "");
}

#[test]
fn context_drops_lowest_ranked_first() {
    let chunks = vec![
        Chunk { index: 0, text: "a".into(), source_offset: 0, word_count: 1 },
        Chunk { index: 1, text: "b c".into(), source_offset: 1, word_count: 2 },
        Chunk { index: 2, text: "d".into(), source_offset: 3, word_count: 1 },
    ];
    // The third hit would fit alone, but the second does not: everything after it goes.
    assert_eq!(assemble_context(&chunks, &vec![0, 1, 2], 2), "a");
    assert_eq!(assemble_context(&chunks, &vec![2, 0], 2), "d\n\na");
}

#[test]
fn exit_as_first_input_terminates_with_empty_history() {
    let mut c = Conversation::new("exit".to_string(), false);
    assert_eq!(c.phase(), Phase::Idle);
    assert!(matches!(c.step(Event::Started), Action::ReadInput));
    assert_eq!(c.phase(), Phase::AwaitingInput);
    assert!(matches!(c.step(Event::Input("exit".to_string())), Action::Exit));
    assert_eq!(c.phase(), Phase::Terminated);
    assert!(c.history().is_empty());
    assert!(matches!(c.step(Event::Input("hello".to_string())), Action::Nothing));
    assert_eq!(c.phase(), Phase::Terminated);
}

#[test]
fn a_completed_turn_appends_question_and_answer() {
    let mut c = Conversation::new("exit".to_string(), false);
    c.step(Event::Started);
    match c.step(Event::Input("what is it?".to_string())) {
        Action::Retrieve(q) => assert_eq!(q, "what is it?"),
        _ => panic!("expected retrieval"),
    }
    assert_eq!(c.phase(), Phase::Retrieving);
    match c.step(Event::ContextReady("ctx".to_string())) {
        Action::Complete { context, input } => {
            assert_eq!(context, "ctx");
            assert_eq!(input, "what is it?");
        }
        _ => panic!("expected completion"),
    }
    match c.step(Event::CompletionReady("42".to_string())) {
        Action::Show(s) => assert_eq!(s, "42"),
        _ => panic!("expected answer"),
    }
    assert_eq!(c.phase(), Phase::AwaitingInput);
    let h = c.history();
    assert_eq!(h.len(), 2);
    assert_eq!(h[0].role, Role::User);
    assert_eq!(h[0].text, "what is it?");
    assert_eq!(h[1].role, Role::Assistant);
    assert_eq!(h[1].text, "42");
}

#[test]
fn a_failed_completion_appends_nothing() {
    let mut c = Conversation::new("exit".to_string(), false);
    c.step(Event::Started);
    c.step(Event::Input("q".to_string()));
    c.step(Event::ContextReady(String::new()));
    match c.step(Event::CompletionFailed("timeout".to_string())) {
        Action::Report(m) => assert_eq!(m, "timeout"),
        _ => panic!("expected report"),
    }
    assert_eq!(c.phase(), Phase::AwaitingInput);
    assert!(c.history().is_empty());
}

#[test]
fn retrieval_failure_falls_back_to_no_context() {
    let mut c = Conversation::new("exit".to_string(), false);
    c.step(Event::Started);
    c.step(Event::Input("q".to_string()));
    match c.step(Event::RetrievalFailed("embed failed".to_string())) {
        Action::Complete { context, input } => {
            assert_eq!(context, "");
            assert_eq!(input, "q");
        }
        _ => panic!("expected completion without context"),
    }
    assert_eq!(c.phase(), Phase::Completing);
}

#[test]
fn retrieval_failure_with_strict_grounding_fails_the_turn() {
    let mut c = Conversation::new("exit".to_string(), true);
    c.step(Event::Started);
    c.step(Event::Input("q".to_string()));
    match c.step(Event::RetrievalFailed("embed failed".to_string())) {
        Action::Report(m) => assert_eq!(m, "embed failed"),
        _ => panic!("expected report"),
    }
    assert_eq!(c.phase(), Phase::AwaitingInput);
    assert!(c.history().is_empty());
}

#[test]
fn cancel_terminates_from_any_phase() {
    let mut c = Conversation::new("exit".to_string(), false);
    c.step(Event::Started);
    c.step(Event::Input("q".to_string()));
    assert!(matches!(c.step(Event::Cancelled), Action::Exit));
    assert_eq!(c.phase(), Phase::Terminated);
}

#[test]
fn events_out_of_phase_are_ignored() {
    let mut c = Conversation::new("exit".to_string(), false);
    assert!(matches!(c.step(Event::Input("q".to_string())), Action::Nothing));
    assert_eq!(c.phase(), Phase::Idle);
    c.step(Event::Started);
    assert!(matches!(c.step(Event::CompletionReady("x".to_string())), Action::Nothing));
    assert!(c.history().is_empty());
}

#[test]
fn retry_delay_doubles_then_gives_up() {
    assert_eq!(retry_delay(0, 4, 100), Some(100));
    assert_eq!(retry_delay(1, 4, 100), Some(200));
    assert_eq!(retry_delay(2, 4, 100), Some(400));
    assert_eq!(retry_delay(3, 4, 100), None);
    assert_eq!(retry_delay(0, 0, 100), None);
    assert_eq!(retry_delay(70, 100, 3), Some(u64::MAX));
}
