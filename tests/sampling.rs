use llama_sampling::distribution::{Distribution, TokenScore};
use llama_sampling::history::History;
use llama_sampling::penalties::{apply_penalties, PenaltyParams};
use llama_sampling::sampler::{LlamaSampler, LlamaSamplerChainParams, SamplerError};

fn chain() -> LlamaSampler {
    LlamaSampler::new(LlamaSamplerChainParams::default())
}

fn plain_penalties(repeat: u32, freq: i64, presence: i64) -> PenaltyParams {
    PenaltyParams {
        eos_id: None,
        newline_id: None,
        repeat_penalty: repeat,
        freq_penalty: freq,
        presence_penalty: presence,
        penalize_nl: true,
        ignore_eos: false,
    }
}

#[test]
fn from_logits_uses_index_as_id() {
    let d = Distribution::from_logits(&vec![7, -3, 0]);
    assert_eq!(
        d.entries,
        vec![
            TokenScore { id: 0, value: 7 },
            TokenScore { id: 1, value: -3 },
            TokenScore { id: 2, value: 0 },
        ]
    );
}

#[test]
fn sort_descending_breaks_ties_by_id() {
    let mut d = Distribution::from_logits(&vec![4, 9, 4, 1, 9]);
    d.sort_descending();
    let ids: Vec<u32> = d.entries.iter().map(|e| e.id).collect();
    assert_eq!(ids, vec![1, 4, 0, 2, 3]);
}

#[test]
fn top_k_keeps_min_of_k_and_n() {
    let logits = vec![10, 20, 5, 30, 1];
    for k in 0..8usize {
        let mut d = Distribution::from_logits(&logits);
        d.top_k(k);
        assert_eq!(d.len(), k.min(logits.len()));
        let kept: Vec<u32> = d.entries.iter().map(|e| e.id).collect();
        for (id, v) in logits.iter().enumerate() {
            if !kept.contains(&(id as u32)) {
                for e in &d.entries {
                    assert!(e.value >= *v);
                }
            }
        }
    }
}

#[test]
fn top_k_scenario_keeps_three_best() {
    let mut d = Distribution::from_logits(&vec![10, 20, 5, 30, 1]);
    d.top_k(3);
    let ids: Vec<u32> = d.entries.iter().map(|e| e.id).collect();
    assert_eq!(ids, vec![3, 1, 0]);
}

#[test]
fn greedy_is_deterministic_and_prefers_lowest_id() {
    let d = Distribution::from_logits(&vec![2, 8, 3, 8, 8]);
    assert_eq!(d.greedy(), Some(1));
    assert_eq!(d.greedy(), Some(1));
    let e = Distribution::from_logits(&vec![]);
    assert_eq!(e.greedy(), None);
}

#[test]
fn history_counts_only_recent_window() {
    let mut h = History::new(2);
    h.accept(5);
    h.accept(5);
    h.accept(5);
    assert_eq!(h.count(5), 2);
    assert_eq!(h.tokens(), &vec![5, 5]);
}

#[test]
fn history_of_zero_keeps_nothing() {
    let mut h = History::new(0);
    h.accept(1);
    assert_eq!(h.count(1), 0);
}

#[test]
fn history_drops_oldest() {
    let mut h = History::new(3);
    for t in [1u32, 2, 3, 4] {
        h.accept(t);
    }
    assert_eq!(h.tokens(), &vec![2, 3, 4]);
    assert_eq!(h.count(1), 0);
    h.clear();
    assert_eq!(h.count(4), 0);
    assert_eq!(h.capacity_of(), 3);
}

#[test]
fn penalties_formula() {
    let mut h = History::new(8);
    h.accept(0);
    h.accept(0);
    h.accept(2);
    let mut d = Distribution::from_logits(&vec![20, 7, -20]);
    assert_eq!(apply_penalties(&mut d, &h, &plain_penalties(1000, 3, 5)), Ok(()));
    assert_eq!(d.entries[0].value, 20 - 3 * 2 - 5);
    assert_eq!(d.entries[1].value, 7);
    assert_eq!(d.entries[2].value, -20 - 3 - 5);

    let mut d = Distribution::from_logits(&vec![20, 7, -20]);
    assert_eq!(apply_penalties(&mut d, &h, &plain_penalties(2000, 0, 0)), Ok(()));
    assert_eq!(d.entries[0].value, 10);
    assert_eq!(d.entries[2].value, -40);
}

#[test]
fn penalties_spare_exempt_tokens() {
    let mut h = History::new(4);
    h.accept(0);
    h.accept(1);
    let p = PenaltyParams {
        eos_id: Some(0),
        newline_id: Some(1),
        repeat_penalty: 1000,
        freq_penalty: 1,
        presence_penalty: 1,
        penalize_nl: false,
        ignore_eos: true,
    };
    let mut d = Distribution::from_logits(&vec![5, 5]);
    assert_eq!(apply_penalties(&mut d, &h, &p), Ok(()));
    assert_eq!(d.entries[0].value, 5);
    assert_eq!(d.entries[1].value, 5);
}

#[test]
fn penalties_overflow_is_reported_and_leaves_scores() {
    let mut h = History::new(4);
    h.accept(0);
    let mut d = Distribution::from_logits(&vec![i64::MIN + 1, 3]);
    assert_eq!(apply_penalties(&mut d, &h, &plain_penalties(1000, 5, 0)), Err(()));
    assert_eq!(d.entries[0].value, i64::MIN + 1);
}

#[test]
fn chain_end_to_end_top_k_then_greedy() {
    let c = chain().add_top_k(3).add_greedy();
    assert_eq!(c.sample(&vec![10, 20, 5, 30, 1], 0), Ok(3));
}

#[test]
fn chain_empty_vocabulary_is_an_error() {
    let mut c = chain()
        .add_penalties(5, -1, -1, 4, 1000, 10, 0, true, false)
        .unwrap()
        .add_greedy();
    c.accept(0);
    let before = c.sample(&vec![5, 1], 0);
    assert_eq!(c.sample(&vec![], 0), Err(SamplerError::EmptyDistribution));
    assert_eq!(c.sample(&vec![5, 1], 0), before);
}

#[test]
fn chain_without_terminal_stage_selects_nothing() {
    let c = chain().add_top_k(2);
    assert_eq!(c.sample(&vec![1, 2], 0), Err(SamplerError::NoSelection));
    let c = chain();
    assert_eq!(c.sample(&vec![1, 2], 0), Err(SamplerError::NoSelection));
}

#[test]
fn chain_top_k_zero_leaves_nothing() {
    let c = chain().add_top_k(0).add_greedy();
    assert_eq!(c.sample(&vec![1, 2], 0), Err(SamplerError::EmptyDistribution));
}

#[test]
fn chain_rejects_bad_penalty_parameters() {
    assert!(matches!(
        chain().add_penalties(5, -1, -1, -1, 1000, 0, 0, true, false),
        Err(SamplerError::ConstructionError)
    ));
    assert!(matches!(
        chain().add_penalties(5, -1, -1, 4, 0, 0, 0, true, false),
        Err(SamplerError::ConstructionError)
    ));
    assert!(matches!(
        chain().add_penalties(-1, -1, -1, 4, 1000, 0, 0, true, false),
        Err(SamplerError::ConstructionError)
    ));
}

#[test]
fn chain_numeric_error() {
    let mut c = chain()
        .add_penalties(2, -1, -1, 4, 1000, i64::MAX, 0, true, false)
        .unwrap()
        .add_greedy();
    c.accept(0);
    c.accept(0);
    assert_eq!(c.sample(&vec![0, 1], 0), Err(SamplerError::NumericError));
}

#[test]
fn chain_accept_steers_away_from_repeats() {
    let mut c = chain()
        .add_penalties(2, -1, -1, 2, 1000, 1, 5, true, false)
        .unwrap()
        .add_greedy();
    assert_eq!(c.sample(&vec![10, 9], 0), Ok(0));
    c.accept(0);
    assert_eq!(c.sample(&vec![10, 9], 0), Ok(1));
    c.accept(1);
    c.accept(1);
    assert_eq!(c.sample(&vec![10, 9], 0), Ok(0));
}

fn run(c: &mut LlamaSampler) -> Vec<Result<u32, SamplerError>> {
    let mut out = Vec::new();
    for t in [0u32, 1, 0] {
        out.push(c.sample(&vec![10, 9, 8], 0));
        c.accept(t);
    }
    out.push(c.sample(&vec![10, 9, 8], 0));
    out
}

fn penalty_chain() -> LlamaSampler {
    chain()
        .add_penalties(3, -1, -1, 3, 1000, 1, 1, true, false)
        .unwrap()
        .add_top_k(2)
        .add_greedy()
}

#[test]
fn reset_then_replay_matches_fresh_chain() {
    let mut used = penalty_chain();
    let first = run(&mut used);
    used.reset();
    let again = run(&mut used);
    let mut fresh = penalty_chain();
    assert_eq!(again, run(&mut fresh));
    assert_eq!(first, again);
}

#[test]
fn chain_params_no_perf() {
    assert!(LlamaSamplerChainParams::default().no_perf());
    let p = LlamaSamplerChainParams::default().with_no_perf(false);
    assert!(!p.no_perf());
    assert!(!LlamaSampler::new(p).params().no_perf());
}
