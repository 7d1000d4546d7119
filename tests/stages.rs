use llama_sampling::distribution::{Distribution, TokenScore};
use llama_sampling::mirostat::MirostatTracker;
use llama_sampling::rng::SeededRng;
use llama_sampling::sampler::{LlamaSampler, LlamaSamplerChainParams, SamplerError};
use llama_sampling::temperature::apply_temperature;

fn weights(ws: &[i64]) -> Distribution {
    Distribution::from_logits(&ws.to_vec())
}

fn ids(d: &Distribution) -> Vec<u32> {
    d.entries.iter().map(|e| e.id).collect()
}

#[test]
fn top_p_keeps_shortest_prefix_reaching_share() {
    // weights out of 100: 50, 30, 15, 5
    let mut d = weights(&[15, 50, 5, 30]);
    d.top_p(8, 10, 1);
    assert_eq!(ids(&d), vec![1, 3]);

    let mut d = weights(&[15, 50, 5, 30]);
    d.top_p(9, 10, 1);
    assert_eq!(ids(&d), vec![1, 3, 0]);

    let mut d = weights(&[15, 50, 5, 30]);
    d.top_p(1, 2, 1);
    assert_eq!(ids(&d), vec![1]);
}

#[test]
fn top_p_zero_keeps_one() {
    let mut d = weights(&[15, 50, 5, 30]);
    d.top_p(0, 1, 1);
    assert_eq!(ids(&d), vec![1]);
}

#[test]
fn top_p_respects_min_keep() {
    let mut d = weights(&[15, 50, 5, 30]);
    d.top_p(1, 10, 3);
    assert_eq!(ids(&d), vec![1, 3, 0]);
    let mut d = weights(&[15, 50]);
    d.top_p(1, 10, 5);
    assert_eq!(d.len(), 2);
}

#[test]
fn top_p_unreachable_share_keeps_all() {
    let mut d = weights(&[1, 2, 3]);
    d.top_p(2, 1, 1);
    assert_eq!(d.len(), 3);
    let mut e = weights(&[]);
    e.top_p(1, 2, 1);
    assert!(e.is_empty());
}

#[test]
fn min_p_keeps_entries_near_the_best() {
    // threshold: a fifth of 50 = 10
    let mut d = weights(&[15, 50, 5, 30, 10]);
    d.min_p(1, 5, 1);
    assert_eq!(ids(&d), vec![1, 3, 0, 4]);
    let mut d = weights(&[15, 50, 5, 30, 10]);
    d.min_p(1, 2, 1);
    assert_eq!(ids(&d), vec![1, 3]);
    let mut d = weights(&[15, 50, 5, 30, 10]);
    d.min_p(1, 1, 3);
    assert_eq!(ids(&d), vec![1, 3, 0]);
}

#[test]
fn temperature_divides_scores() {
    let mut d = Distribution::from_logits(&vec![10, -7, 3]);
    assert_eq!(apply_temperature(&mut d, 500), Ok(()));
    assert_eq!(
        d.entries,
        vec![
            TokenScore { id: 0, value: 20 },
            TokenScore { id: 1, value: -14 },
            TokenScore { id: 2, value: 6 },
        ]
    );
    let mut d = Distribution::from_logits(&vec![10, -7, 3]);
    assert_eq!(apply_temperature(&mut d, 2000), Ok(()));
    assert_eq!(d.entries[0].value, 5);
    assert_eq!(d.entries[1].value, -3);
    assert_eq!(d.entries[2].value, 1);
}

#[test]
fn temperature_zero_or_overflow_is_refused() {
    let mut d = Distribution::from_logits(&vec![10]);
    assert_eq!(apply_temperature(&mut d, 0), Err(()));
    assert_eq!(d.entries[0].value, 10);
    let mut d = Distribution::from_logits(&vec![i64::MAX / 2]);
    assert_eq!(apply_temperature(&mut d, 1), Err(()));
    assert_eq!(d.entries[0].value, i64::MAX / 2);
}

#[test]
fn chain_temperature_zero_is_numeric_error() {
    let c = LlamaSampler::new(LlamaSamplerChainParams::default())
        .add_temp(0)
        .add_greedy();
    assert_eq!(c.sample(&vec![1, 2], 0), Err(SamplerError::NumericError));
    let c = LlamaSampler::new(LlamaSamplerChainParams::default())
        .add_temp(700)
        .add_top_k(2)
        .add_greedy();
    assert_eq!(c.sample(&vec![1, 20, 3], 0), Ok(1));
}

#[test]
fn mirostat_mu_update_is_exact() {
    // tau = 5.0 bits, eta = 0.1, surprise = 3.0 bits
    let mut m = MirostatTracker::new(5000, 100);
    assert_eq!(m.mu(), 10_000_000);
    assert_eq!(m.update(3000), Ok(()));
    assert_eq!(m.mu(), 10_000_000 + 100 * (5000 - 3000));
    m.reset();
    assert_eq!(m.mu(), 10_000_000);
}

#[test]
fn tail_free_cuts_where_curvature_accumulates() {
    // ranked weights 40, 30, 20, 5, 5: curvatures 0, 5, 15 (total 20)
    let mut d = weights(&[5, 40, 20, 30, 5]);
    d.tail_free(1, 2, 1);
    assert_eq!(ids(&d), vec![1, 3]);
    let mut d = weights(&[5, 40, 20, 30, 5]);
    d.tail_free(1, 10, 1);
    assert_eq!(ids(&d), vec![1]);
    let mut d = weights(&[5, 40, 20, 30, 5]);
    d.tail_free(1, 10, 2);
    assert_eq!(ids(&d), vec![1, 3]);
}

#[test]
fn tail_free_only_ranks_small_sets_and_full_share() {
    let mut d = weights(&[5, 40, 20, 30, 5]);
    d.tail_free(1, 1, 1);
    assert_eq!(ids(&d), vec![1, 3, 2, 0, 4]);
    let mut d = weights(&[1, 5]);
    d.tail_free(1, 2, 1);
    assert_eq!(ids(&d), vec![1, 0]);
}

#[test]
fn draw_follows_running_total() {
    let d = weights(&[0, 3, 2]);
    assert_eq!(d.draw(0), Some(1));
    assert_eq!(d.draw(2), Some(1));
    assert_eq!(d.draw(3), Some(2));
    assert_eq!(d.draw(4), Some(2));
    assert_eq!(d.draw(5), None);
    assert_eq!(weights(&[]).draw(0), None);
}

fn empty_chain() -> LlamaSampler {
    LlamaSampler::new(LlamaSamplerChainParams::default())
}

#[test]
fn chain_weight_cuts_then_greedy() {
    let c = empty_chain()
        .add_top_p(8, 10, 1)
        .unwrap()
        .add_min_p(1, 5, 1)
        .unwrap()
        .add_tail_free(1, 2, 1)
        .unwrap()
        .add_greedy();
    assert_eq!(c.sample(&vec![15, 50, 5, 30], 0), Ok(1));
}

#[test]
fn chain_weight_cut_on_negative_score_is_numeric_error() {
    let c = empty_chain().add_top_p(1, 2, 1).unwrap().add_greedy();
    assert_eq!(c.sample(&vec![3, -1], 0), Err(SamplerError::NumericError));
    let c = empty_chain().add_min_p(1, 2, 1).unwrap().add_greedy();
    assert_eq!(c.sample(&vec![3, -1], 0), Err(SamplerError::NumericError));
    let c = empty_chain().add_tail_free(1, 2, 1).unwrap().add_greedy();
    assert_eq!(c.sample(&vec![3, -1], 0), Err(SamplerError::NumericError));
}

#[test]
fn chain_rejects_bad_cut_parameters() {
    assert!(matches!(empty_chain().add_top_p(1, 2, 0), Err(SamplerError::ConstructionError)));
    assert!(matches!(empty_chain().add_top_p(3, 2, 1), Err(SamplerError::ConstructionError)));
    assert!(matches!(empty_chain().add_min_p(1, 0, 1), Err(SamplerError::ConstructionError)));
    assert!(matches!(empty_chain().add_tail_free(2, 1, 1), Err(SamplerError::ConstructionError)));
    assert!(empty_chain().add_top_p(0, 1, 1).is_ok());
    assert!(empty_chain().add_tail_free(1, 1, 1).is_ok());
}

#[test]
fn chain_dist_draws_by_weight() {
    let c = empty_chain().add_dist(42);
    // weights 0, 3, 2: running totals 0, 3, 5
    assert_eq!(c.sample(&vec![0, 3, 2], 0), Ok(1));
    assert_eq!(c.sample(&vec![0, 3, 2], 2), Ok(1));
    assert_eq!(c.sample(&vec![0, 3, 2], 3), Ok(2));
    assert_eq!(c.sample(&vec![0, 3, 2], 4), Ok(2));
    assert_eq!(c.sample(&vec![0, 3, 2], 5), Ok(1));
    assert_eq!(c.sample(&vec![0, 3, 2], 9), Ok(2));
}

#[test]
fn chain_dist_after_cut_and_errors() {
    let c = empty_chain().add_top_k(2).add_dist(7);
    // after top-k: weights 50 (id 1), 30 (id 3)
    assert_eq!(c.sample(&vec![15, 50, 5, 30], 49), Ok(1));
    assert_eq!(c.sample(&vec![15, 50, 5, 30], 50), Ok(3));
    assert_eq!(c.sample(&vec![0, 0], 1), Err(SamplerError::EmptyDistribution));
    assert_eq!(c.sample(&vec![-1, 2], 1), Err(SamplerError::NumericError));
}

#[test]
fn chain_tail_free_small_set_is_ranked() {
    let c = empty_chain().add_tail_free(1, 2, 1).unwrap().add_dist(1);
    // ranked: id 1 (5) then id 0 (1); a draw of 0 lands on the first
    assert_eq!(c.sample(&vec![1, 5], 0), Ok(1));
    assert_eq!(c.sample(&vec![1, 5], 5), Ok(0));
}

#[test]
fn draw_entry_picks_stretch() {
    let d = weights(&[0, 3, 2]);
    assert_eq!(d.total_weight(), 5);
    assert_eq!(d.draw_entry(3), Some(TokenScore { id: 2, value: 2 }));
    assert_eq!(d.draw_entry(5), None);
}

#[test]
fn tail_free_min_keep_is_a_floor() {
    // ranked weights 40, 30, 20, 5, 5: running shares 0, 1/4, 1
    let mut d = weights(&[5, 40, 20, 30, 5]);
    d.tail_free(1, 2, 3);
    assert_eq!(ids(&d), vec![1, 3, 2]);
}

#[test]
fn tail_free_cuts_where_share_reaches_bound() {
    let mut d = weights(&[5, 40, 20, 30, 5]);
    d.tail_free(1, 4, 1);
    assert_eq!(ids(&d), vec![1]);
}

#[test]
fn tail_free_keeps_ranking_without_curvature() {
    let mut d = weights(&[10, 40, 20, 30]);
    d.tail_free(1, 10, 1);
    assert_eq!(ids(&d), vec![1, 3, 2, 0]);
}

#[test]
fn seeded_rng_sequence_is_splitmix64() {
    let mut g = SeededRng::new(0);
    assert_eq!(g.next_u64(), 0xE220_A839_7B1D_CDAF);
    assert_eq!(g.next_u64(), 0x6E78_9E6A_A1B9_65F4);
    g.reset();
    assert_eq!(g.next_u64(), 0xE220_A839_7B1D_CDAF);
}

#[test]
fn seeded_rng_same_seed_same_draws() {
    let mut a = SeededRng::new(1234);
    let mut b = SeededRng::new(1234);
    let mut c = SeededRng::new(1235);
    let xs: Vec<u64> = (0..5).map(|_| a.next_u64()).collect();
    let ys: Vec<u64> = (0..5).map(|_| b.next_u64()).collect();
    let zs: Vec<u64> = (0..5).map(|_| c.next_u64()).collect();
    assert_eq!(xs, ys);
    assert_ne!(xs, zs);
}
