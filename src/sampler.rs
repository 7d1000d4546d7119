use vstd::prelude::*;
use crate::distribution::{
    lemma_first_ranks_first,
    Distribution,
    TokenScore,
    all_weights,
    drawn_index,
    mass,
    lemma_min_p_keeps_heavy,
    lemma_nucleus_is_shortest,
    lemma_ranked,
    lemma_tail_free_cut,
    logits_entries,
    min_p_len,
    nucleus_len,
    ranked,
    tail_free_len,
    top_k_count,
};
use crate::history::{History, last_n, lemma_replay_is_last_n, replay};
use crate::penalties::{PenaltyParams, apply_penalties, penalties_fit, penalties_applied};
use crate::temperature::{apply_temperature, temperature_fits, tempered_entries};

verus! {

/// Why a chain could not be built or could not pick a token.
#[derive(Clone, Copy, Debug, PartialEq, Eq, Structural)]
pub enum SamplerError {
    /// A stage was given parameters it cannot work with.
    ConstructionError,
    /// There was no candidate to choose from.
    EmptyDistribution,
    /// A score left the range of the score type.
    NumericError,
    /// The chain does not end with a stage that chooses a token.
    NoSelection,
}

/// Options of a chain as a whole.
#[derive(Clone, Copy, Debug, PartialEq, Eq, Structural)]
pub struct LlamaSamplerChainParams {
    no_perf: bool,
}

impl LlamaSamplerChainParams {
    pub closed spec fn spec_no_perf(&self) -> bool {
        self.no_perf
    }

    /// Sets whether the chain skips collecting performance metrics.
    pub fn with_no_perf(self, no_perf: bool) -> (r: Self)
        ensures
            r.spec_no_perf() == no_perf,
    {
        LlamaSamplerChainParams { no_perf }
    }

    /// Whether the chain skips collecting performance metrics.
    pub fn no_perf(&self) -> (r: bool)
        ensures
            r == self.spec_no_perf(),
    {
        self.no_perf
    }
}

impl Default for LlamaSamplerChainParams {
    /// Metrics are off unless asked for.
    fn default() -> (r: Self)
        ensures
            r.spec_no_perf(),
    {
        LlamaSamplerChainParams { no_perf: true }
    }
}

/// One stage of a chain.
pub enum Stage {
    /// Divides every score by a temperature given in thousandths.
    Temperature { temp: u32 },
    /// Keeps the `k` best-ranked candidates.
    TopK { k: usize },
    /// Keeps the shortest ranked prefix that carries the share
    /// `p_num / p_den` of the weight, and at least `min_keep` candidates.
    TopP { p_num: u32, p_den: u32, min_keep: usize },
    /// Keeps the candidates whose weight is at least `p_num / p_den` of the
    /// best weight, and at least `min_keep` of them.
    MinP { p_num: u32, p_den: u32, min_keep: usize },
    /// Cuts the ranking where the accumulated curvature of the weights
    /// exceeds the share `z_num / z_den`, keeping at least `min_keep`.
    TailFree { z_num: u32, z_den: u32, min_keep: usize },
    /// Lowers the scores of tokens seen in the recent window.
    Penalties { params: PenaltyParams, history: History },
    /// Chooses the best-ranked candidate.
    Greedy,
    /// Draws a candidate in proportion to its weight, with the number that a
    /// `SeededRng` seeded with `seed`, owned by the caller, supplies to each
    /// sampling call.
    Dist { seed: u32 },
}

/// What a stage is as far as sampling is concerned: its parameters and the
/// tokens in its window.
pub enum StageModel {
    Temperature { temp: nat },
    TopK { k: nat },
    TopP { p_num: nat, p_den: nat, min_keep: nat },
    MinP { p_num: nat, p_den: nat, min_keep: nat },
    TailFree { z_num: nat, z_den: nat, min_keep: nat },
    Penalties { params: PenaltyParams, capacity: nat, window: Seq<u32> },
    Greedy,
    Dist { seed: u32 },
}

impl View for Stage {
    type V = StageModel;

    open spec fn view(&self) -> StageModel {
        match self {
            Stage::Temperature { temp } => StageModel::Temperature { temp: *temp as nat },
            Stage::TopK { k } => StageModel::TopK { k: *k as nat },
            Stage::TopP { p_num, p_den, min_keep } => StageModel::TopP {
                p_num: *p_num as nat,
                p_den: *p_den as nat,
                min_keep: *min_keep as nat,
            },
            Stage::MinP { p_num, p_den, min_keep } => StageModel::MinP {
                p_num: *p_num as nat,
                p_den: *p_den as nat,
                min_keep: *min_keep as nat,
            },
            Stage::TailFree { z_num, z_den, min_keep } => StageModel::TailFree {
                z_num: *z_num as nat,
                z_den: *z_den as nat,
                min_keep: *min_keep as nat,
            },
            Stage::Penalties { params, history } => StageModel::Penalties {
                params: *params,
                capacity: history.capacity(),
                window: history@,
            },
            Stage::Greedy => StageModel::Greedy,
            Stage::Dist { seed } => StageModel::Dist { seed: *seed },
        }
    }
}

impl Stage {
    pub open spec fn wf(&self) -> bool {
        match self {
            Stage::Penalties { params, history } => history.wf() && params.repeat_penalty > 0,
            _ => true,
        }
    }
}

/// A stage's effect on the candidates, with `draw` the number a random draw
/// uses; `None` where a score overflows, or where a stage that works on
/// probability weights meets a negative score.
pub open spec fn apply_stage(s: StageModel, d: Seq<TokenScore>, draw: u128) -> Option<
    Seq<TokenScore>,
> {
    match s {
        StageModel::Temperature { temp } => {
            if temperature_fits(d, temp) {
                Some(tempered_entries(d, temp))
            } else {
                None
            }
        },
        StageModel::TopK { k } => Some(ranked(d).take(top_k_count(k, d.len()) as int)),
        StageModel::TopP { p_num, p_den, min_keep } => {
            if all_weights(d) {
                Some(ranked(d).take(nucleus_len(d, p_num, p_den, min_keep) as int))
            } else {
                None
            }
        },
        StageModel::MinP { p_num, p_den, min_keep } => {
            if all_weights(d) {
                Some(ranked(d).take(min_p_len(d, p_num, p_den, min_keep) as int))
            } else {
                None
            }
        },
        StageModel::TailFree { z_num, z_den, min_keep } => {
            if !all_weights(d) {
                None
            } else if z_num >= z_den || d.len() <= 2 {
                Some(ranked(d))
            } else {
                Some(ranked(d).take(tail_free_len(d, z_num, z_den, min_keep) as int))
            }
        },
        StageModel::Penalties { params, capacity, window } => {
            if penalties_fit(params, window, d) {
                Some(penalties_applied(params, window, d))
            } else {
                None
            }
        },
        StageModel::Greedy => {
            if d.len() == 0 {
                Some(d)
            } else {
                Some(seq![ranked(d)[0]])
            }
        },
        StageModel::Dist { seed } => {
            if !all_weights(d) {
                None
            } else if mass(d, d.len() as int) == 0 {
                Some(Seq::empty())
            } else {
                Some(seq![d[drawn_index(d, (draw as int) % mass(d, d.len() as int)) as int]])
            }
        },
    }
}

/// The candidates after every stage, in order; `None` where a stage fails.
pub open spec fn run_stages(stages: Seq<StageModel>, d: Seq<TokenScore>, draw: u128) -> Option<
    Seq<TokenScore>,
>
    decreases stages.len(),
{
    if stages.len() == 0 {
        Some(d)
    } else {
        match apply_stage(stages[0], d, draw) {
            Some(d2) => run_stages(stages.drop_first(), d2, draw),
            None => None,
        }
    }
}

/// Whether a stage chooses the token: greedy choice or a random draw.
pub open spec fn selects(s: StageModel) -> bool {
    s is Greedy || s is Dist
}

/// What one sampling step returns for a chain in the given state, with
/// `draw` the number a random draw uses.
pub open spec fn sample_outcome(stages: Seq<StageModel>, logits: Seq<i64>, draw: u128) -> Result<
    u32,
    SamplerError,
> {
    if logits.len() == 0 {
        Err(SamplerError::EmptyDistribution)
    } else {
        match run_stages(stages, logits_entries(logits), draw) {
            None => Err(SamplerError::NumericError),
            Some(d) => {
                if d.len() == 0 {
                    Err(SamplerError::EmptyDistribution)
                } else if stages.len() == 0 || !selects(stages.last()) {
                    Err(SamplerError::NoSelection)
                } else {
                    Ok(d[0].id)
                }
            },
        }
    }
}

/// A stage after `token` is accepted: a window takes the token in.
pub open spec fn accept_stage(s: StageModel, token: u32) -> StageModel {
    match s {
        StageModel::Penalties { params, capacity, window } => StageModel::Penalties {
            params,
            capacity,
            window: last_n(window.push(token), capacity),
        },
        _ => s,
    }
}

pub open spec fn accept_all(stages: Seq<StageModel>, token: u32) -> Seq<StageModel> {
    stages.map_values(|s: StageModel| accept_stage(s, token))
}

/// A stage with its history forgotten.
pub open spec fn reset_stage(s: StageModel) -> StageModel {
    match s {
        StageModel::Penalties { params, capacity, window } => StageModel::Penalties {
            params,
            capacity,
            window: Seq::empty(),
        },
        _ => s,
    }
}

pub open spec fn reset_all(stages: Seq<StageModel>) -> Seq<StageModel> {
    stages.map_values(|s: StageModel| reset_stage(s))
}

/// A stage after accepting each token of `tokens` in turn.
pub open spec fn accept_each(s: StageModel, tokens: Seq<u32>) -> StageModel
    decreases tokens.len(),
{
    if tokens.len() == 0 {
        s
    } else {
        accept_stage(accept_each(s, tokens.drop_last()), tokens.last())
    }
}

/// A penalty stage that starts empty holds, after any run of accepted
/// tokens, exactly the last `capacity` of them, in order.
pub proof fn lemma_penalty_window_is_recent(
    params: PenaltyParams,
    capacity: nat,
    tokens: Seq<u32>,
)
    ensures
        accept_each(
            StageModel::Penalties { params, capacity, window: Seq::empty() },
            tokens,
        ) == (StageModel::Penalties { params, capacity, window: last_n(tokens, capacity) }),
{
    lemma_penalty_window_replays(params, capacity, tokens);
    lemma_replay_is_last_n(tokens, capacity);
}

proof fn lemma_penalty_window_replays(params: PenaltyParams, capacity: nat, tokens: Seq<u32>)
    ensures
        accept_each(
            StageModel::Penalties { params, capacity, window: Seq::empty() },
            tokens,
        ) == (StageModel::Penalties { params, capacity, window: replay(tokens, capacity) }),
    decreases tokens.len(),
{
    if tokens.len() > 0 {
        lemma_penalty_window_replays(params, capacity, tokens.drop_last());
    }
}

/// A chain that only chooses greedily returns, for any non-empty logits,
/// the id with the highest score, the lowest such id on a tie; so equal
/// logits always give the same token, whatever the drawn number.
pub proof fn lemma_greedy_chain_picks_best(logits: Seq<i64>, draw: u128)
    requires
        0 < logits.len() <= u32::MAX,
    ensures
        sample_outcome(seq![StageModel::Greedy], logits, draw) matches Ok(t) && t < logits.len()
            && forall|j: int|
            0 <= j < logits.len() ==> logits[t as int] >= #[trigger] logits[j] && (logits[t as int]
                == logits[j] ==> t <= j),
{
    let d = logits_entries(logits);
    let stages = seq![StageModel::Greedy];
    lemma_ranked(d);
    lemma_first_ranks_first(d);
    let best = ranked(d)[0];
    assert(stages.drop_first() =~= Seq::<StageModel>::empty());
    assert(d.len() == logits.len());
    assert(stages[0] == StageModel::Greedy);
    assert(apply_stage(stages[0], d, draw) == Some(seq![best]));
    assert(run_stages(stages.drop_first(), seq![best], draw) == Some(seq![best]));
    assert(run_stages(stages, d, draw) == Some(seq![best]));
    assert(d.contains(best)) by {
        broadcast use vstd::seq_lib::group_to_multiset_ensures;

        assert(ranked(d).contains(best));
        assert(ranked(d).to_multiset().count(best) > 0);
    }
    let k = choose|k: int| 0 <= k < d.len() && d[k] == best;
    assert(best.id == k);
    assert forall|j: int| 0 <= j < logits.len() implies logits[best.id as int] >= #[trigger] logits[j]
        && (logits[best.id as int] == logits[j] ==> best.id <= j) by {
        assert(d[j].value == logits[j] && d[j].id == j);
    }
}

/// A call made on a chain: accepting a token, or sampling over logits with
/// a drawn number.
pub enum ChainEvent {
    Accept(u32),
    Sample(Seq<i64>, u128),
}

/// What the sampling calls among `events` return, made in turn on a chain
/// that starts with `stages`.
pub open spec fn replay_events(stages: Seq<StageModel>, events: Seq<ChainEvent>) -> Seq<
    Result<u32, SamplerError>,
>
    decreases events.len(),
{
    if events.len() == 0 {
        Seq::empty()
    } else {
        match events[0] {
            ChainEvent::Accept(t) => replay_events(accept_all(stages, t), events.drop_first()),
            ChainEvent::Sample(logits, draw) => seq![sample_outcome(stages, logits, draw)] + replay_events(
                stages,
                events.drop_first(),
            ),
        }
    }
}

/// Reset forgets history only: a reset chain and a fresh chain built with the
/// same stages answer any sequence of calls alike.
pub proof fn lemma_reset_replays_like_fresh(
    used: Seq<StageModel>,
    fresh: Seq<StageModel>,
    events: Seq<ChainEvent>,
)
    requires
        reset_all(used) == reset_all(fresh),
        reset_all(fresh) == fresh,
    ensures
        replay_events(reset_all(used), events) == replay_events(fresh, events),
{
}

/// An ordered chain of stages, with the history each of them keeps.
pub struct LlamaSampler {
    stages: Vec<Stage>,
    params: LlamaSamplerChainParams,
}

impl View for LlamaSampler {
    type V = Seq<StageModel>;

    closed spec fn view(&self) -> Seq<StageModel> {
        self.stages@.map_values(|s: Stage| s@)
    }
}

impl LlamaSampler {
    pub closed spec fn wf(&self) -> bool {
        forall|i: int| 0 <= i < self.stages@.len() ==> (#[trigger] self.stages@[i]).wf()
    }

    pub closed spec fn spec_params(&self) -> LlamaSamplerChainParams {
        self.params
    }

    /// An empty chain.
    pub fn new(params: LlamaSamplerChainParams) -> (r: Self)
        ensures
            r.wf(),
            r@ == Seq::<StageModel>::empty(),
            r.spec_params() == params,
    {
        let r = LlamaSampler { stages: Vec::new(), params };
        assert(r@ =~= Seq::<StageModel>::empty());
        r
    }

    /// The chain's options.
    pub fn params(&self) -> (r: LlamaSamplerChainParams)
        ensures
            r == self.spec_params(),
    {
        self.params
    }

    fn push_stage(self, stage: Stage) -> (r: Self)
        requires
            self.wf(),
            stage.wf(),
        ensures
            r.wf(),
            r@ == self@.push(stage@),
            r.spec_params() == self.spec_params(),
    {
        let mut stages = self.stages;
        stages.push(stage);
        let r = LlamaSampler { stages, params: self.params };
        assert(r@ =~= self@.push(stage@));
        r
    }

    /// Appends a stage that keeps the `top_k` best-ranked candidates.
    pub fn add_top_k(self, top_k: usize) -> (r: Self)
        requires
            self.wf(),
        ensures
            r.wf(),
            r@ == self@.push(StageModel::TopK { k: top_k as nat }),
            r.spec_params() == self.spec_params(),
    {
        self.push_stage(Stage::TopK { k: top_k })
    }

    /// Appends a stage that divides every score by `temp` thousandths. A
    /// temperature of zero, or one that takes a score out of range, makes
    /// sampling fail with a numeric error.
    pub fn add_temp(self, temp: u32) -> (r: Self)
        requires
            self.wf(),
        ensures
            r.wf(),
            r@ == self@.push(StageModel::Temperature { temp: temp as nat }),
            r.spec_params() == self.spec_params(),
    {
        self.push_stage(Stage::Temperature { temp })
    }

    /// Appends a nucleus stage: keeps the shortest ranked prefix of at least
    /// `min_keep` candidates carrying the share `p_num / p_den` of the weight.
    /// Fails where `min_keep` is zero or the share is not within `[0, 1]`.
    /// The scores reaching this stage must be probability weights that the
    /// caller supplies (see `sample`).
    pub fn add_top_p(self, p_num: u32, p_den: u32, min_keep: usize) -> (r: Result<
        Self,
        SamplerError,
    >)
        requires
            self.wf(),
        ensures
            (min_keep == 0 || p_den == 0 || p_num > p_den) ==> r == Err::<Self, SamplerError>(
                SamplerError::ConstructionError,
            ),
            !(min_keep == 0 || p_den == 0 || p_num > p_den) ==> r is Ok,
            r matches Ok(c) ==> c.wf() && c.spec_params() == self.spec_params() && c@ == self@.push(
                StageModel::TopP {
                    p_num: p_num as nat,
                    p_den: p_den as nat,
                    min_keep: min_keep as nat,
                },
            ),
    {
        if min_keep == 0 || p_den == 0 || p_num > p_den {
            return Err(SamplerError::ConstructionError);
        }
        Ok(self.push_stage(Stage::TopP { p_num, p_den, min_keep }))
    }

    /// Appends a min-p stage: keeps the candidates whose weight is at least
    /// `p_num / p_den` of the best, and at least `min_keep` of them. Fails
    /// where `min_keep` is zero or the share is not within `[0, 1]`.
    /// The scores reaching this stage must be probability weights that the
    /// caller supplies (see `sample`).
    pub fn add_min_p(self, p_num: u32, p_den: u32, min_keep: usize) -> (r: Result<
        Self,
        SamplerError,
    >)
        requires
            self.wf(),
        ensures
            (min_keep == 0 || p_den == 0 || p_num > p_den) ==> r == Err::<Self, SamplerError>(
                SamplerError::ConstructionError,
            ),
            !(min_keep == 0 || p_den == 0 || p_num > p_den) ==> r is Ok,
            r matches Ok(c) ==> c.wf() && c.spec_params() == self.spec_params() && c@ == self@.push(
                StageModel::MinP {
                    p_num: p_num as nat,
                    p_den: p_den as nat,
                    min_keep: min_keep as nat,
                },
            ),
    {
        if min_keep == 0 || p_den == 0 || p_num > p_den {
            return Err(SamplerError::ConstructionError);
        }
        Ok(self.push_stage(Stage::MinP { p_num, p_den, min_keep }))
    }

    /// Appends a tail-free stage with share `z_num / z_den`. Fails where
    /// `min_keep` is zero or the share is not within `[0, 1]`.
    /// The scores reaching this stage must be probability weights that the
    /// caller supplies (see `sample`).
    pub fn add_tail_free(self, z_num: u32, z_den: u32, min_keep: usize) -> (r: Result<
        Self,
        SamplerError,
    >)
        requires
            self.wf(),
        ensures
            (min_keep == 0 || z_den == 0 || z_num > z_den) ==> r == Err::<Self, SamplerError>(
                SamplerError::ConstructionError,
            ),
            !(min_keep == 0 || z_den == 0 || z_num > z_den) ==> r is Ok,
            r matches Ok(c) ==> c.wf() && c.spec_params() == self.spec_params() && c@ == self@.push(
                StageModel::TailFree {
                    z_num: z_num as nat,
                    z_den: z_den as nat,
                    min_keep: min_keep as nat,
                },
            ),
    {
        if min_keep == 0 || z_den == 0 || z_num > z_den {
            return Err(SamplerError::ConstructionError);
        }
        Ok(self.push_stage(Stage::TailFree { z_num, z_den, min_keep }))
    }

    /// Appends a random draw by weight. `seed` names the `SeededRng` sequence
    /// whose numbers the caller passes to each sampling call.
    pub fn add_dist(self, seed: u32) -> (r: Self)
        requires
            self.wf(),
        ensures
            r.wf(),
            r@ == self@.push(StageModel::Dist { seed }),
            r.spec_params() == self.spec_params(),
    {
        self.push_stage(Stage::Dist { seed })
    }

    /// Appends a stage that chooses the best-ranked candidate.
    pub fn add_greedy(self) -> (r: Self)
        requires
            self.wf(),
        ensures
            r.wf(),
            r@ == self@.push(StageModel::Greedy),
            r.spec_params() == self.spec_params(),
    {
        self.push_stage(Stage::Greedy)
    }

    /// Appends a repetition penalty stage that looks at the last
    /// `penalty_last_n` accepted tokens. A negative special id means that the
    /// vocabulary has no such token.
    ///
    /// Fails where `n_vocab` or `penalty_last_n` is negative, or
    /// `penalty_repeat` is zero.
    pub fn add_penalties(
        self,
        n_vocab: i32,
        special_eos_id: i32,
        linefeed_id: i32,
        penalty_last_n: i32,
        penalty_repeat: u32,
        penalty_freq: i64,
        penalty_presence: i64,
        penalize_nl: bool,
        ignore_eos: bool,
    ) -> (r: Result<Self, SamplerError>)
        requires
            self.wf(),
        ensures
            (n_vocab < 0 || penalty_last_n < 0 || penalty_repeat == 0) ==> r == Err::<
                Self,
                SamplerError,
            >(SamplerError::ConstructionError),
            !(n_vocab < 0 || penalty_last_n < 0 || penalty_repeat == 0) ==> r is Ok,
            r matches Ok(c) ==> c.wf() && c.spec_params() == self.spec_params() && c@ == self@.push(
                StageModel::Penalties {
                    params: PenaltyParams {
                        eos_id: token_of(special_eos_id),
                        newline_id: token_of(linefeed_id),
                        repeat_penalty: penalty_repeat,
                        freq_penalty: penalty_freq,
                        presence_penalty: penalty_presence,
                        penalize_nl,
                        ignore_eos,
                    },
                    capacity: penalty_last_n as nat,
                    window: Seq::empty(),
                },
            ),
    {
        if n_vocab < 0 || penalty_last_n < 0 || penalty_repeat == 0 {
            return Err(SamplerError::ConstructionError);
        }
        let params = PenaltyParams {
            eos_id: to_token(special_eos_id),
            newline_id: to_token(linefeed_id),
            repeat_penalty: penalty_repeat,
            freq_penalty: penalty_freq,
            presence_penalty: penalty_presence,
            penalize_nl,
            ignore_eos,
        };
        let history = History::new(penalty_last_n as usize);
        Ok(self.push_stage(Stage::Penalties { params, history }))
    }

    /// Informs every stage that `token` was emitted: each window takes it in.
    pub fn accept(&mut self, token: u32)
        requires
            old(self).wf(),
        ensures
            final(self).wf(),
            final(self).spec_params() == old(self).spec_params(),
            final(self)@ == accept_all(old(self)@, token),
    {
        let mut rest: Vec<Stage> = Vec::new();
        std::mem::swap(&mut self.stages, &mut rest);
        let ghost orig = rest@;
        let n = rest.len();
        let mut i: usize = 0;
        while i < n
            invariant
                n == orig.len(),
                i <= n,
                self.stages@.len() == i,
                rest@ == orig.skip(i as int),
                self.params == old(self).params,
                orig == old(self).stages@,
                forall|j: int| 0 <= j < n ==> (#[trigger] orig[j]).wf(),
                forall|j: int|
                    0 <= j < i ==> (#[trigger] self.stages@[j]).wf() && self.stages@[j]@
                        == accept_stage(orig[j]@, token),
            decreases n - i,
        {
            let st = rest.remove(0);
            assert(st == orig[i as int]);
            let next = match st {
                Stage::Penalties { params, mut history } => {
                    history.accept(token);
                    Stage::Penalties { params, history }
                },
                other => other,
            };
            self.stages.push(next);
            i += 1;
            assert(rest@ =~= orig.skip(i as int));
        }
        assert(self@ =~= accept_all(old(self)@, token));
    }

    /// Forgets every stage's history; parameters and order stay.
    pub fn reset(&mut self)
        requires
            old(self).wf(),
        ensures
            final(self).wf(),
            final(self).spec_params() == old(self).spec_params(),
            final(self)@ == reset_all(old(self)@),
    {
        let mut rest: Vec<Stage> = Vec::new();
        std::mem::swap(&mut self.stages, &mut rest);
        let ghost orig = rest@;
        let n = rest.len();
        let mut i: usize = 0;
        while i < n
            invariant
                n == orig.len(),
                i <= n,
                self.stages@.len() == i,
                rest@ == orig.skip(i as int),
                self.params == old(self).params,
                orig == old(self).stages@,
                forall|j: int| 0 <= j < n ==> (#[trigger] orig[j]).wf(),
                forall|j: int|
                    0 <= j < i ==> (#[trigger] self.stages@[j]).wf() && self.stages@[j]@
                        == reset_stage(orig[j]@),
            decreases n - i,
        {
            let st = rest.remove(0);
            assert(st == orig[i as int]);
            let next = match st {
                Stage::Penalties { params, mut history } => {
                    history.clear();
                    Stage::Penalties { params, history }
                },
                other => other,
            };
            self.stages.push(next);
            i += 1;
            assert(rest@ =~= orig.skip(i as int));
        }
        assert(self@ =~= reset_all(old(self)@));
    }

    /// Runs every stage in order over the candidates for `scores` (one per
    /// index) and returns the token that the final stage chooses. The
    /// chain's histories are left as they are.
    ///
    /// Temperature and penalties read the scores as fixed-point logits. The
    /// top-p, min-p, tail-free and random-draw stages read them as
    /// probability weights: the caller normalizes before they run (this
    /// library holds no softmax), and a negative score there is a numeric
    /// error. A random draw uses `draw` reduced modulo the total weight, so
    /// `draw` should come from a uniform generator over a range much larger
    /// than that total.
    pub fn sample(&self, scores: &Vec<i64>, draw: u128) -> (r: Result<u32, SamplerError>)
        requires
            self.wf(),
            scores@.len() <= u32::MAX,
        ensures
            r == sample_outcome(self@, scores@, draw),
    {
        if scores.len() == 0 {
            return Err(SamplerError::EmptyDistribution);
        }
        let mut d = Distribution::from_logits(scores);
        let n = self.stages.len();
        let mut i: usize = 0;
        assert(self@.skip(0) =~= self@);
        while i < n
            invariant
                n == self@.len(),
                i <= n,
                self.wf(),
                scores@.len() > 0,
                d@.len() <= u32::MAX,
                run_stages(self@, logits_entries(scores@), draw) == run_stages(
                    self@.skip(i as int),
                    d@,
                    draw,
                ),
            decreases n - i,
        {
            proof {
                assert(self@.skip(i as int)[0] == self@[i as int]);
                assert(self@.skip(i as int).drop_first() =~= self@.skip(i + 1));
                assert(self.stages@[i as int].wf());
            }
            match &self.stages[i] {
                Stage::Temperature { temp } => {
                    if apply_temperature(&mut d, *temp).is_err() {
                        return Err(SamplerError::NumericError);
                    }
                },
                Stage::TopK { k } => {
                    proof {
                        lemma_ranked(d@);
                    }
                    d.top_k(*k);
                },
                Stage::TopP { p_num, p_den, min_keep } => {
                    if !d.is_weights() {
                        return Err(SamplerError::NumericError);
                    }
                    proof {
                        lemma_ranked(d@);
                        lemma_nucleus_is_shortest(d@, *p_num as nat, *p_den as nat, *min_keep as nat);
                    }
                    d.top_p(*p_num, *p_den, *min_keep);
                },
                Stage::MinP { p_num, p_den, min_keep } => {
                    if !d.is_weights() {
                        return Err(SamplerError::NumericError);
                    }
                    proof {
                        lemma_ranked(d@);
                        lemma_min_p_keeps_heavy(d@, *p_num as nat, *p_den as nat, *min_keep as nat);
                    }
                    d.min_p(*p_num, *p_den, *min_keep);
                },
                Stage::TailFree { z_num, z_den, min_keep } => {
                    if !d.is_weights() {
                        return Err(SamplerError::NumericError);
                    }
                    proof {
                        lemma_ranked(d@);
                        if d@.len() > 2 {
                            lemma_tail_free_cut(d@, *z_num as nat, *z_den as nat, *min_keep as nat);
                        }
                    }
                    d.tail_free(*z_num, *z_den, *min_keep);
                },
                Stage::Penalties { params, history } => {
                    let ghost before = d@;
                    if apply_penalties(&mut d, history, params).is_err() {
                        assert(self@[i as int] == self.stages@[i as int]@);
                        assert(apply_stage(self@[i as int], before, draw) is None);
                        assert(run_stages(self@.skip(i as int), before, draw) is None);
                        return Err(SamplerError::NumericError);
                    }
                },
                Stage::Greedy => {
                    match d.best_entry() {
                        Some(e) => {
                            d = Distribution { entries: vec![e] };
                            assert(d@ =~= seq![e]);
                        },
                        None => {},
                    }
                },
                Stage::Dist { .. } => {
                    if !d.is_weights() {
                        return Err(SamplerError::NumericError);
                    }
                    let total = d.total_weight();
                    if total == 0 {
                        d = Distribution { entries: Vec::new() };
                        assert(d@ =~= Seq::<TokenScore>::empty());
                    } else {
                        match d.draw_entry(draw % total) {
                            Some(e) => {
                                d = Distribution { entries: vec![e] };
                                assert(d@ =~= seq![e]);
                            },
                            None => {
                                assert(false);
                            },
                        }
                    }
                },
            }
            i += 1;
        }
        assert(self@.skip(n as int) =~= Seq::<StageModel>::empty());
        if d.entries.len() == 0 {
            return Err(SamplerError::EmptyDistribution);
        }
        if n == 0 {
            return Err(SamplerError::NoSelection);
        }
        match &self.stages[n - 1] {
            Stage::Greedy => Ok(d.entries[0].id),
            Stage::Dist { .. } => Ok(d.entries[0].id),
            _ => Err(SamplerError::NoSelection),
        }
    }
}

/// The token that a special id names: none where it is negative.
pub open spec fn token_of(id: i32) -> Option<u32> {
    if id < 0 {
        None
    } else {
        Some(id as u32)
    }
}

fn to_token(id: i32) -> (r: Option<u32>)
    ensures
        r == token_of(id),
{
    if id < 0 {
        None
    } else {
        Some(id as u32)
    }
}

} // verus!
