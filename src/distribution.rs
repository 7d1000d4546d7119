use vstd::prelude::*;
use vstd::relations::{sorted_by, total_ordering};
use vstd::seq_lib::lemma_sorted_unique;

verus! {

/// One candidate of a sampling step: a token id and its score.
///
/// Scores are fixed-point logits: the caller picks the scale, and every
/// stage only compares, adds or subtracts them, so the scale never matters.
#[derive(Clone, Copy, Debug, PartialEq, Eq, Structural)]
pub struct TokenScore {
    pub id: u32,
    pub value: i64,
}

/// `a` ranks at or before `b`: the higher score first, the lower id on a tie.
pub open spec fn ranks_before(a: TokenScore, b: TokenScore) -> bool {
    a.value > b.value || (a.value == b.value && a.id <= b.id)
}

/// The ranking order as a relation, for `sort_by` and `sorted_by`.
pub open spec fn rank_order() -> spec_fn(TokenScore, TokenScore) -> bool {
    |a: TokenScore, b: TokenScore| ranks_before(a, b)
}

/// The candidates in ranking order: scores descending, ids ascending on ties.
pub open spec fn ranked(s: Seq<TokenScore>) -> Seq<TokenScore> {
    s.sort_by(rank_order())
}

/// The ranking order is a total order on candidates.
pub proof fn lemma_rank_order_total()
    ensures
        total_ordering(rank_order()),
{
    assert forall|a: TokenScore, b: TokenScore|
        #[trigger] rank_order()(a, b) && #[trigger] rank_order()(b, a) implies a == b by {}
}

/// What `ranked` gives: a sorted rearrangement of the same candidates.
pub proof fn lemma_ranked(s: Seq<TokenScore>)
    ensures
        sorted_by(ranked(s), rank_order()),
        ranked(s).to_multiset() == s.to_multiset(),
        ranked(s).len() == s.len(),
{
    lemma_rank_order_total();
    s.lemma_sort_by_ensures(rank_order());
    broadcast use vstd::seq_lib::group_to_multiset_ensures;
    assert(ranked(s).len() == ranked(s).to_multiset().len());
    assert(s.len() == s.to_multiset().len());
}

/// A sorted rearrangement of `s` is `ranked(s)` itself.
pub proof fn lemma_ranked_unique(s: Seq<TokenScore>, t: Seq<TokenScore>)
    requires
        sorted_by(t, rank_order()),
        t.to_multiset() == s.to_multiset(),
    ensures
        t == ranked(s),
{
    lemma_ranked(s);
    lemma_rank_order_total();
    lemma_sorted_unique(t, ranked(s), rank_order());
}

/// Whether `a` ranks at or before `b`.
pub fn ranks_at_or_before(a: &TokenScore, b: &TokenScore) -> (r: bool)
    ensures
        r == ranks_before(*a, *b),
{
    a.value > b.value || (a.value == b.value && a.id <= b.id)
}

/// The number of candidates that top-k keeps out of `n`.
pub open spec fn top_k_count(k: nat, n: nat) -> nat {
    if k < n { k } else { n }
}

/// Keeping the top `k` of a ranking keeps `min(k, n)` candidates, each at
/// least as good as every candidate let go, and lets go of the rest only.
pub proof fn lemma_top_k_keeps_best(s: Seq<TokenScore>, k: nat)
    ensures
        ranked(s).take(top_k_count(k, s.len()) as int).len() == top_k_count(k, s.len()),
        ranked(s).take(top_k_count(k, s.len()) as int).to_multiset().add(
            ranked(s).skip(top_k_count(k, s.len()) as int).to_multiset(),
        ) == s.to_multiset(),
        forall|i: int, j: int|
            #![trigger ranked(s)[i], ranked(s)[j]]
            0 <= i < top_k_count(k, s.len()) <= j < s.len() ==> ranked(s)[i].value
                >= ranked(s)[j].value,
{
    lemma_ranked(s);
    let m = top_k_count(k, s.len()) as int;
    let r = ranked(s);
    assert(r == r.take(m) + r.skip(m));
    vstd::seq_lib::lemma_multiset_commutative(r.take(m), r.skip(m));
    assert forall|i: int, j: int| 0 <= i < m <= j < s.len() implies #[trigger] r[i].value >= #[trigger] r[j].value by {
        assert(rank_order()(r[i], r[j]));
    }
}

/// An entry that ranks at or before every entry heads the ranking.
pub proof fn lemma_best_is_first(s: Seq<TokenScore>, b: int)
    requires
        0 <= b < s.len(),
        forall|j: int| 0 <= j < s.len() ==> ranks_before(s[b], #[trigger] s[j]),
    ensures
        ranked(s)[0] == s[b],
{
    broadcast use vstd::seq_lib::group_to_multiset_ensures;

    lemma_ranked(s);
    let r = ranked(s);
    assert(s.to_multiset().count(r[0]) > 0) by {
        assert(r.contains(r[0]));
    }
    assert(s.contains(r[0]));
    assert(s.contains(s[b]));
    assert(r.to_multiset().count(s[b]) > 0);
    let k = choose|k: int| 0 <= k < r.len() && r[k] == s[b];
    if k > 0 {
        assert(rank_order()(r[0], r[k]));
    }
}

/// The head of a ranking has the highest score, and the lowest id among
/// the candidates that share that score.
pub proof fn lemma_first_ranks_first(s: Seq<TokenScore>)
    requires
        s.len() > 0,
    ensures
        forall|j: int|
            0 <= j < s.len() ==> ranked(s)[0].value >= #[trigger] s[j].value && (ranked(s)[0].value
                == s[j].value ==> ranked(s)[0].id <= s[j].id),
{
    broadcast use vstd::seq_lib::group_to_multiset_ensures;

    lemma_ranked(s);
    let r = ranked(s);
    assert forall|j: int| 0 <= j < s.len() implies ranks_before(r[0], #[trigger] s[j]) by {
        assert(s.contains(s[j]));
        assert(r.to_multiset().count(s[j]) > 0);
        let k = choose|k: int| 0 <= k < r.len() && r[k] == s[j];
        if k > 0 {
            assert(rank_order()(r[0], r[k]));
        }
    }
}

/// The total score of the first `m` entries.
pub open spec fn mass(s: Seq<TokenScore>, m: int) -> int
    decreases m,
{
    if m <= 0 || m > s.len() {
        0
    } else {
        mass(s, m - 1) + s[m - 1].value
    }
}

/// Whether the first `m` entries carry at least the share `num / den` of the
/// total mass.
pub open spec fn reaches_share(s: Seq<TokenScore>, m: int, num: nat, den: nat) -> bool {
    mass(s, m) * den >= num * mass(s, s.len() as int)
}

/// The length of the nucleus, searched from prefix length `m` on: the first
/// length of at least `min_keep` (and at least one) whose prefix reaches the
/// share; all of `s` where none does.
pub open spec fn nucleus_from(s: Seq<TokenScore>, num: nat, den: nat, min_keep: nat, m: nat) -> nat
    decreases s.len() - m,
{
    if m >= s.len() {
        s.len()
    } else if m + 1 >= min_keep && reaches_share(s, m + 1 as int, num, den) {
        m + 1
    } else {
        nucleus_from(s, num, den, min_keep, m + 1)
    }
}

/// How many of the ranked entries top-p keeps.
pub open spec fn nucleus_len(s: Seq<TokenScore>, num: nat, den: nat, min_keep: nat) -> nat {
    nucleus_from(ranked(s), num, den, min_keep, 0)
}

/// Whether every score is a weight: zero or more.
pub open spec fn all_weights(s: Seq<TokenScore>) -> bool {
    forall|i: int| 0 <= i < s.len() ==> 0 <= #[trigger] s[i].value
}

proof fn lemma_nucleus_from(s: Seq<TokenScore>, num: nat, den: nat, min_keep: nat, m: nat)
    requires
        m <= s.len(),
    ensures
        m <= nucleus_from(s, num, den, min_keep, m) <= s.len(),
        s.len() > m ==> nucleus_from(s, num, den, min_keep, m) >= m + 1,
        nucleus_from(s, num, den, min_keep, m) == s.len() || (nucleus_from(
            s,
            num,
            den,
            min_keep,
            m,
        ) >= min_keep && reaches_share(s, nucleus_from(s, num, den, min_keep, m) as int, num, den)),
        forall|j: int|
            m < j < nucleus_from(s, num, den, min_keep, m) && j >= min_keep ==> !reaches_share(
                s,
                j,
                num,
                den,
            ),
    decreases s.len() - m,
{
    if m < s.len() && !(m + 1 >= min_keep && reaches_share(s, m + 1 as int, num, den)) {
        lemma_nucleus_from(s, num, den, min_keep, m + 1);
    }
}

/// Top-p keeps the shortest prefix of the ranking that is at least
/// `min_keep` long and carries the share `num / den` of the mass (all of it
/// where no prefix does), and never less than one entry of a non-empty set.
pub proof fn lemma_nucleus_is_shortest(s: Seq<TokenScore>, num: nat, den: nat, min_keep: nat)
    ensures
        nucleus_len(s, num, den, min_keep) <= s.len(),
        s.len() > 0 ==> nucleus_len(s, num, den, min_keep) >= 1,
        nucleus_len(s, num, den, min_keep) == s.len() || (nucleus_len(s, num, den, min_keep)
            >= min_keep && reaches_share(
            ranked(s),
            nucleus_len(s, num, den, min_keep) as int,
            num,
            den,
        )),
        forall|j: int|
            0 < j < nucleus_len(s, num, den, min_keep) && j >= min_keep ==> !reaches_share(
                ranked(s),
                j,
                num,
                den,
            ),
{
    lemma_ranked(s);
    lemma_nucleus_from(ranked(s), num, den, min_keep, 0);
}

/// The position drawn by `r`, searched from `i` on: the first whose running
/// total passes `r`; the length of `s` where none does.
pub open spec fn drawn_from(s: Seq<TokenScore>, r: int, i: nat) -> nat
    decreases s.len() - i,
{
    if i >= s.len() {
        s.len()
    } else if r < mass(s, i + 1 as int) {
        i
    } else {
        drawn_from(s, r, i + 1)
    }
}

/// The position that a draw by weight with `r` picks.
pub open spec fn drawn_index(s: Seq<TokenScore>, r: int) -> nat {
    drawn_from(s, r, 0)
}

proof fn lemma_drawn_from(s: Seq<TokenScore>, r: int, i: nat)
    requires
        i <= s.len(),
    ensures
        i <= drawn_from(s, r, i) <= s.len(),
    decreases s.len() - i,
{
    if i < s.len() && r >= mass(s, i + 1 as int) {
        lemma_drawn_from(s, r, i + 1);
    }
}

/// A draw picks each entry exactly when `r` falls in that entry's stretch of
/// the running total, which is as long as its weight.
pub proof fn lemma_draw_in_stretch(s: Seq<TokenScore>, r: int)
    requires
        all_weights(s),
        0 <= r < mass(s, s.len() as int),
    ensures
        drawn_index(s, r) < s.len(),
        mass(s, drawn_index(s, r) as int) <= r < mass(s, drawn_index(s, r) + 1 as int),
        mass(s, drawn_index(s, r) + 1 as int) - mass(s, drawn_index(s, r) as int) == s[drawn_index(
            s,
            r,
        ) as int].value,
{
    lemma_drawn_stretch(s, r, 0);
}

proof fn lemma_drawn_stretch(s: Seq<TokenScore>, r: int, i: nat)
    requires
        all_weights(s),
        i <= s.len(),
        mass(s, i as int) <= r < mass(s, s.len() as int),
    ensures
        drawn_from(s, r, i) < s.len(),
        mass(s, drawn_from(s, r, i) as int) <= r < mass(s, drawn_from(s, r, i) + 1 as int),
    decreases s.len() - i,
{
    if i < s.len() && r >= mass(s, i + 1 as int) {
        lemma_drawn_stretch(s, r, i + 1);
    }
}

proof fn lemma_mass_monotone(s: Seq<TokenScore>, a: int, b: int)
    requires
        all_weights(s),
        0 <= a <= b <= s.len(),
    ensures
        mass(s, a) <= mass(s, b),
    decreases b - a,
{
    if a < b {
        lemma_mass_monotone(s, a, b - 1);
    }
}

proof fn lemma_mass_bounds(s: Seq<TokenScore>, m: int)
    requires
        all_weights(s),
        0 <= m <= s.len(),
    ensures
        0 <= mass(s, m) <= m * 0x8000_0000_0000_0000,
    decreases m,
{
    if m > 0 {
        lemma_mass_bounds(s, m - 1);
    }
}

/// The length of the min-p prefix of a ranking, searched from `m` on: the
/// first position at or past `min_keep` whose weight falls below the share
/// `num / den` of the head's weight; all of `s` where none does.
pub open spec fn min_p_from(s: Seq<TokenScore>, num: nat, den: nat, min_keep: nat, m: nat) -> nat
    decreases s.len() - m,
{
    if m >= s.len() {
        s.len()
    } else if m >= min_keep && s[m as int].value * den < num * s[0].value {
        m
    } else {
        min_p_from(s, num, den, min_keep, m + 1)
    }
}

/// How many of the ranked entries min-p keeps.
pub open spec fn min_p_len(s: Seq<TokenScore>, num: nat, den: nat, min_keep: nat) -> nat {
    min_p_from(ranked(s), num, den, min_keep, 0)
}

proof fn lemma_min_p_from(s: Seq<TokenScore>, num: nat, den: nat, min_keep: nat, m: nat)
    requires
        m <= s.len(),
    ensures
        m <= min_p_from(s, num, den, min_keep, m) <= s.len(),
        forall|j: int|
            m <= j < min_p_from(s, num, den, min_keep, m) && j >= min_keep ==> #[trigger] s[j].value
                * den >= num * s[0].value,
        min_p_from(s, num, den, min_keep, m) == s.len() || (min_p_from(s, num, den, min_keep, m)
            >= min_keep && s[min_p_from(s, num, den, min_keep, m) as int].value * den < num
            * s[0].value),
    decreases s.len() - m,
{
    if m < s.len() && !(m >= min_keep && s[m as int].value * den < num * s[0].value) {
        lemma_min_p_from(s, num, den, min_keep, m + 1);
    }
}

/// Min-p keeps at least `min_keep` entries (all where there are fewer) and,
/// past those, exactly the ranked entries whose weight is at least the share
/// `num / den` of the best weight, up to the first one that falls below it.
pub proof fn lemma_min_p_keeps_heavy(s: Seq<TokenScore>, num: nat, den: nat, min_keep: nat)
    ensures
        min_p_len(s, num, den, min_keep) <= s.len(),
        min_p_len(s, num, den, min_keep) >= if min_keep < s.len() { min_keep } else { s.len() },
        forall|j: int|
            min_keep <= j < min_p_len(s, num, den, min_keep) ==> #[trigger] ranked(s)[j].value * den
                >= num * ranked(s)[0].value,
        min_p_len(s, num, den, min_keep) < s.len() ==> ranked(s)[min_p_len(
            s,
            num,
            den,
            min_keep,
        ) as int].value * den < num * ranked(s)[0].value,
{
    lemma_ranked(s);
    lemma_min_p_from(ranked(s), num, den, min_keep, 0);
}

/// The curvature of a ranking at `i`: the absolute second difference of
/// the weights at `i`, `i + 1` and `i + 2`.
pub open spec fn curvature(s: Seq<TokenScore>, i: int) -> int {
    let c = s[i].value - 2 * s[i + 1].value + s[i + 2].value;
    if c < 0 {
        -c
    } else {
        c
    }
}

/// The total curvature of the first `m` positions.
pub open spec fn curvature_mass(s: Seq<TokenScore>, m: int) -> int
    decreases m,
{
    if m <= 0 || m + 2 > s.len() {
        0
    } else {
        curvature_mass(s, m - 1) + curvature(s, m - 1)
    }
}

/// The number of leading positions of a ranking, counted from `i` on,
/// whose running curvature stays below the share `num / den` of the total:
/// the first position where it reaches the share, or `len - 2` (the number
/// of positions) where none does.
pub open spec fn tail_below_from(s: Seq<TokenScore>, num: nat, den: nat, i: nat) -> nat
    decreases s.len() - i,
{
    if i + 2 >= s.len() {
        i
    } else if curvature_mass(s, i + 1 as int) * den >= num * curvature_mass(s, s.len() - 2) {
        i
    } else {
        tail_below_from(s, num, den, i + 1)
    }
}

/// `min_keep`, capped at the length of `s`.
pub open spec fn keep_floor(s: Seq<TokenScore>, min_keep: nat) -> nat {
    if min_keep < s.len() {
        min_keep
    } else {
        s.len()
    }
}

/// How many entries of a ranking of more than two tail-free sampling keeps:
/// the positions whose running curvature share is below the bound, and never
/// fewer than `min_keep`. A ranking without curvature is kept whole.
pub open spec fn tail_keep(s: Seq<TokenScore>, num: nat, den: nat, min_keep: nat) -> nat {
    if curvature_mass(s, s.len() - 2) == 0 {
        s.len()
    } else if tail_below_from(s, num, den, 0) < keep_floor(s, min_keep) {
        keep_floor(s, min_keep)
    } else {
        tail_below_from(s, num, den, 0)
    }
}

/// How many entries tail-free sampling keeps of a set of more than two.
pub open spec fn tail_free_len(s: Seq<TokenScore>, num: nat, den: nat, min_keep: nat) -> nat {
    tail_keep(ranked(s), num, den, min_keep)
}

proof fn lemma_tail_below_from(s: Seq<TokenScore>, num: nat, den: nat, i: nat)
    requires
        i + 2 <= s.len(),
    ensures
        i <= tail_below_from(s, num, den, i) <= s.len() - 2,
        forall|k: int|
            i <= k < tail_below_from(s, num, den, i) ==> #[trigger] curvature_mass(s, k + 1) * den
                < num * curvature_mass(s, s.len() - 2),
        tail_below_from(s, num, den, i) < s.len() - 2 ==> curvature_mass(
            s,
            tail_below_from(s, num, den, i) + 1 as int,
        ) * den >= num * curvature_mass(s, s.len() - 2),
    decreases s.len() - i,
{
    if i + 2 < s.len() && !(curvature_mass(s, i + 1 as int) * den >= num * curvature_mass(
        s,
        s.len() - 2,
    )) {
        lemma_tail_below_from(s, num, den, i + 1);
    }
}

/// Tail-free sampling on a ranking of more than two keeps at least
/// `min_keep` entries (all where there are fewer); past that floor it keeps
/// exactly the leading positions whose running curvature share is below
/// `num / den`, and stops at the first one that reaches it. A ranking
/// without curvature is kept whole.
pub proof fn lemma_tail_free_cut(s: Seq<TokenScore>, num: nat, den: nat, min_keep: nat)
    requires
        s.len() > 2,
    ensures
        keep_floor(s, min_keep) <= tail_free_len(s, num, den, min_keep) <= s.len(),
        curvature_mass(ranked(s), s.len() - 2) == 0 ==> tail_free_len(s, num, den, min_keep)
            == s.len(),
        curvature_mass(ranked(s), s.len() - 2) > 0 ==> forall|k: int|
            keep_floor(s, min_keep) <= k < tail_free_len(s, num, den, min_keep) ==> #[trigger] curvature_mass(
                ranked(s),
                k + 1,
            ) * den < num * curvature_mass(ranked(s), s.len() - 2),
        curvature_mass(ranked(s), s.len() - 2) > 0 && keep_floor(s, min_keep) < tail_free_len(
            s,
            num,
            den,
            min_keep,
        ) < s.len() - 2 ==> curvature_mass(ranked(s), tail_free_len(s, num, den, min_keep) + 1 as int)
            * den >= num * curvature_mass(ranked(s), s.len() - 2),
{
    lemma_ranked(s);
    lemma_tail_below_from(ranked(s), num, den, 0);
}

/// Ranking weights gives weights.
pub proof fn lemma_ranked_weights(s: Seq<TokenScore>)
    requires
        all_weights(s),
    ensures
        all_weights(ranked(s)),
{
    broadcast use vstd::seq_lib::group_to_multiset_ensures;

    lemma_ranked(s);
    let r = ranked(s);
    assert forall|i: int| 0 <= i < r.len() implies 0 <= #[trigger] r[i].value by {
        assert(r.contains(r[i]));
        assert(s.to_multiset().count(r[i]) > 0);
        assert(s.contains(r[i]));
    }
}

proof fn lemma_curvature_bounds(s: Seq<TokenScore>, m: int)
    requires
        all_weights(s),
        0 <= m,
        m + 2 <= s.len(),
    ensures
        0 <= curvature_mass(s, m) <= m * 0x1_0000_0000_0000_0000,
    decreases m,
{
    if m > 0 {
        lemma_curvature_bounds(s, m - 1);
    }
}

/// The entries for a vector of logits: one per index, the index as its id.
pub open spec fn logits_entries(scores: Seq<i64>) -> Seq<TokenScore> {
    Seq::new(scores.len(), |i: int| TokenScore { id: i as u32, value: scores[i] })
}

/// The working set of candidates for one sampling step.
pub struct Distribution {
    pub entries: Vec<TokenScore>,
}

impl View for Distribution {
    type V = Seq<TokenScore>;

    open spec fn view(&self) -> Seq<TokenScore> {
        self.entries@
    }
}

impl Distribution {
    /// One candidate per vocabulary id, the id being the logit's index.
    pub fn from_logits(scores: &Vec<i64>) -> (r: Distribution)
        requires
            scores@.len() <= u32::MAX,
        ensures
            r@ == logits_entries(scores@),
    {
        let mut entries: Vec<TokenScore> = Vec::with_capacity(scores.len());
        let mut i: usize = 0;
        while i < scores.len()
            invariant
                i <= scores@.len() <= u32::MAX,
                entries@ == logits_entries(scores@).take(i as int),
            decreases scores@.len() - i,
        {
            entries.push(TokenScore { id: i as u32, value: scores[i] });
            i += 1;
            assert(entries@ =~= logits_entries(scores@).take(i as int));
        }
        assert(entries@ =~= logits_entries(scores@));
        Distribution { entries }
    }

    /// Puts the entries in ranking order: scores descending, ids ascending on ties.
    pub fn sort_descending(&mut self)
        ensures
            final(self)@ == ranked(old(self)@),
    {
        let n = self.entries.len();
        let mut out: Vec<TokenScore> = Vec::with_capacity(n);
        let mut i: usize = 0;
        proof {
            broadcast use vstd::seq_lib::group_to_multiset_ensures;
            assert(out@.to_multiset().len() == 0);
            assert(self.entries@.take(0).to_multiset().len() == 0);
        }
        while i < n
            invariant
                n == self.entries@.len(),
                i <= n,
                sorted_by(out@, rank_order()),
                out@.to_multiset() == self.entries@.take(i as int).to_multiset(),
            decreases n - i,
        {
            let e = self.entries[i];
            let mut j: usize = 0;
            while j < out.len() && ranks_at_or_before(&out[j], &e)
                invariant
                    j <= out@.len(),
                    forall|a: int| 0 <= a < j ==> ranks_before(#[trigger] out@[a], e),
                decreases out@.len() - j,
            {
                j += 1;
            }
            let ghost before = out@;
            out.insert(j, e);
            assert forall|a: int, b: int| 0 <= a < b < out@.len() implies #[trigger] rank_order()(
                out@[a],
                out@[b],
            ) by {
                if b < j {
                    assert(rank_order()(before[a], before[b]));
                } else if b == j {
                } else if a < j {
                    assert(rank_order()(before[a], before[b - 1]));
                } else if a == j {
                    assert(rank_order()(before[j as int], before[b - 1]) || b - 1 == j);
                } else {
                    assert(rank_order()(before[a - 1], before[b - 1]));
                }
            }
            assert(self.entries@.take(i + 1) == self.entries@.take(i as int).push(e));
            proof {
                vstd::seq_lib::to_multiset_insert(before, j as int, e);
                vstd::seq_lib::to_multiset_build(self.entries@.take(i as int), e);
            }
            assert(out@.to_multiset() == before.insert(j as int, e).to_multiset());
            i += 1;
        }
        assert(self.entries@.take(n as int) == self.entries@);
        proof {
            lemma_ranked_unique(self.entries@, out@);
        }
        self.entries = out;
    }

    /// Keeps the `k` best-ranked entries (all of them where there are fewer),
    /// in ranking order.
    pub fn top_k(&mut self, k: usize)
        ensures
            final(self)@ == ranked(old(self)@).take(top_k_count(k as nat, old(self)@.len()) as int),
    {
        self.sort_descending();
        proof {
            lemma_ranked(old(self)@);
        }
        if k < self.entries.len() {
            self.entries.truncate(k);
        }
        assert(self@ =~= ranked(old(self)@).take(top_k_count(k as nat, old(self)@.len()) as int));
    }

    /// The best-ranked entry: the highest score, the lowest id on a tie;
    /// `None` where there is no entry.
    pub fn best_entry(&self) -> (r: Option<TokenScore>)
        ensures
            self@.len() == 0 ==> r is None,
            self@.len() > 0 ==> r == Some(ranked(self@)[0]),
    {
        if self.entries.len() == 0 {
            return None;
        }
        let mut best: usize = 0;
        let mut i: usize = 1;
        while i < self.entries.len()
            invariant
                0 <= best < i <= self@.len(),
                forall|j: int| 0 <= j < i ==> ranks_before(self@[best as int], #[trigger] self@[j]),
            decreases self@.len() - i,
        {
            if !ranks_at_or_before(&self.entries[best], &self.entries[i]) {
                best = i;
            }
            i += 1;
        }
        proof {
            lemma_best_is_first(self@, best as int);
        }
        Some(self.entries[best])
    }

    /// The id of the best-ranked entry; `None` where there is no entry.
    pub fn greedy(&self) -> (r: Option<u32>)
        ensures
            self@.len() == 0 ==> r is None,
            self@.len() > 0 ==> r == Some(ranked(self@)[0].id),
    {
        match self.best_entry() {
            Some(e) => Some(e.id),
            None => None,
        }
    }

    /// Nucleus cut over probability weights: keeps, in ranking order, the
    /// shortest prefix of at least `min_keep` entries whose mass reaches the
    /// share `p_num / p_den` of the whole; all entries where none does.
    pub fn top_p(&mut self, p_num: u32, p_den: u32, min_keep: usize)
        requires
            all_weights(old(self)@),
            old(self)@.len() <= u32::MAX,
        ensures
            final(self)@ == ranked(old(self)@).take(
                nucleus_len(old(self)@, p_num as nat, p_den as nat, min_keep as nat) as int,
            ),
    {
        self.sort_descending();
        let ghost s = self@;
        proof {
            lemma_ranked(old(self)@);
            lemma_ranked_weights(old(self)@);
            lemma_nucleus_from(s, p_num as nat, p_den as nat, min_keep as nat, 0);
        }
        let n = self.entries.len();
        let mut total: u128 = 0;
        let mut i: usize = 0;
        while i < n
            invariant
                n == s.len() <= u32::MAX,
                self@ == s,
                all_weights(s),
                i <= n,
                total == mass(s, i as int),
            decreases n - i,
        {
            proof {
                lemma_mass_bounds(s, i as int);
                assert(i * 0x8000_0000_0000_0000 <= 0xffff_ffff * 0x8000_0000_0000_0000)
                    by (nonlinear_arith)
                    requires
                        i <= 0xffff_ffff,
                ;
            }
            total = total + self.entries[i].value as u128;
            i += 1;
        }
        proof {
            lemma_mass_bounds(s, n as int);
            assert(n * 0x8000_0000_0000_0000 <= 0xffff_ffff * 0x8000_0000_0000_0000)
                by (nonlinear_arith)
                requires
                    n <= 0xffff_ffff,
            ;
        }
        assert(p_num * total <= 0xffff_ffff * (0xffff_ffff * 0x8000_0000_0000_0000))
            by (nonlinear_arith)
            requires
                p_num <= 0xffff_ffff,
                total <= 0xffff_ffff * 0x8000_0000_0000_0000,
        ;
        let target: u128 = p_num as u128 * total;
        let mut keep: usize = n;
        let mut cum: u128 = 0;
        let mut j: usize = 0;
        while j < n
            invariant_except_break
                cum == mass(s, j as int),
                keep == n,
            invariant
                n == s.len() <= u32::MAX,
                self@ == s,
                all_weights(s),
                j <= n,
                total == mass(s, n as int) <= n * 0x8000_0000_0000_0000,
                target == p_num * mass(s, n as int),
                nucleus_from(s, p_num as nat, p_den as nat, min_keep as nat, 0) == nucleus_from(
                    s,
                    p_num as nat,
                    p_den as nat,
                    min_keep as nat,
                    j as nat,
                ),
            ensures
                keep == nucleus_from(s, p_num as nat, p_den as nat, min_keep as nat, 0),
            decreases n - j,
        {
            proof {
                lemma_mass_bounds(s, j + 1);
                assert((j + 1) * 0x8000_0000_0000_0000 <= 0xffff_ffff * 0x8000_0000_0000_0000)
                    by (nonlinear_arith)
                    requires
                        j + 1 <= 0xffff_ffff,
                ;
            }
            cum = cum + self.entries[j].value as u128;
            assert(cum * p_den <= (0xffff_ffff * 0x8000_0000_0000_0000) * 0xffff_ffff)
                by (nonlinear_arith)
                requires
                    p_den <= 0xffff_ffff,
                    cum <= 0xffff_ffff * 0x8000_0000_0000_0000,
            ;
            let reached = cum * (p_den as u128) >= target;
            if j + 1 >= min_keep && reached {
                keep = j + 1;
                break;
            }
            j += 1;
        }
        self.entries.truncate(keep);
        assert(self@ =~= s.take(keep as int));
    }

    /// Min-p cut over probability weights: keeps, in ranking order, the
    /// entries whose weight is at least `p_num / p_den` of the best weight,
    /// and never fewer than `min_keep` (all where there are fewer).
    pub fn min_p(&mut self, p_num: u32, p_den: u32, min_keep: usize)
        requires
            all_weights(old(self)@),
        ensures
            final(self)@ == ranked(old(self)@).take(
                min_p_len(old(self)@, p_num as nat, p_den as nat, min_keep as nat) as int,
            ),
    {
        self.sort_descending();
        let ghost s = self@;
        proof {
            lemma_ranked(old(self)@);
            lemma_ranked_weights(old(self)@);
            lemma_min_p_from(s, p_num as nat, p_den as nat, min_keep as nat, 0);
        }
        let n = self.entries.len();
        if n == 0 {
            return;
        }
        let head = self.entries[0].value as u128;
        assert(p_num * head <= 0xffff_ffff * 0x8000_0000_0000_0000) by (nonlinear_arith)
            requires
                p_num <= 0xffff_ffff,
                head <= 0x8000_0000_0000_0000,
        ;
        let bar: u128 = p_num as u128 * head;
        let mut keep: usize = n;
        let mut j: usize = 0;
        while j < n
            invariant_except_break
                keep == n,
            invariant
                n == s.len(),
                n > 0,
                self@ == s,
                all_weights(s),
                j <= n,
                bar == p_num * s[0].value,
                min_p_from(s, p_num as nat, p_den as nat, min_keep as nat, 0) == min_p_from(
                    s,
                    p_num as nat,
                    p_den as nat,
                    min_keep as nat,
                    j as nat,
                ),
            ensures
                keep == min_p_from(s, p_num as nat, p_den as nat, min_keep as nat, 0),
            decreases n - j,
        {
            let w = self.entries[j].value as u128;
            assert(w * p_den <= 0x8000_0000_0000_0000 * 0xffff_ffff) by (nonlinear_arith)
                requires
                    p_den <= 0xffff_ffff,
                    w <= 0x8000_0000_0000_0000,
            ;
            if j >= min_keep && w * (p_den as u128) < bar {
                keep = j;
                break;
            }
            j += 1;
        }
        self.entries.truncate(keep);
        assert(self@ =~= s.take(keep as int));
    }

    /// Tail-free cut over probability weights: in ranking order, keeps the
    /// leading positions whose accumulated curvature stays below the share
    /// `z_num / z_den` of the total, and never fewer than `min_keep` entries.
    /// A set of two entries or fewer, a share of one or more, or a ranking
    /// without curvature is only put in ranking order.
    pub fn tail_free(&mut self, z_num: u32, z_den: u32, min_keep: usize)
        requires
            all_weights(old(self)@),
            old(self)@.len() <= u32::MAX,
        ensures
            (z_num >= z_den || old(self)@.len() <= 2) ==> final(self)@ == ranked(old(self)@),
            !(z_num >= z_den || old(self)@.len() <= 2) ==> final(self)@ == ranked(old(self)@).take(
                tail_free_len(old(self)@, z_num as nat, z_den as nat, min_keep as nat) as int,
            ),
    {
        self.sort_descending();
        if z_num >= z_den || self.entries.len() <= 2 {
            proof {
                lemma_ranked(old(self)@);
            }
            return;
        }
        let ghost s = self@;
        proof {
            lemma_ranked(old(self)@);
            lemma_ranked_weights(old(self)@);
        }
        let n = self.entries.len();
        let mut total: u128 = 0;
        let mut i: usize = 0;
        while i + 2 < n
            invariant
                n == s.len() <= u32::MAX,
                n > 2,
                self@ == s,
                all_weights(s),
                i + 2 <= n,
                total == curvature_mass(s, i as int),
            decreases n - i,
        {
            proof {
                lemma_curvature_bounds(s, i as int);
                assert(i * 0x1_0000_0000_0000_0000 <= 0xffff_ffff * 0x1_0000_0000_0000_0000)
                    by (nonlinear_arith)
                    requires
                        i <= 0xffff_ffff,
                ;
            }
            total = total + self.curvature_at(i);
            i += 1;
        }
        proof {
            lemma_curvature_bounds(s, n - 2);
            assert((n - 2) * 0x1_0000_0000_0000_0000 <= 0xffff_ffff * 0x1_0000_0000_0000_0000)
                by (nonlinear_arith)
                requires
                    n <= 0xffff_ffff,
                    n >= 2,
            ;
            assert(z_num * total <= 0xffff_ffff * (0xffff_ffff * 0x1_0000_0000_0000_0000))
                by (nonlinear_arith)
                requires
                    z_num <= 0xffff_ffff,
                    total <= 0xffff_ffff * 0x1_0000_0000_0000_0000,
            ;
        }
        if total == 0 {
            return;
        }
        let bar: u128 = z_num as u128 * total;
        proof {
            lemma_tail_below_from(s, z_num as nat, z_den as nat, 0);
        }
        let mut below: usize = n - 2;
        let mut cum: u128 = 0;
        let mut j: usize = 0;
        while j + 2 < n
            invariant_except_break
                cum == curvature_mass(s, j as int),
                below == n - 2,
            invariant
                n == s.len() <= u32::MAX,
                n > 2,
                self@ == s,
                all_weights(s),
                j + 2 <= n,
                bar == z_num * curvature_mass(s, n - 2),
                tail_below_from(s, z_num as nat, z_den as nat, 0) == tail_below_from(
                    s,
                    z_num as nat,
                    z_den as nat,
                    j as nat,
                ),
            ensures
                below == tail_below_from(s, z_num as nat, z_den as nat, 0),
            decreases n - j,
        {
            proof {
                lemma_curvature_bounds(s, j + 1);
                assert((j + 1) * 0x1_0000_0000_0000_0000 <= 0xffff_ffff * 0x1_0000_0000_0000_0000)
                    by (nonlinear_arith)
                    requires
                        j + 1 <= 0xffff_ffff,
                ;
            }
            cum = cum + self.curvature_at(j);
            assert(cum * z_den <= (0xffff_ffff * 0x1_0000_0000_0000_0000) * 0xffff_ffff)
                by (nonlinear_arith)
                requires
                    z_den <= 0xffff_ffff,
                    cum <= 0xffff_ffff * 0x1_0000_0000_0000_0000,
            ;
            if cum * (z_den as u128) >= bar {
                below = j;
                break;
            }
            j += 1;
        }
        let floor: usize = if min_keep < n {
            min_keep
        } else {
            n
        };
        let keep: usize = if below < floor {
            floor
        } else {
            below
        };
        self.entries.truncate(keep);
        assert(self@ =~= s.take(keep as int));
    }

    fn curvature_at(&self, i: usize) -> (r: u128)
        requires
            i + 2 < self@.len() <= u32::MAX,
            all_weights(self@),
        ensures
            r == curvature(self@, i as int),
    {
        let a = self.entries[i].value as i128;
        let b = self.entries[i + 1].value as i128;
        let c = self.entries[i + 2].value as i128;
        let d = a - 2 * b + c;
        if d < 0 {
            (-d) as u128
        } else {
            d as u128
        }
    }

    /// The total weight of the entries.
    pub fn total_weight(&self) -> (r: u128)
        requires
            all_weights(self@),
            self@.len() <= u32::MAX,
        ensures
            r == mass(self@, self@.len() as int),
    {
        let n = self.entries.len();
        let mut total: u128 = 0;
        let mut i: usize = 0;
        while i < n
            invariant
                n == self@.len() <= u32::MAX,
                all_weights(self@),
                i <= n,
                total == mass(self@, i as int),
            decreases n - i,
        {
            proof {
                lemma_mass_bounds(self@, i + 1);
                assert((i + 1) * 0x8000_0000_0000_0000 <= 0xffff_ffff * 0x8000_0000_0000_0000)
                    by (nonlinear_arith)
                    requires
                        i + 1 <= 0xffff_ffff,
                ;
            }
            total = total + self.entries[i].value as u128;
            i += 1;
        }
        total
    }

    /// The entry drawn by weight with a number `r` picked uniformly below the
    /// total weight: the one whose stretch of the running total holds `r`, so
    /// that each is drawn in proportion to its weight. `None` where `r` is
    /// not below the total.
    pub fn draw_entry(&self, r: u128) -> (res: Option<TokenScore>)
        requires
            all_weights(self@),
            self@.len() <= u32::MAX,
        ensures
            res is Some <==> r < mass(self@, self@.len() as int),
            res is Some ==> res == Some(self@[drawn_index(self@, r as int) as int]),
    {
        let n = self.entries.len();
        let mut cum: u128 = 0;
        let mut i: usize = 0;
        proof {
            lemma_drawn_from(self@, r as int, 0);
        }
        while i < n
            invariant
                n == self@.len() <= u32::MAX,
                all_weights(self@),
                i <= n,
                cum == mass(self@, i as int),
                cum <= r,
                drawn_index(self@, r as int) == drawn_from(self@, r as int, i as nat),
            decreases n - i,
        {
            proof {
                lemma_mass_bounds(self@, i + 1);
                assert((i + 1) * 0x8000_0000_0000_0000 <= 0xffff_ffff * 0x8000_0000_0000_0000)
                    by (nonlinear_arith)
                    requires
                        i + 1 <= 0xffff_ffff,
                ;
            }
            let next = cum + self.entries[i].value as u128;
            if r < next {
                proof {
                    lemma_mass_monotone(self@, i + 1, n as int);
                }
                return Some(self.entries[i]);
            }
            cum = next;
            i += 1;
        }
        None
    }

    /// The id of the entry drawn by weight with `r` (see `draw_entry`).
    pub fn draw(&self, r: u128) -> (res: Option<u32>)
        requires
            all_weights(self@),
            self@.len() <= u32::MAX,
        ensures
            res is Some <==> r < mass(self@, self@.len() as int),
            res is Some ==> res == Some(self@[drawn_index(self@, r as int) as int].id),
    {
        match self.draw_entry(r) {
            Some(e) => Some(e.id),
            None => None,
        }
    }

    /// Whether every score is a weight (zero or more).
    pub fn is_weights(&self) -> (r: bool)
        ensures
            r == all_weights(self@),
    {
        let mut i: usize = 0;
        while i < self.entries.len()
            invariant
                i <= self@.len(),
                forall|j: int| 0 <= j < i ==> 0 <= #[trigger] self@[j].value,
            decreases self@.len() - i,
        {
            if self.entries[i].value < 0 {
                return false;
            }
            i += 1;
        }
        true
    }

    pub fn len(&self) -> (r: usize)
        ensures
            r == self@.len(),
    {
        self.entries.len()
    }

    pub fn is_empty(&self) -> (r: bool)
        ensures
            r == (self@.len() == 0),
    {
        self.entries.len() == 0
    }
}

} // verus!
