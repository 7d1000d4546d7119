use vstd::prelude::*;
use crate::distribution::{Distribution, TokenScore};
use crate::history::{History, occurrences};

verus! {

/// The repeat penalty is given in thousandths: 1000 leaves scores as they are.
pub const REPEAT_PENALTY_SCALE: u32 = 1000;

/// Parameters of the repetition penalty stage.
///
/// `repeat_penalty` is in thousandths and positive; `freq_penalty` and
/// `presence_penalty` are in the same fixed-point unit as the scores.
#[derive(Clone, Copy, Debug, PartialEq, Eq, Structural)]
pub struct PenaltyParams {
    pub eos_id: Option<u32>,
    pub newline_id: Option<u32>,
    pub repeat_penalty: u32,
    pub freq_penalty: i64,
    pub presence_penalty: i64,
    pub penalize_nl: bool,
    pub ignore_eos: bool,
}

/// Whether the stage leaves token `id` alone whatever the history holds.
pub open spec fn exempt(p: PenaltyParams, id: u32) -> bool {
    (!p.penalize_nl && p.newline_id == Some(id)) || (p.ignore_eos && p.eos_id == Some(id))
}

/// A score after the repeat penalty: a score at or below zero is multiplied
/// by the penalty, a positive one divided by it (both rounded toward zero).
pub open spec fn repeat_scaled(v: int, repeat_penalty: nat) -> int {
    if v <= 0 {
        -((-v * repeat_penalty) / (REPEAT_PENALTY_SCALE as int))
    } else {
        (v * (REPEAT_PENALTY_SCALE as int)) / (repeat_penalty as int)
    }
}

/// The penalized score of a token with score `v` seen `c` times in the window.
pub open spec fn penalized(p: PenaltyParams, id: u32, v: int, c: nat) -> int {
    if c == 0 || exempt(p, id) {
        v
    } else {
        repeat_scaled(v, p.repeat_penalty as nat) - p.freq_penalty * c - p.presence_penalty
    }
}

pub open spec fn penalized_entry(p: PenaltyParams, window: Seq<u32>, e: TokenScore) -> int {
    penalized(p, e.id, e.value as int, occurrences(window, e.id))
}

/// Whether every penalized score still fits the score type.
pub open spec fn penalties_fit(p: PenaltyParams, window: Seq<u32>, d: Seq<TokenScore>) -> bool {
    forall|i: int|
        0 <= i < d.len() ==> i64::MIN <= #[trigger] penalized_entry(p, window, d[i]) <= i64::MAX
}

/// The entries after the penalties, in the same order.
pub open spec fn penalties_applied(p: PenaltyParams, window: Seq<u32>, d: Seq<TokenScore>) -> Seq<
    TokenScore,
> {
    Seq::new(
        d.len(),
        |i: int| TokenScore { id: d[i].id, value: penalized_entry(p, window, d[i]) as i64 },
    )
}

fn is_exempt(p: &PenaltyParams, id: u32) -> (r: bool)
    ensures
        r == exempt(*p, id),
{
    let nl = match p.newline_id {
        Some(n) => !p.penalize_nl && n == id,
        None => false,
    };
    let eos = match p.eos_id {
        Some(e) => p.ignore_eos && e == id,
        None => false,
    };
    nl || eos
}

fn penalized_value(p: &PenaltyParams, id: u32, v: i64, c: usize) -> (r: i128)
    requires
        p.repeat_penalty > 0,
        c <= u32::MAX,
    ensures
        r == penalized(*p, id, v as int, c as nat),
{
    if c == 0 || is_exempt(p, id) {
        return v as i128;
    }
    let rp = p.repeat_penalty as i128;
    let scale = REPEAT_PENALTY_SCALE as i128;
    let scaled: i128 = if v <= 0 {
        let m = -(v as i128);
        assert(0 <= m * rp <= 0x8000_0000_0000_0000 * 0xffff_ffff) by (nonlinear_arith)
            requires
                0 <= m <= 0x8000_0000_0000_0000,
                0 < rp <= 0xffff_ffff,
        ;
        let q = m * rp / scale;
        assert(0 <= q <= m * rp) by (nonlinear_arith)
            requires
                q == (m * rp) / 1000,
                0 <= m * rp,
        ;
        -q
    } else {
        let w = (v as i128) * scale;
        let q = w / rp;
        assert(0 <= q <= w) by (nonlinear_arith)
            requires
                q == (w as int) / (rp as int),
                rp >= 1,
                w >= 0,
        ;
        q
    };
    let f = p.freq_penalty as i128;
    let ci = c as i128;
    assert(-0x8000_0000_0000_0000 * 0xffff_ffff <= f * ci <= 0x8000_0000_0000_0000 * 0xffff_ffff)
        by (nonlinear_arith)
        requires
            -0x8000_0000_0000_0000 <= f <= 0x8000_0000_0000_0000,
            0 <= ci <= 0xffff_ffff,
    ;
    scaled - f * ci - (p.presence_penalty as i128)
}

/// Applies the repetition penalties for the tokens in `history`'s window.
///
/// Fails with the distribution untouched where a penalized score would not
/// fit the score type.
pub fn apply_penalties(d: &mut Distribution, history: &History, p: &PenaltyParams) -> (r: Result<
    (),
    (),
>)
    requires
        history.wf(),
        p.repeat_penalty > 0,
    ensures
        r is Ok <==> penalties_fit(*p, history@, old(d)@),
        r is Ok ==> final(d)@ == penalties_applied(*p, history@, old(d)@),
        r is Err ==> final(d)@ == old(d)@,
{
    let n = d.entries.len();
    let mut out: Vec<TokenScore> = Vec::with_capacity(n);
    let mut i: usize = 0;
    while i < n
        invariant
            n == d@.len(),
            i <= n,
            history.wf(),
            p.repeat_penalty > 0,
            penalties_fit(*p, history@, d@.take(i as int)),
            out@ == penalties_applied(*p, history@, d@.take(i as int)),
        decreases n - i,
    {
        let e = d.entries[i];
        let c = history.count(e.id);
        proof {
            history.lemma_wf_len();
        }
        let v = penalized_value(p, e.id, e.value, c);
        if v < i64::MIN as i128 || v > i64::MAX as i128 {
            assert(!penalties_fit(*p, history@, d@)) by {
                assert(penalized_entry(*p, history@, d@[i as int]) == v);
            }
            return Err(());
        }
        out.push(TokenScore { id: e.id, value: v as i64 });
        proof {
            let t = d@.take(i + 1);
            assert(d@.take(i as int) == t.take(i as int));
            assert forall|j: int| 0 <= j < t.len() implies i64::MIN <= #[trigger] penalized_entry(
                *p,
                history@,
                t[j],
            ) <= i64::MAX by {
                if j < i {
                    assert(t[j] == d@.take(i as int)[j]);
                }
            }
        }
        i += 1;
        assert(out@ =~= penalties_applied(*p, history@, d@.take(i as int)));
    }
    assert(d@.take(n as int) == d@);
    d.entries = out;
    Ok(())
}

} // verus!
