use vstd::prelude::*;
use crate::distribution::{Distribution, TokenScore};

verus! {

/// Temperatures are given in thousandths: 1000 leaves scores as they are.
pub const TEMPERATURE_SCALE: u32 = 1000;

/// A score divided by the temperature, rounded toward zero.
pub open spec fn tempered(v: int, temp: nat) -> int {
    if v >= 0 {
        (v * (TEMPERATURE_SCALE as int)) / (temp as int)
    } else {
        -((-v * (TEMPERATURE_SCALE as int)) / (temp as int))
    }
}

/// Whether dividing every score by `temp` is defined and fits the score type.
pub open spec fn temperature_fits(d: Seq<TokenScore>, temp: nat) -> bool {
    temp > 0 && forall|i: int|
        0 <= i < d.len() ==> i64::MIN <= #[trigger] tempered(d[i].value as int, temp) <= i64::MAX
}

/// The entries with every score divided by `temp`, in the same order.
pub open spec fn tempered_entries(d: Seq<TokenScore>, temp: nat) -> Seq<TokenScore> {
    Seq::new(
        d.len(),
        |i: int| TokenScore { id: d[i].id, value: tempered(d[i].value as int, temp) as i64 },
    )
}

fn tempered_value(v: i64, temp: u32) -> (r: i128)
    requires
        temp > 0,
    ensures
        r == tempered(v as int, temp as nat),
{
    let scale = TEMPERATURE_SCALE as i128;
    let t = temp as i128;
    if v >= 0 {
        let w = (v as i128) * scale;
        let q = w / t;
        assert(0 <= q <= w) by (nonlinear_arith)
            requires
                q == (w as int) / (t as int),
                t >= 1,
                w >= 0,
        ;
        q
    } else {
        let w = (-(v as i128)) * scale;
        let q = w / t;
        assert(0 <= q <= w) by (nonlinear_arith)
            requires
                q == (w as int) / (t as int),
                t >= 1,
                w >= 0,
        ;
        -q
    }
}

/// Divides every score by the temperature `temp` (in thousandths).
///
/// Fails with the distribution untouched where `temp` is zero or a score
/// would leave the score type.
pub fn apply_temperature(d: &mut Distribution, temp: u32) -> (r: Result<(), ()>)
    ensures
        r is Ok <==> temperature_fits(old(d)@, temp as nat),
        r is Ok ==> final(d)@ == tempered_entries(old(d)@, temp as nat),
        r is Err ==> final(d)@ == old(d)@,
{
    if temp == 0 {
        return Err(());
    }
    let n = d.entries.len();
    let mut out: Vec<TokenScore> = Vec::with_capacity(n);
    let mut i: usize = 0;
    while i < n
        invariant
            n == d@.len(),
            i <= n,
            temp > 0,
            temperature_fits(d@.take(i as int), temp as nat),
            out@ == tempered_entries(d@.take(i as int), temp as nat),
        decreases n - i,
    {
        let e = d.entries[i];
        let v = tempered_value(e.value, temp);
        if v < i64::MIN as i128 || v > i64::MAX as i128 {
            assert(!temperature_fits(d@, temp as nat)) by {
                assert(tempered(d@[i as int].value as int, temp as nat) == v);
            }
            return Err(());
        }
        out.push(TokenScore { id: e.id, value: v as i64 });
        proof {
            let t = d@.take(i + 1);
            assert forall|j: int| 0 <= j < t.len() implies i64::MIN <= #[trigger] tempered(
                t[j].value as int,
                temp as nat,
            ) <= i64::MAX by {
                if j < i {
                    assert(t[j] == d@.take(i as int)[j]);
                }
            }
        }
        i += 1;
        assert(out@ =~= tempered_entries(d@.take(i as int), temp as nat));
    }
    assert(d@.take(n as int) == d@);
    d.entries = out;
    Ok(())
}

} // verus!
