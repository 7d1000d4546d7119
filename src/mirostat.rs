use vstd::prelude::*;

verus! {

/// The surprise target `mu` of an entropy-targeting stage.
///
/// `tau` and observed surprises are in thousandths of a bit, `eta` in
/// thousandths, and `mu` in millionths of a bit, so that every update is
/// exact: `mu += eta * (tau - surprise)`.
pub struct MirostatTracker {
    tau: i64,
    eta: u32,
    mu: i128,
}

/// The starting target: twice `tau`, in millionths.
pub open spec fn initial_mu(tau: int) -> int {
    2 * tau * 1000
}

/// The target after a token with surprise `surprise` is accepted.
pub open spec fn updated_mu(mu: int, tau: int, eta: int, surprise: int) -> int {
    mu + eta * (tau - surprise)
}

impl MirostatTracker {
    pub closed spec fn spec_tau(&self) -> int {
        self.tau as int
    }

    pub closed spec fn spec_eta(&self) -> int {
        self.eta as int
    }

    pub closed spec fn spec_mu(&self) -> int {
        self.mu as int
    }

    /// A tracker for target `tau` and learning rate `eta`, at its start.
    pub fn new(tau: i64, eta: u32) -> (r: Self)
        ensures
            r.spec_tau() == tau,
            r.spec_eta() == eta,
            r.spec_mu() == initial_mu(tau as int),
    {
        MirostatTracker { tau, eta, mu: 2 * (tau as i128) * 1000 }
    }

    /// The current target, in millionths of a bit.
    pub fn mu(&self) -> (r: i128)
        ensures
            r == self.spec_mu(),
    {
        self.mu
    }

    /// Moves the target toward `tau` after a token with the given surprise
    /// was accepted. Fails, leaving the target as it was, where the new target
    /// would leave the range of `i128`.
    pub fn update(&mut self, surprise: i64) -> (r: Result<(), ()>)
        ensures
            final(self).spec_tau() == old(self).spec_tau(),
            final(self).spec_eta() == old(self).spec_eta(),
            r is Ok <==> i128::MIN <= updated_mu(
                old(self).spec_mu(),
                old(self).spec_tau(),
                old(self).spec_eta(),
                surprise as int,
            ) <= i128::MAX,
            r is Ok ==> final(self).spec_mu() == updated_mu(
                old(self).spec_mu(),
                old(self).spec_tau(),
                old(self).spec_eta(),
                surprise as int,
            ),
            r is Err ==> final(self).spec_mu() == old(self).spec_mu(),
    {
        let diff = self.tau as i128 - surprise as i128;
        let e = self.eta as i128;
        assert(-0xffff_ffff * 0x1_0000_0000_0000_0000 <= e * diff <= 0xffff_ffff
            * 0x1_0000_0000_0000_0000) by (nonlinear_arith)
            requires
                0 <= e <= 0xffff_ffff,
                -0x1_0000_0000_0000_0000 <= diff <= 0x1_0000_0000_0000_0000,
        ;
        match self.mu.checked_add(e * diff) {
            Some(m) => {
                self.mu = m;
                Ok(())
            },
            None => Err(()),
        }
    }

    /// Puts the target back at its start.
    pub fn reset(&mut self)
        ensures
            final(self).spec_tau() == old(self).spec_tau(),
            final(self).spec_eta() == old(self).spec_eta(),
            final(self).spec_mu() == initial_mu(old(self).spec_tau()),
    {
        self.mu = 2 * (self.tau as i128) * 1000;
    }
}

} // verus!
