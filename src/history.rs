use vstd::prelude::*;

verus! {

/// How many times `t` occurs in `s`.
pub open spec fn occurrences(s: Seq<u32>, t: u32) -> nat
    decreases s.len(),
{
    if s.len() == 0 {
        0
    } else {
        occurrences(s.drop_last(), t) + if s.last() == t { 1nat } else { 0nat }
    }
}

/// The last `n` items of `s` (all of `s` where it is shorter).
pub open spec fn last_n(s: Seq<u32>, n: nat) -> Seq<u32> {
    if s.len() <= n {
        s
    } else {
        s.subrange(s.len() - n, s.len() as int)
    }
}

/// The window of the last accepted tokens that a penalty stage looks at.
pub struct History {
    tokens: Vec<u32>,
    capacity: usize,
}

impl View for History {
    type V = Seq<u32>;

    closed spec fn view(&self) -> Seq<u32> {
        self.tokens@
    }
}

impl History {
    /// The number of accepted tokens that the window holds at most.
    pub closed spec fn capacity(&self) -> nat {
        self.capacity as nat
    }

    pub closed spec fn wf(&self) -> bool {
        self.tokens@.len() <= self.capacity <= u32::MAX
    }

    pub proof fn lemma_wf_len(&self)
        requires
            self.wf(),
        ensures
            self@.len() <= self.capacity() <= u32::MAX,
    {
    }

    /// An empty window of `capacity` tokens.
    pub fn new(capacity: usize) -> (r: History)
        requires
            capacity <= u32::MAX,
        ensures
            r.wf(),
            r@ == Seq::<u32>::empty(),
            r.capacity() == capacity,
    {
        History { tokens: Vec::new(), capacity }
    }

    pub fn capacity_of(&self) -> (r: usize)
        ensures
            r == self.capacity(),
    {
        self.capacity
    }

    /// Records an accepted token: the window then holds the last `capacity`
    /// tokens of what it held followed by `token`.
    pub fn accept(&mut self, token: u32)
        requires
            old(self).wf(),
        ensures
            final(self).wf(),
            final(self).capacity() == old(self).capacity(),
            final(self)@ == last_n(old(self)@.push(token), old(self).capacity()),
    {
        if self.capacity == 0 {
            assert(self@ =~= last_n(old(self)@.push(token), 0));
            return;
        }
        if self.tokens.len() == self.capacity {
            self.tokens.remove(0);
        }
        self.tokens.push(token);
        assert(self@ =~= last_n(old(self)@.push(token), old(self).capacity()));
    }

    /// Forgets every accepted token; the capacity stays.
    pub fn clear(&mut self)
        requires
            old(self).wf(),
        ensures
            final(self).wf(),
            final(self).capacity() == old(self).capacity(),
            final(self)@ == Seq::<u32>::empty(),
    {
        self.tokens.clear();
    }

    /// How many times `token` occurs in the window.
    pub fn count(&self, token: u32) -> (r: usize)
        ensures
            r == occurrences(self@, token),
            r <= self@.len(),
    {
        let mut c: usize = 0;
        let mut i: usize = 0;
        while i < self.tokens.len()
            invariant
                i <= self@.len(),
                c == occurrences(self@.take(i as int), token),
                c <= i,
            decreases self@.len() - i,
        {
            assert(self@.take(i + 1).drop_last() == self@.take(i as int));
            if self.tokens[i] == token {
                c += 1;
            }
            i += 1;
        }
        assert(self@.take(i as int) == self@);
        c
    }

    /// The tokens in the window, oldest first.
    pub fn tokens(&self) -> (r: &Vec<u32>)
        ensures
            r@ == self@,
    {
        &self.tokens
    }
}

/// The window after accepting each token of `s` in turn, from empty.
pub open spec fn replay(s: Seq<u32>, n: nat) -> Seq<u32>
    decreases s.len(),
{
    if s.len() == 0 {
        Seq::empty()
    } else {
        last_n(replay(s.drop_last(), n).push(s.last()), n)
    }
}

/// Accepting tokens one at a time from an empty window leaves exactly the
/// last `n` of them in it, whatever came before.
pub proof fn lemma_replay_is_last_n(s: Seq<u32>, n: nat)
    ensures
        replay(s, n) == last_n(s, n),
    decreases s.len(),
{
    if s.len() > 0 {
        lemma_replay_is_last_n(s.drop_last(), n);
        let p = s.drop_last();
        assert(s == p.push(s.last()));
        assert(last_n(last_n(p, n).push(s.last()), n) =~= last_n(s, n));
    }
}

/// A token accepted `m` times in a row, last, counts `min(m, n)` times in a
/// window of `n`: occurrences older than the window no longer count.
pub proof fn lemma_window_counts_recent(s: Seq<u32>, n: nat, t: u32, m: nat)
    requires
        m <= s.len(),
        m >= n,
        forall|i: int| s.len() - m <= i < s.len() ==> s[i] == t,
    ensures
        occurrences(replay(s, n), t) == if s.len() < n { s.len() } else { n },
{
    lemma_replay_is_last_n(s, n);
    lemma_all_same(last_n(s, n), t);
}

proof fn lemma_all_same(s: Seq<u32>, t: u32)
    requires
        forall|i: int| 0 <= i < s.len() ==> s[i] == t,
    ensures
        occurrences(s, t) == s.len(),
    decreases s.len(),
{
    if s.len() > 0 {
        lemma_all_same(s.drop_last(), t);
    }
}

} // verus!
