//! The coordinator of a session: every benchmark on every runner, one pair
//! at a time.
//!
//! The pairs are walked runner by runner, and for each runner benchmark by
//! benchmark. The coordinator names the pair that is due; whoever drives the
//! executions runs that pair to its end, and only then hands in what it
//! measured. A pair that measured nothing is skipped, and the pairs after it
//! are walked as if nothing had happened.

use vstd::prelude::*;
use crate::runs::Run;

verus! {

/// The runs among `outcomes`, in their order: what is left when the pairs
/// that measured nothing are dropped.
pub open spec fn kept(outcomes: Seq<Option<Run>>) -> Seq<Run>
    decreases outcomes.len(),
{
    if outcomes.len() == 0 {
        Seq::empty()
    } else {
        match outcomes.last() {
            Some(run) => kept(outcomes.drop_last()).push(run),
            None => kept(outcomes.drop_last()),
        }
    }
}

/// The place of the pair (`runner`, `benchmark`) in the walk over a matrix
/// with `benchmarks` benchmarks, counted from 0.
pub open spec fn ordinal(runner: nat, benchmark: nat, benchmarks: nat) -> nat {
    runner * benchmarks + benchmark
}

/// A session: the walk over the matrix, and the runs gathered so far.
pub struct Session {
    runners: usize,
    benchmarks: usize,
    runner: usize,
    benchmark: usize,
    runs: Vec<Run>,
    outcomes: Ghost<Seq<Option<Run>>>,
}

impl Session {
    #[verifier::type_invariant]
    spec fn consistent(self) -> bool {
        &&& self.runner <= self.runners
        &&& self.runner < self.runners ==> self.benchmark < self.benchmarks
        &&& self.runner == self.runners ==> self.benchmark == 0
        &&& self.runs@ == kept(self.outcomes@)
        &&& self.outcomes@.len() == ordinal(
            self.runner as nat,
            self.benchmark as nat,
            self.benchmarks as nat,
        )
    }

    /// How many runners the matrix has.
    pub closed spec fn runners(self) -> nat {
        self.runners as nat
    }

    /// How many benchmarks the matrix has.
    pub closed spec fn benchmarks(self) -> nat {
        self.benchmarks as nat
    }

    /// What was handed in so far, pair by pair, in the order of the walk.
    pub closed spec fn outcomes(self) -> Seq<Option<Run>> {
        self.outcomes@
    }

    /// The runs gathered so far.
    pub closed spec fn runs(self) -> Seq<Run> {
        self.runs@
    }

    /// How many pairs the matrix has.
    pub open spec fn pairs(self) -> nat {
        self.runners() * self.benchmarks()
    }

    /// Whether every pair has been handed in.
    pub open spec fn complete(self) -> bool {
        self.outcomes().len() == self.pairs()
    }

    /// A session over `runners` runners and `benchmarks` benchmarks in which
    /// nothing has run yet.
    pub fn new(runners: usize, benchmarks: usize) -> (session: Session)
        ensures
            session.runners() == runners,
            session.benchmarks() == benchmarks,
            session.outcomes() == Seq::<Option<Run>>::empty(),
            session.runs() == Seq::<Run>::empty(),
    {
        let runner: usize = if benchmarks == 0 { runners } else { 0 };
        proof {
            assert(ordinal(runner as nat, 0, benchmarks as nat) == 0) by (nonlinear_arith)
                requires
                    runner == 0 || benchmarks == 0,
            ;
        }
        Session {
            runners,
            benchmarks,
            runner,
            benchmark: 0,
            runs: Vec::new(),
            outcomes: Ghost(Seq::empty()),
        }
    }

    /// The pair that is due: the place of its runner and the place of its
    /// benchmark, each counted from 0; `None` once every pair has been handed
    /// in.
    ///
    /// The pair that is due after `n` pairs is benchmark `n % benchmarks` on
    /// runner `n / benchmarks`: all benchmarks on the first runner, then all
    /// on the second, and so on.
    pub fn current(&self) -> (pair: Option<(usize, usize)>)
        ensures
            pair is None <==> self.complete(),
            pair matches Some((runner, benchmark)) ==> {
                &&& runner < self.runners()
                &&& benchmark < self.benchmarks()
                &&& ordinal(runner as nat, benchmark as nat, self.benchmarks())
                    == self.outcomes().len()
                &&& runner == self.outcomes().len() / self.benchmarks()
                &&& benchmark == self.outcomes().len() % self.benchmarks()
            },
    {
        proof {
            use_type_invariant(self);
            let r = self.runner as int;
            let b = self.benchmark as int;
            let n = self.benchmarks as int;
            let m = self.runners as int;
            if self.runner < self.runners {
                vstd::arithmetic::div_mod::lemma_fundamental_div_mod_converse(r * n + b, n, r, b);
                assert(r * n + b < m * n) by (nonlinear_arith)
                    requires
                        r < m,
                        0 <= b < n,
                ;
            }
        }
        if self.runner < self.runners {
            Some((self.runner, self.benchmark))
        } else {
            None
        }
    }

    /// How many pairs have been handed in so far.
    pub fn attempted(&self) -> (n: u128)
        ensures
            n == self.outcomes().len(),
    {
        proof {
            use_type_invariant(self);
            let r = self.runner as int;
            let b = self.benchmark as int;
            let k = self.benchmarks as int;
            assert(r * k <= 0xffff_ffff_ffff_ffff * 0xffff_ffff_ffff_ffff && 0 <= r * k)
                by (nonlinear_arith)
                requires
                    0 <= r <= 0xffff_ffff_ffff_ffff,
                    0 <= k <= 0xffff_ffff_ffff_ffff,
            ;
        }
        self.runner as u128 * self.benchmarks as u128 + self.benchmark as u128
    }

    /// How many of the pairs that have been handed in measured something.
    pub fn succeeded(&self) -> (n: usize)
        ensures
            n == self.runs().len(),
            n <= self.outcomes().len(),
    {
        proof {
            use_type_invariant(self);
            lemma_kept_is_shorter(self.outcomes@);
        }
        self.runs.len()
    }

    /// Hands in what the pair that is due measured, and moves on to the next
    /// pair. A run is appended to the runs gathered so far; a pair that
    /// measured nothing leaves them as they are. Once every pair has been
    /// handed in, nothing changes any more.
    pub fn record(&mut self, outcome: Option<Run>)
        ensures
            final(self).runners() == old(self).runners(),
            final(self).benchmarks() == old(self).benchmarks(),
            old(self).complete() ==> final(self).outcomes() == old(self).outcomes()
                && final(self).runs() == old(self).runs(),
            !old(self).complete() ==> final(self).outcomes() == old(self).outcomes().push(outcome),
            !old(self).complete() ==> final(self).runs() == match outcome {
                Some(run) => old(self).runs().push(run),
                None => old(self).runs(),
            },
            final(self).runs() == kept(final(self).outcomes()),
    {
        let mut taken = Session::new(0, 0);
        core::mem::swap(self, &mut taken);
        proof {
            use_type_invariant(&taken);
        }
        let Session { runners, benchmarks, runner, benchmark, runs, outcomes } = taken;
        proof {
            let r = runner as int;
            let b = benchmark as int;
            let n = benchmarks as int;
            let m = runners as int;
            if runner < runners {
                assert(r * n + b < m * n) by (nonlinear_arith)
                    requires
                        r < m,
                        0 <= b < n,
                ;
                if b + 1 == n {
                    assert((r + 1) * n + 0 == r * n + b + 1) by (nonlinear_arith)
                        requires
                            b + 1 == n,
                    ;
                }
            } else {
                assert(r * n + b == m * n) by (nonlinear_arith)
                    requires
                        r == m,
                        b == 0,
                ;
            }
        }
        if runner >= runners {
            *self = Session { runners, benchmarks, runner, benchmark, runs, outcomes };
            return ;
        }
        let ghost longer = outcomes@.push(outcome);
        proof {
            assert(longer.drop_last() =~= outcomes@);
        }
        let last: bool = benchmark + 1 == benchmarks;
        let mut runs = runs;
        if let Some(run) = outcome {
            runs.push(run);
        }
        *self = Session {
            runners,
            benchmarks,
            runner: if last { runner + 1 } else { runner },
            benchmark: if last { 0 } else { benchmark + 1 },
            runs,
            outcomes: Ghost(longer),
        };
    }

    /// The runs that the session has gathered, in the order of the walk.
    pub fn into_runs(self) -> (runs: Vec<Run>)
        ensures
            runs@ == self.runs(),
            runs@ == kept(self.outcomes()),
    {
        proof {
            use_type_invariant(&self);
        }
        self.runs
    }
}

/// Where exactly one of the pairs measured nothing, there is one run less
/// than there are pairs, and the runs of all other pairs are there, in their
/// order, as if that pair had not been part of the matrix.
pub proof fn lemma_one_skipped(outcomes: Seq<Option<Run>>, skipped: int)
    requires
        0 <= skipped < outcomes.len(),
        outcomes[skipped] is None,
        forall|i: int| 0 <= i < outcomes.len() && i != skipped ==> outcomes[i] is Some,
    ensures
        kept(outcomes).len() == outcomes.len() - 1,
        forall|i: int| 0 <= i < skipped ==> kept(outcomes)[i] == outcomes[i]->0,
        forall|i: int| skipped < i < outcomes.len() ==> kept(outcomes)[i - 1] == outcomes[i]->0,
    decreases outcomes.len(),
{
    let shorter = outcomes.drop_last();
    if skipped == outcomes.len() - 1 {
        lemma_none_skipped(shorter);
    } else {
        lemma_one_skipped(shorter, skipped);
        assert forall|i: int| skipped < i < outcomes.len() implies kept(outcomes)[i - 1]
            == outcomes[i]->0 by {
            if i < outcomes.len() - 1 {
                assert(kept(shorter)[i - 1] == shorter[i]->0);
            }
        }
    }
}

/// Where every pair measured something, there is a run for every pair, in
/// the order of the pairs.
pub proof fn lemma_none_skipped(outcomes: Seq<Option<Run>>)
    requires
        forall|i: int| 0 <= i < outcomes.len() ==> outcomes[i] is Some,
    ensures
        kept(outcomes).len() == outcomes.len(),
        forall|i: int| 0 <= i < outcomes.len() ==> kept(outcomes)[i] == outcomes[i]->0,
    decreases outcomes.len(),
{
    if outcomes.len() > 0 {
        lemma_none_skipped(outcomes.drop_last());
    }
}

/// There are no more runs than pairs.
pub proof fn lemma_kept_is_shorter(outcomes: Seq<Option<Run>>)
    ensures
        kept(outcomes).len() <= outcomes.len(),
    decreases outcomes.len(),
{
    if outcomes.len() > 0 {
        lemma_kept_is_shorter(outcomes.drop_last());
    }
}

/// No pair is due twice: different places in the walk are different pairs.
pub proof fn lemma_pairs_differ(first: nat, second: nat, benchmarks: nat)
    requires
        benchmarks > 0,
        first != second,
    ensures
        first / benchmarks != second / benchmarks || first % benchmarks != second % benchmarks,
{
    vstd::arithmetic::div_mod::lemma_fundamental_div_mod(first as int, benchmarks as int);
    vstd::arithmetic::div_mod::lemma_fundamental_div_mod(second as int, benchmarks as int);
}

/// What a pair measured does not touch what the pairs before it measured:
/// the runs gathered up to any point stay as they are, whatever is handed in
/// after it.
pub proof fn lemma_kept_grows(outcomes: Seq<Option<Run>>, n: int)
    requires
        0 <= n <= outcomes.len(),
    ensures
        kept(outcomes.take(n)).len() <= kept(outcomes).len(),
        kept(outcomes.take(n)) == kept(outcomes).take(kept(outcomes.take(n)).len() as int),
    decreases outcomes.len() - n,
{
    if n == outcomes.len() {
        assert(outcomes.take(n) =~= outcomes);
        assert(kept(outcomes).take(kept(outcomes).len() as int) =~= kept(outcomes));
    } else {
        lemma_kept_grows(outcomes.drop_last(), n);
        assert(outcomes.drop_last().take(n) =~= outcomes.take(n));
        let short = kept(outcomes.take(n));
        let less = kept(outcomes.drop_last());
        assert(less.take(short.len() as int) =~= kept(outcomes).take(short.len() as int));
    }
}

} // verus!
