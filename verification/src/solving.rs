//! Synthesis problems, the greedy local search, the restart enumerator
//! and the benchmark harness.

use vstd::prelude::*;

use crate::clock::{clock_elapsed, clock_now, duration_millis};
use crate::formula::{
    fresh, grads_none, lemma_eq_but_grads_out, lemma_eq_but_outs_grads, lemma_fresh_facts,
    lemma_frames_refl, lemma_gates_replaced_facts, lemma_same_gates_struct,
    lemma_same_gates_trans, lemma_score_same_gates, lemma_scores_bounded, lemma_scores_move_valid,
    out_closed, out_ok, path_of, same_gates, size_spec, threshold_met, wf_ids, wf_shape, Node,
};

verus! {

/// Upper bound on the number of examples of one problem: keeps every
/// score numerator comfortably inside machine integers.
pub const MAX_EXAMPLES: usize = 0x0100_0000;

/// Upper bound on the size of a generated circuit skeleton: keeps node
/// ids inside machine integers on every architecture.
pub const MAX_SIZE: usize = 30;

/// (n_inputs, n_examples, size)
pub type Parametres = (usize, usize, usize);

/// One synthesis problem: a fixed list of example input assignments and
/// the target output word of each example. Immutable once created.
pub struct Instance {
    pub inputs: Vec<Vec<u32>>,
    pub outputs: Vec<u32>,
}

impl Instance {
    /// One target word per example, every example row of width
    /// `n_inputs`, and few enough examples for exact arithmetic.
    pub open spec fn wf(self, n_inputs: nat) -> bool {
        &&& self.outputs@.len() == self.inputs@.len()
        &&& self.inputs@.len() >= 1
        &&& self.inputs@.len() <= MAX_EXAMPLES
        &&& forall|k: int| 0 <= k < self.inputs@.len() ==> (#[trigger] self.inputs@[k])@.len()
            == n_inputs
    }

    /// Well formed for its own arity: the width of its first example
    /// row, which must be positive.
    pub open spec fn wf_any(self) -> bool {
        self.inputs@.len() >= 1 && self.inputs@[0]@.len() >= 1 && self.wf(
            self.inputs@[0]@.len() as nat,
        )
    }
}

/// Everything the local search maintains about its candidate tree: a
/// well-formed shape over the problem's inputs, the id scheme from root
/// id 1, no stale memoized output, and no leftover sensitivity.
pub open spec fn search_inv(f: Node, instance: Instance, n_inputs: nat) -> bool {
    &&& instance.wf(n_inputs)
    &&& n_inputs >= 1
    &&& wf_shape(f, n_inputs)
    &&& wf_ids(f, 1)
    &&& out_ok(f, instance.inputs@)
    &&& out_closed(f)
    &&& grads_none(f)
    &&& size_spec(f) <= MAX_SIZE
}

/// Outcome of one local-search attempt.
#[derive(Debug, Clone, Copy, PartialEq, Eq, Structural)]
pub enum SearchOutcome {
    /// The tree reached the quality threshold.
    Solved,
    /// The iteration budget ran out below the threshold.
    Exhausted,
    /// The move pool was empty: no local edit exists.
    NoMove,
}

/// The greedy variants. Temperatures are in thousandths: `Naif(20000)`
/// searches at a constant temperature of 20.
#[derive(Debug, Clone, Copy)]
pub enum Greedy {
    ///Naif(tau)
    Naif(u64),
    ///Progressif(tau_min, tau_max)
    Progressif(u64, u64),
}

/// The variant's parameters fit an `n`-iteration budget: the annealed
/// variant steps its temperature by `10 (tau_max - tau_min) / (n - 10)`,
/// so it needs more than ten iterations and an ordered, bounded range.
pub open spec fn greedy_ok(g: Greedy, n: usize) -> bool {
    match g {
        Greedy::Naif(_) => true,
        Greedy::Progressif(tau_min, tau_max) => n > 10 && tau_min <= tau_max && tau_max
            <= 1_000_000_000,
    }
}

/// The success test: quality at least 99/100, as exact integers.
fn reaches_threshold(s: u64, n_examples: usize) -> (b: bool)
    requires
        s <= 32 * (MAX_EXAMPLES as u64),
        n_examples <= MAX_EXAMPLES,
    ensures
        b == (100 * (s as int) >= 99 * 32 * (n_examples as int)),
{
    proof {
        assert(99 * (32 * (n_examples as int)) == 99 * 32 * (n_examples as int))
            by (nonlinear_arith);
    }
    100 * s >= 99 * (32 * (n_examples as u64))
}

impl Greedy {
    /// Local search at constant temperature: evaluate, and while the
    /// quality is below 99/100 and budget remains, build the delta
    /// tables, draw one move from the softmax pool and apply it; after
    /// the budget, look one last time. `Solved` comes back exactly when
    /// the final tree meets the threshold.
    #[verifier::loop_isolation(false)]
    pub fn naif(
        &self,
        instance: &Instance,
        n_examples: usize,
        rng: &mut rand::rngs::StdRng,
        n: usize,
        tau: u64,
        f: &mut Node,
    ) -> (r: SearchOutcome)
        requires
            exists|ni: nat| search_inv(*old(f), *instance, ni),
            n_examples == instance.outputs@.len(),
        ensures
            forall|ni: nat|
                search_inv(*old(f), *instance, ni) ==> #[trigger] search_inv(
                    *final(f),
                    *instance,
                    ni,
                ),
            size_spec(*final(f)) == size_spec(*old(f)),
            (r == SearchOutcome::Solved) <==> threshold_met(
                *final(f),
                instance.inputs@,
                instance.outputs@,
            ),
            threshold_met(*old(f), instance.inputs@, instance.outputs@) ==> r
                == SearchOutcome::Solved && same_gates(*old(f), *final(f)),
    {
        let ghost ni = choose|ni: nat| search_inv(*old(f), *instance, ni);
        let ghost rows = instance.inputs@;
        let ghost targets = instance.outputs@;
        proof {
            lemma_frames_refl(*old(f));
        }
        let mut it: usize = 0;
        while it < n
            invariant
                search_inv(*f, *instance, ni),
                size_spec(*f) == size_spec(*old(f)),
                forall|m: nat|
                    search_inv(*old(f), *instance, m) ==> #[trigger] search_inv(*f, *instance, m),
                threshold_met(*old(f), rows, targets) ==> same_gates(*old(f), *f)
                    && threshold_met(*f, rows, targets),
            decreases n - it,
        {
            let ghost f0 = *f;
            let s = f.current_score(instance);
            proof {
                lemma_eq_but_outs_grads(f0, *f, rows);
                lemma_same_gates_struct(f0, *f, ni, 1, rows);
                lemma_score_same_gates(f0, *f, rows, targets, rows.len() as int);
                assert forall|m: nat|
                    search_inv(*old(f), *instance, m) implies #[trigger] search_inv(
                    *f,
                    *instance,
                    m,
                ) by {
                    lemma_same_gates_struct(f0, *f, m, 1, rows);
                }
            }
            proof {
                assert(n_examples <= MAX_EXAMPLES);
                assert(s <= 32 * instance.inputs@.len());
            }
            if reaches_threshold(s, n_examples) {
                proof {
                    if threshold_met(*old(f), rows, targets) {
                        lemma_same_gates_trans(*old(f), f0, *f);
                    }
                }
                return SearchOutcome::Solved;
            }
            let ghost f1 = *f;
            let scores = f.get_scores(instance);
            proof {
                lemma_same_gates_struct(f1, *f, ni, 1, rows);
                lemma_score_same_gates(f1, *f, rows, targets, rows.len() as int);
                lemma_scores_bounded(scores.values@, *f, rows, ni as int);
                assert(rows[0]@.len() == ni);
            }
            let ghost f2 = *f;
            let mv = scores.softmax(tau, n_examples, rng);
            match mv {
                None => {
                    f.clear_backward();
                    proof {
                        lemma_eq_but_grads_out(f2, *f, rows, rows.len());
                        lemma_same_gates_struct(f2, *f, ni, 1, rows);
                        lemma_score_same_gates(f2, *f, rows, targets, rows.len() as int);
                        assert forall|m: nat|
                            search_inv(*old(f), *instance, m) implies #[trigger] search_inv(
                            *f,
                            *instance,
                            m,
                        ) by {
                            lemma_same_gates_struct(f2, *f, m, 1, rows);
                        }
                    }
                    return SearchOutcome::NoMove;
                },
                Some((idv, op)) => {
                    proof {
                        let p = lemma_scores_move_valid(
                            scores.values@,
                            f2,
                            rows,
                            ni as int,
                            idv,
                            op,
                            1,
                        );
                        assert(path_of(1nat) =~= Seq::<crate::formula::Move>::empty());
                        assert(path_of(1nat) + p =~= p);
                        assert(path_of(idv as nat) == p);
                    }
                    f.update_gate(idv, op);
                    proof {
                        assert(out_ok(f2, rows));
                        lemma_gates_replaced_facts(f2, *f, path_of(idv as nat), op, ni as int, 1);
                        assert forall|m: nat|
                            search_inv(*old(f), *instance, m) implies #[trigger] search_inv(
                            *f,
                            *instance,
                            m,
                        ) by {
                            lemma_gates_replaced_facts(
                                f2,
                                *f,
                                path_of(idv as nat),
                                op,
                                m as int,
                                1,
                            );
                        }
                    }
                },
            }
            it = it + 1;
        }
        let ghost f3 = *f;
        let s = f.current_score(instance);
        proof {
            lemma_eq_but_outs_grads(f3, *f, rows);
            lemma_same_gates_struct(f3, *f, ni, 1, rows);
            lemma_score_same_gates(f3, *f, rows, targets, rows.len() as int);
            assert forall|m: nat|
                search_inv(*old(f), *instance, m) implies #[trigger] search_inv(
                *f,
                *instance,
                m,
            ) by {
                lemma_same_gates_struct(f3, *f, m, 1, rows);
            }
        }
        proof {
            if threshold_met(*old(f), rows, targets) {
                lemma_same_gates_trans(*old(f), f3, *f);
            }
            assert(n_examples <= MAX_EXAMPLES);
            assert(s <= 32 * instance.inputs@.len());
        }
        if reaches_threshold(s, n_examples) {
            SearchOutcome::Solved
        } else {
            SearchOutcome::Exhausted
        }
    }

    /// Annealed local search: single-iteration search steps at a
    /// temperature climbing linearly from just above `tau_min` toward
    /// `tau_max`, one step per ten budgeted iterations, stopping at the
    /// first success.
    #[verifier::loop_isolation(false)]
    pub fn progressif(
        &self,
        instance: &Instance,
        n_examples: usize,
        rng: &mut rand::rngs::StdRng,
        n: usize,
        tau_min: u64,
        tau_max: u64,
        f: &mut Node,
    ) -> (r: SearchOutcome)
        requires
            exists|ni: nat| search_inv(*old(f), *instance, ni),
            n_examples == instance.outputs@.len(),
            n > 10,
            tau_min <= tau_max,
            tau_max <= 1_000_000_000,
        ensures
            forall|ni: nat|
                search_inv(*old(f), *instance, ni) ==> #[trigger] search_inv(
                    *final(f),
                    *instance,
                    ni,
                ),
            size_spec(*final(f)) == size_spec(*old(f)),
            (r == SearchOutcome::Solved) <==> threshold_met(
                *final(f),
                instance.inputs@,
                instance.outputs@,
            ),
            threshold_met(*old(f), instance.inputs@, instance.outputs@) ==> r
                == SearchOutcome::Solved && same_gates(*old(f), *final(f)),
    {
        let steps = n / 10;
        let step = 10 * (tau_max - tau_min) / ((n - 10) as u64);
        let mut tau = tau_min;
        let mut i: usize = 0;
        proof {
            lemma_frames_refl(*old(f));
        }
        while i < steps
            invariant
                i <= steps,
                steps >= 1,
                forall|m: nat|
                    search_inv(*old(f), *instance, m) ==> #[trigger] search_inv(*f, *instance, m),
                size_spec(*f) == size_spec(*old(f)),
                i >= 1 ==> !threshold_met(*f, instance.inputs@, instance.outputs@),
                threshold_met(*old(f), instance.inputs@, instance.outputs@) ==> same_gates(
                    *old(f),
                    *f,
                ) && threshold_met(*f, instance.inputs@, instance.outputs@),
            decreases steps - i,
        {
            tau = if tau <= u64::MAX - step {
                tau + step
            } else {
                u64::MAX
            };
            proof {
                let ni = choose|ni: nat| search_inv(*old(f), *instance, ni);
                assert(search_inv(*f, *instance, ni));
            }
            let ghost fpre = *f;
            let r = self.naif(instance, n_examples, rng, 1, tau, f);
            match r {
                SearchOutcome::Solved => {
                    proof {
                        if threshold_met(*old(f), instance.inputs@, instance.outputs@) {
                            lemma_same_gates_trans(*old(f), fpre, *f);
                        }
                    }
                    return SearchOutcome::Solved;
                },
                SearchOutcome::NoMove => {
                    return SearchOutcome::NoMove;
                },
                SearchOutcome::Exhausted => {},
            }
            i = i + 1;
        }
        SearchOutcome::Exhausted
    }

    /// Run the variant's search on the tree `f` with an `n`-iteration
    /// budget.
    pub fn solve(
        &self,
        instance: &Instance,
        rng: &mut rand::rngs::StdRng,
        f: &mut Node,
        n: usize,
    ) -> (r: SearchOutcome)
        requires
            exists|ni: nat| search_inv(*old(f), *instance, ni),
            greedy_ok(*self, n),
        ensures
            forall|ni: nat|
                search_inv(*old(f), *instance, ni) ==> #[trigger] search_inv(
                    *final(f),
                    *instance,
                    ni,
                ),
            size_spec(*final(f)) == size_spec(*old(f)),
            (r == SearchOutcome::Solved) <==> threshold_met(
                *final(f),
                instance.inputs@,
                instance.outputs@,
            ),
            threshold_met(*old(f), instance.inputs@, instance.outputs@) ==> r
                == SearchOutcome::Solved && same_gates(*old(f), *final(f)),
    {
        let n_examples = instance.outputs.len();
        proof {
            let ni = choose|ni: nat| search_inv(*old(f), *instance, ni);
            assert(instance.wf(ni));
        }
        match self {
            Greedy::Naif(tau) => self.naif(instance, n_examples, rng, n, *tau, f),
            Greedy::Progressif(tau_min, tau_max) => self.progressif(
                instance,
                n_examples,
                rng,
                n,
                *tau_min,
                *tau_max,
                f,
            ),
        }
    }
}

/// The restart strategy: which circuit skeletons to try, in which order,
/// and with which per-attempt iteration budget.
#[derive(Debug, Clone, Copy)]
pub enum Enumerator {
    ///Random(size, iterations per formula, number of formulas)
    Random(usize, usize, usize),
    ///ProgressiveSize(size_max, iterations per formula, number of formulas)
    ProgressiveSize(usize, usize, usize),
}

/// The enumerator's sizes stay generatable and its bucket arithmetic is
/// well defined: the progressive variant distributes its formulas evenly
/// over the sizes, so the count must be a multiple of the largest size.
pub open spec fn enumerator_ok(e: Enumerator) -> bool {
    match e {
        Enumerator::Random(size, _, _) => 1 <= size <= MAX_SIZE,
        Enumerator::ProgressiveSize(size_max, _, cnt) => 1 <= size_max <= MAX_SIZE && cnt % size_max
            == 0,
    }
}

/// The per-attempt iteration budget of an enumerator.
pub open spec fn enumerator_budget(e: Enumerator) -> usize {
    match e {
        Enumerator::Random(_, m, _) => m,
        Enumerator::ProgressiveSize(_, m, _) => m,
    }
}

/// Law: the progressive-size bucket of any position stays within
/// `[1, size_max]` whenever the formula count is a positive multiple of
/// `size_max`. In particular an enumeration over `size_max` sizes never
/// requests a skeleton outside that range.
pub proof fn lemma_progressive_bucket_in_range(k: int, cnt: int, size_max: int)
    requires
        size_max >= 1,
        cnt % size_max == 0,
        0 <= k < cnt,
    ensures
        cnt / size_max >= 1,
        1 <= k / (cnt / size_max) + 1 <= size_max,
{
    let fps = cnt / size_max;
    assert(cnt == fps * size_max && fps >= 1) by (nonlinear_arith)
        requires
            size_max >= 1,
            cnt % size_max == 0,
            cnt >= 1,
            fps == cnt / size_max,
    ;
    assert(0 <= k / fps && k / fps <= size_max - 1) by (nonlinear_arith)
        requires
            fps >= 1,
            0 <= k,
            k < fps * size_max,
    ;
}

/// Law: progressive-size buckets never shrink: skeleton sizes are
/// nondecreasing along the enumeration, so small circuits are always
/// tried before larger ones.
pub proof fn lemma_progressive_bucket_monotone(k1: int, k2: int, cnt: int, size_max: int)
    requires
        size_max >= 1,
        cnt % size_max == 0,
        0 <= k1 <= k2 < cnt,
    ensures
        k1 / (cnt / size_max) + 1 <= k2 / (cnt / size_max) + 1,
{
    lemma_progressive_bucket_in_range(k1, cnt, size_max);
    assert(k1 / (cnt / size_max) <= k2 / (cnt / size_max)) by (nonlinear_arith)
        requires
            cnt / size_max >= 1,
            0 <= k1 <= k2,
    ;
}

/// Walks an enumerator's sequence of skeletons, generating each lazily.
pub struct EnumeratorIntoIterator {
    pub enumerator: Enumerator,
    pub n_inputs: usize,
    pub compteur: usize,
}

/// Number of skeletons the iterator will still yield.
pub open spec fn remaining(it: EnumeratorIntoIterator) -> nat {
    match it.enumerator {
        Enumerator::Random(_, _, cnt) => cnt as nat,
        Enumerator::ProgressiveSize(_, _, cnt) => if it.compteur <= cnt {
            (cnt - it.compteur) as nat
        } else {
            0
        },
    }
}

impl Enumerator {
    /// The lazy sequence of (skeleton, budget) pairs for a problem with
    /// `n_inputs` input words.
    pub fn list_formula(&self, n_inputs: usize) -> (it: EnumeratorIntoIterator)
        ensures
            it.enumerator == *self,
            it.n_inputs == n_inputs,
            it.compteur == 0,
    {
        EnumeratorIntoIterator { enumerator: *self, n_inputs, compteur: 0 }
    }
}

impl EnumeratorIntoIterator {
    /// The next freshly generated skeleton and its iteration budget, or
    /// nothing once the sequence is consumed. A progressive-size
    /// enumerator yields sizes `1, 1, …, 2, 2, …` up to its maximum and
    /// never outside `[1, size_max]`.
    pub fn next(&mut self, rng: &mut rand::rngs::StdRng) -> (r: Option<(Node, usize)>)
        requires
            enumerator_ok(old(self).enumerator),
            old(self).n_inputs >= 1,
        ensures
            final(self).n_inputs == old(self).n_inputs,
            enumerator_ok(final(self).enumerator),
            enumerator_budget(final(self).enumerator) == enumerator_budget(old(self).enumerator),
            r is Some <==> remaining(*old(self)) > 0,
            r is None ==> *final(self) == *old(self),
            r is Some ==> remaining(*final(self)) == remaining(*old(self)) - 1,
            r matches Some((fnode, m)) ==> {
                &&& fresh(fnode)
                &&& wf_ids(fnode, 1)
                &&& wf_shape(fnode, old(self).n_inputs as nat)
                &&& 1 <= size_spec(fnode) <= MAX_SIZE
                &&& m == enumerator_budget(old(self).enumerator)
                &&& match old(self).enumerator {
                    Enumerator::Random(size, mm, cnt) => {
                        &&& size_spec(fnode) == size
                        &&& final(self).enumerator == Enumerator::Random(
                            size,
                            mm,
                            (cnt - 1) as usize,
                        )
                        &&& final(self).compteur == old(self).compteur
                    },
                    Enumerator::ProgressiveSize(smax, _, cnt) => {
                        &&& final(self).enumerator == old(self).enumerator
                        &&& final(self).compteur == old(self).compteur + 1
                        &&& size_spec(fnode) == old(self).compteur as int / (
                        cnt as int / smax as int) + 1
                        &&& 1 <= size_spec(fnode) <= smax
                    },
                }
            },
    {
        match self.enumerator {
            Enumerator::Random(size, m, cnt) => {
                if cnt == 0 {
                    None
                } else {
                    self.enumerator = Enumerator::Random(size, m, cnt - 1);
                    proof {
                        lemma_random_size_fits(size);
                    }
                    let f = Node::random(self.n_inputs, size, 1, rng);
                    Some((f, m))
                }
            },
            Enumerator::ProgressiveSize(size_max, m, cnt) => {
                if self.compteur == cnt {
                    None
                } else {
                    proof {
                        if self.compteur > cnt {
                            assert(remaining(*old(self)) == 0);
                        }
                    }
                    if self.compteur > cnt {
                        return None;
                    }
                    let fps = cnt / size_max;
                    proof {
                        lemma_progressive_bucket_in_range(
                            self.compteur as int,
                            cnt as int,
                            size_max as int,
                        );
                    }
                    let size = self.compteur / fps + 1;
                    self.compteur = self.compteur + 1;
                    proof {
                        lemma_random_size_fits(size);
                    }
                    let f = Node::random(self.n_inputs, size, 1, rng);
                    Some((f, m))
                }
            },
        }
    }
}

/// A skeleton size up to [`MAX_SIZE`] keeps every node id of a tree
/// rooted at id 1 inside a machine word.
proof fn lemma_random_size_fits(size: usize)
    requires
        1 <= size <= MAX_SIZE,
    ensures
        2 * vstd::arithmetic::power2::pow2(size as nat) <= usize::MAX as nat + 1,
{
    vstd::arithmetic::power2::lemma2_to64();
    if (size as nat) < 30 {
        vstd::arithmetic::power2::lemma_pow2_strictly_increases(size as nat, 30);
    }
    assert(usize::MAX >= 0xffff_ffff);
}

/// A full solver configuration: a restart strategy and a search variant.
#[derive(Debug, Clone, Copy)]
pub struct Solver {
    pub enumerator: Enumerator,
    pub greedy: Greedy,
}

/// Result of solving one instance: the first circuit that reached the
/// quality threshold, if any attempt succeeded, and the elapsed wall
/// time in milliseconds.
pub struct SolverResult {
    pub result: Option<Node>,
    pub time: u128,
}

/// The solver's parts fit together: the enumerator's parameters are
/// sound and the greedy variant fits the per-attempt budget.
pub open spec fn solver_ok(s: Solver) -> bool {
    enumerator_ok(s.enumerator) && greedy_ok(s.greedy, enumerator_budget(s.enumerator))
}

impl Solver {
    /// Try the enumerator's skeletons in order, running the greedy
    /// search on each, and return the first tree that reaches the
    /// quality threshold, with the elapsed time; or an empty result
    /// after the sequence is consumed.
    #[verifier::loop_isolation(false)]
    pub fn solve(&self, instance: &Instance, rng: &mut rand::rngs::StdRng) -> (r: SolverResult)
        requires
            instance.wf_any(),
            solver_ok(*self),
        ensures
            r.result matches Some(fnode) ==> threshold_met(
                fnode,
                instance.inputs@,
                instance.outputs@,
            ) && size_spec(fnode) <= MAX_SIZE,
    {
        let ghost ni = instance.inputs@[0]@.len() as nat;
        let n_inputs = instance.inputs[0].len();
        let start = clock_now();
        let mut it = self.enumerator.list_formula(n_inputs);
        loop
            invariant
                enumerator_ok(it.enumerator),
                it.n_inputs == n_inputs,
                enumerator_budget(it.enumerator) == enumerator_budget(self.enumerator),
            decreases remaining(it),
        {
            match it.next(rng) {
                None => {
                    let d = clock_elapsed(&start);
                    return SolverResult { result: None, time: duration_millis(&d) };
                },
                Some((mut f, m)) => {
                    proof {
                        lemma_fresh_facts(f, instance.inputs@);
                        assert(search_inv(f, *instance, ni));
                    }
                    let out = self.greedy.solve(instance, rng, &mut f, m);
                    if let SearchOutcome::Solved = out {
                        let d = clock_elapsed(&start);
                        return SolverResult { result: Some(f), time: duration_millis(&d) };
                    }
                },
            }
        }
    }
}

impl Instance {
    /// A random problem: a hidden random circuit of the given size is
    /// drawn, evaluated on random example rows, and forgotten.
    pub fn random(params: Parametres, rng: &mut rand::rngs::StdRng) -> (r: Instance)
        requires
            params.0 >= 1,
            1 <= params.1 <= MAX_EXAMPLES,
            1 <= params.2 <= MAX_SIZE,
        ensures
            r.wf(params.0 as nat),
            exists|hidden: Node|
                {
                    &&& #[trigger] size_spec(hidden) == params.2
                    &&& wf_shape(hidden, params.0 as nat)
                    &&& forall|k: int|
                        0 <= k < r.inputs@.len() ==> r.outputs@[k] == crate::formula::eval(
                            hidden,
                            r.inputs@[k],
                        )
                },
    {
        let (n_inputs, n_examples, size) = params;
        proof {
            lemma_random_size_fits(size);
        }
        let mut f = Node::random(n_inputs, size, 1, rng);
        let ghost hidden = f;
        let (inputs, outputs) = f.to_instance(n_inputs, n_examples, rng);
        let r = Instance { inputs, outputs };
        proof {
            assert(size_spec(hidden) == params.2 && wf_shape(hidden, params.0 as nat) && forall|
                k: int,
            |
                0 <= k < r.inputs@.len() ==> r.outputs@[k] == crate::formula::eval(
                    hidden,
                    r.inputs@[k],
                ));
        }
        r
    }

    /// Solve this problem with the given solver configuration.
    pub fn solve(&self, solver: Solver, rng: &mut rand::rngs::StdRng) -> (r: SolverResult)
        requires
            self.wf_any(),
            solver_ok(solver),
        ensures
            r.result matches Some(fnode) ==> threshold_met(fnode, self.inputs@, self.outputs@)
                && size_spec(fnode) <= MAX_SIZE,
    {
        solver.solve(self, rng)
    }
}

/// An ordered list of synthesis problems with aggregate solving.
pub struct Benchmark {
    pub instances: Vec<Instance>,
}

/// Every instance of the benchmark is well formed for some positive
/// input arity.
pub open spec fn benchmark_wf(b: Benchmark) -> bool {
    forall|k: int| 0 <= k < b.instances@.len() ==> (#[trigger] b.instances@[k]).wf_any()
}

impl Benchmark {
    /// `n` freshly drawn random instances with the given parameters.
    #[verifier::loop_isolation(false)]
    pub fn new(params: Parametres, rng: &mut rand::rngs::StdRng, n: usize) -> (b: Benchmark)
        requires
            params.0 >= 1,
            1 <= params.1 <= MAX_EXAMPLES,
            1 <= params.2 <= MAX_SIZE,
        ensures
            b.instances@.len() == n,
            benchmark_wf(b),
    {
        let mut instances: Vec<Instance> = Vec::new();
        let mut i: usize = 0;
        while i < n
            invariant
                i <= n,
                instances@.len() == i,
                forall|k: int| 0 <= k < i ==> (#[trigger] instances@[k]).wf(params.0 as nat),
            decreases n - i,
        {
            instances.push(Instance::random(params, rng));
            i = i + 1;
        }
        let b = Benchmark { instances };
        proof {
            assert forall|k: int| 0 <= k < b.instances@.len() implies (#[trigger] b.instances@[k]).wf_any() by {
                assert(b.instances@[k].wf(params.0 as nat));
                assert(b.instances@[k].inputs@[0]@.len() == params.0);
            }
        }
        b
    }

    /// Solve every instance in order with the same configuration.
    #[verifier::loop_isolation(false)]
    pub fn solve(&self, solver: Solver, rng: &mut rand::rngs::StdRng) -> (rs: Vec<SolverResult>)
        requires
            benchmark_wf(*self),
            solver_ok(solver),
        ensures
            rs@.len() == self.instances@.len(),
            forall|k: int| 0 <= k < rs@.len() ==> ((#[trigger] rs@[k]).result matches Some(fnode)
                ==> threshold_met(
                fnode,
                self.instances@[k].inputs@,
                self.instances@[k].outputs@,
            ) && size_spec(fnode) <= MAX_SIZE),
    {
        let mut rs: Vec<SolverResult> = Vec::new();
        let mut i: usize = 0;
        while i < self.instances.len()
            invariant
                i <= self.instances@.len(),
                rs@.len() == i,
                forall|k: int| 0 <= k < i ==> ((#[trigger] rs@[k]).result matches Some(fnode)
                    ==> threshold_met(
                    fnode,
                    self.instances@[k].inputs@,
                    self.instances@[k].outputs@,
                ) && size_spec(fnode) <= MAX_SIZE),
            decreases self.instances@.len() - i,
        {
            let r = self.instances[i].solve(solver, rng);
            rs.push(r);
            i = i + 1;
        }
        rs
    }
}

/// Number of successful results among the first `m`.
pub open spec fn successes_upto(rs: Seq<SolverResult>, m: int) -> int
    decreases m,
{
    if m <= 0 {
        0
    } else {
        successes_upto(rs, m - 1) + if rs[m - 1].result is Some {
            1int
        } else {
            0int
        }
    }
}

/// Summed tree size of the successful results among the first `m`.
pub open spec fn sizes_upto(rs: Seq<SolverResult>, m: int) -> int
    decreases m,
{
    if m <= 0 {
        0
    } else {
        sizes_upto(rs, m - 1) + match rs[m - 1].result {
            Some(fnode) => size_spec(fnode) as int,
            None => 0int,
        }
    }
}

/// Largest solving time among the first `m`, zero when there is none.
pub open spec fn max_time_upto(rs: Seq<SolverResult>, m: int) -> int
    decreases m,
{
    if m <= 0 {
        0
    } else if rs[m - 1].time as int > max_time_upto(rs, m - 1) {
        rs[m - 1].time as int
    } else {
        max_time_upto(rs, m - 1)
    }
}

/// Aggregate of a benchmark's results: how many attempts succeeded, the
/// summed size of the successful circuits, and the longest single solve
/// in milliseconds. The mean size reported by a caller is the second
/// component over the first.
#[verifier::loop_isolation(false)]
pub fn aggregate(results: &Vec<SolverResult>) -> (r: (usize, usize, u128))
    requires
        forall|k: int| 0 <= k < results@.len() ==> ((#[trigger] results@[k]).result matches Some(
            fnode,
        ) ==> size_spec(fnode) <= MAX_SIZE),
        results@.len() * MAX_SIZE <= usize::MAX,
    ensures
        r.0 == successes_upto(results@, results@.len() as int),
        r.1 == sizes_upto(results@, results@.len() as int),
        r.2 == max_time_upto(results@, results@.len() as int),
{
    proof {
        assert(results@.len() * MAX_SIZE == 30 * results@.len()) by (nonlinear_arith)
            requires
                MAX_SIZE == 30usize,
        ;
    }
    let mut successes: usize = 0;
    let mut sum_size: usize = 0;
    let mut max_time: u128 = 0;
    let mut i: usize = 0;
    while i < results.len()
        invariant
            i <= results@.len(),
            successes == successes_upto(results@, i as int),
            sum_size == sizes_upto(results@, i as int),
            max_time == max_time_upto(results@, i as int),
            successes <= i,
            sum_size <= 30 * (i as int),
        decreases results@.len() - i,
    {
        let entry = &results[i];
        match &entry.result {
            Some(fnode) => {
                successes = successes + 1;
                sum_size = sum_size + fnode.size();
            },
            None => {},
        }
        if entry.time > max_time {
            max_time = entry.time;
        }
        i = i + 1;
    }
    (successes, sum_size, max_time)
}

} // verus!
