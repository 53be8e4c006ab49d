//! A trampoline: deep, logically tail-recursive computations expressed as a
//! chain of deferred steps and driven to completion by an iterative loop, so
//! that the call stack stays at a constant depth however long the chain is.
//!
//! A computation is either finished (`Done`) or deferred (`Continue`). In the
//! state-passing form `TailCall`, a deferred computation holds the state its
//! next step needs, and the step itself is a caller-supplied function from
//! that state to the next computation. In the static-dispatch form
//! `MutableTailCall`, each deferred computation holds its own step, a
//! callable of one concrete type shared by the whole chain. Either way,
//! `invoke` repeatedly applies the pending step until a `Done` value appears
//! and returns its payload.
//!
//! The specifications describe a chain through a step relation: a spec
//! function from a continuation's content to the computations its invocation
//! may produce. For executable steps that relation is the step's
//! postcondition, `step_rel` and `mutable_step_rel` below.

use vstd::prelude::*;

verus! {

/// A tail call that is either a deferred continuation or a completed result.
///
/// `T` is the payload of a completed computation; `S` is the state a deferred
/// step needs to produce the next computation.
pub enum TailCall<T, S> {
    /// A continuation: the state for the next deferred step.
    Continue(S),
    /// A completed computation with a result.
    Done(T),
}

/// The step relation of an executable step function: it relates a
/// continuation's state to every computation that `step`, by its
/// postcondition, may return for that state.
pub open spec fn step_rel<T, S, F: Fn(S) -> TailCall<T, S>>(step: F) -> spec_fn(
    S,
    TailCall<T, S>,
) -> bool {
    |s: S, next: TailCall<T, S>| call_ensures(step, (s,), next)
}

/// `r` is a value that the chain starting at `c` can produce after exactly
/// `n` steps, when each step's outcome is constrained by the relation `rel`.
pub open spec fn reaches<T, S>(
    rel: spec_fn(S, TailCall<T, S>) -> bool,
    c: TailCall<T, S>,
    r: T,
    n: nat,
) -> bool
    decreases n,
{
    match c {
        TailCall::Done(v) => r == v && n == 0,
        TailCall::Continue(s) => n > 0 && exists|next: TailCall<T, S>|
            #[trigger] rel(s, next) && reaches(rel, next, r, (n - 1) as nat),
    }
}

/// Every chain starting at `c` whose steps obey the relation `rel` reaches a
/// `Done` value within `n` steps.
pub open spec fn halts_within<T, S>(
    rel: spec_fn(S, TailCall<T, S>) -> bool,
    c: TailCall<T, S>,
    n: nat,
) -> bool
    decreases n,
{
    match c {
        TailCall::Done(_) => true,
        TailCall::Continue(s) => n > 0 && forall|next: TailCall<T, S>|
            #[trigger] rel(s, next) ==> halts_within(rel, next, (n - 1) as nat),
    }
}

impl<T, S> TailCall<T, S> {
    /// Applies the current step once and returns the next computation.
    ///
    /// Calling this on a completed computation is a contract violation: the
    /// precondition forbids it, and no verified caller can reach that case.
    pub fn apply<F: Fn(S) -> TailCall<T, S>>(self, step: &F) -> (r: TailCall<T, S>)
        requires
            self is Continue,
            call_requires(*step, (self->Continue_0,)),
        ensures
            call_ensures(*step, (self->Continue_0,), r),
    {
        match self {
            TailCall::Continue(s) => (*step)(s),
            TailCall::Done(_) => vstd::pervasive::unreached(),
        }
    }

    /// Checks whether the computation is completed.
    pub fn is_completed(&self) -> (r: bool)
        ensures
            r == (self is Done),
    {
        match self {
            TailCall::Done(_) => true,
            TailCall::Continue(_) => false,
        }
    }

    /// Returns the result if the computation is completed.
    pub fn result(&self) -> (r: Option<&T>)
        ensures
            match r {
                Some(v) => self is Done && v == self->Done_0,
                None => self is Continue,
            },
    {
        match self {
            TailCall::Done(val) => Some(val),
            _ => None,
        }
    }

    /// Executes the computation by iterating until a completed result is
    /// found: the one algorithm of this library. The loop replaces a local
    /// binding and never calls itself, so the stack stays at a constant depth
    /// no matter how many steps the chain takes. Each pending step is invoked
    /// exactly once, in order; the returned value is reached from the initial
    /// computation by exactly the steps the loop took.
    #[verifier::loop_isolation(false)]
    pub fn invoke<F: Fn(S) -> TailCall<T, S>>(self, step: &F) -> (r: T)
        requires
            forall|s: S| #[trigger] call_requires(*step, (s,)),
            exists|n: nat| halts_within(step_rel(*step), self, n),
        ensures
            exists|n: nat| reaches(step_rel(*step), self, r, n),
            self is Done ==> r == self->Done_0,
    {
        let ghost rel = step_rel(*step);
        let ghost orig = self;
        let ghost mut count: nat = 0;
        let ghost mut fuel: nat = choose|n: nat| halts_within(rel, orig, n);
        let mut current = self;
        loop
            invariant
                halts_within(rel, current, fuel),
                forall|rv: T, n: nat| #[trigger] reaches(rel, current, rv, n)
                    ==> reaches(rel, orig, rv, n + count),
            decreases fuel,
        {
            let ghost cur0 = current;
            match current {
                TailCall::Continue(s) => {
                    let ghost s0 = s;
                    let ghost count0 = count;
                    proof {
                        count = count + 1;
                        fuel = (fuel - 1) as nat;
                    }
                    current = (*step)(s);
                    proof {
                        assert(rel(s0, current));
                        assert forall|rv: T, n: nat| #[trigger] reaches(rel, current, rv, n)
                            implies reaches(rel, orig, rv, n + count) by {
                            assert(reaches(rel, TailCall::Continue(s0), rv, n + 1));
                            assert(reaches(rel, orig, rv, n + 1 + count0));
                        }
                    }
                }
                TailCall::Done(val) => {
                    proof {
                        assert(reaches(rel, cur0, val, 0));
                        assert(reaches(rel, orig, val, count));
                    }
                    return val;
                }
            }
        }
    }
}

/// A tail call in static-dispatch form: the deferred step is a single
/// concrete callable type `F` whose invocation yields another computation
/// carrying the same step type, so a whole chain shares one step type and
/// needs no heap allocation or indirection.
pub enum MutableTailCall<T, F> {
    /// A continuation that holds a deferred computation.
    Continue(F),
    /// A completed computation with a result.
    Done(T),
}

/// The step relation of the static-dispatch form: it relates a pending step
/// to every computation that invoking it, by its postcondition, may return.
pub open spec fn mutable_step_rel<T, F: Fn() -> MutableTailCall<T, F>>() -> spec_fn(
    F,
    MutableTailCall<T, F>,
) -> bool {
    |f: F, next: MutableTailCall<T, F>| call_ensures(f, (), next)
}

/// `r` is a value that the chain starting at `c` can produce after exactly
/// `n` steps, when each step's outcome is constrained by the relation `rel`.
pub open spec fn mutable_reaches<T, F>(
    rel: spec_fn(F, MutableTailCall<T, F>) -> bool,
    c: MutableTailCall<T, F>,
    r: T,
    n: nat,
) -> bool
    decreases n,
{
    match c {
        MutableTailCall::Done(v) => r == v && n == 0,
        MutableTailCall::Continue(f) => n > 0 && exists|next: MutableTailCall<T, F>|
            #[trigger] rel(f, next) && mutable_reaches(rel, next, r, (n - 1) as nat),
    }
}

/// Every chain starting at `c` whose steps obey the relation `rel` reaches a
/// `Done` value within `n` steps.
pub open spec fn mutable_halts_within<T, F>(
    rel: spec_fn(F, MutableTailCall<T, F>) -> bool,
    c: MutableTailCall<T, F>,
    n: nat,
) -> bool
    decreases n,
{
    match c {
        MutableTailCall::Done(_) => true,
        MutableTailCall::Continue(f) => n > 0 && forall|next: MutableTailCall<T, F>|
            #[trigger] rel(f, next) ==> mutable_halts_within(rel, next, (n - 1) as nat),
    }
}

impl<T, F> MutableTailCall<T, F> where F: Fn() -> MutableTailCall<T, F> {
    /// Applies the current step and returns the next computation.
    ///
    /// Calling this on a completed computation is a contract violation: the
    /// precondition forbids it, and no verified caller can reach that case.
    pub fn apply(self) -> (r: MutableTailCall<T, F>)
        requires
            self is Continue,
            call_requires(self->Continue_0, ()),
        ensures
            call_ensures(self->Continue_0, (), r),
    {
        match self {
            MutableTailCall::Continue(f) => f(),
            MutableTailCall::Done(_) => vstd::pervasive::unreached(),
        }
    }

    /// Checks whether the computation is completed.
    pub fn is_completed(&self) -> (r: bool)
        ensures
            r == (self is Done),
    {
        match self {
            MutableTailCall::Done(_) => true,
            MutableTailCall::Continue(_) => false,
        }
    }

    /// Returns the result if the computation is completed.
    pub fn result(&self) -> (r: Option<&T>)
        ensures
            match r {
                Some(v) => self is Done && v == self->Done_0,
                None => self is Continue,
            },
    {
        match self {
            MutableTailCall::Done(val) => Some(val),
            _ => None,
        }
    }

    /// Executes the computation by iterating until a completed result is
    /// found, with the same constant-stack loop as the state-passing form.
    #[verifier::loop_isolation(false)]
    pub fn invoke(self) -> (r: T)
        requires
            forall|f: F| #[trigger] call_requires(f, ()),
            exists|n: nat| mutable_halts_within(mutable_step_rel::<T, F>(), self, n),
        ensures
            exists|n: nat| mutable_reaches(mutable_step_rel::<T, F>(), self, r, n),
            self is Done ==> r == self->Done_0,
    {
        let ghost rel = mutable_step_rel::<T, F>();
        let ghost orig = self;
        let ghost mut count: nat = 0;
        let ghost mut fuel: nat = choose|n: nat| mutable_halts_within(rel, orig, n);
        let mut current = self;
        loop
            invariant
                mutable_halts_within(rel, current, fuel),
                forall|rv: T, n: nat| #[trigger] mutable_reaches(rel, current, rv, n)
                    ==> mutable_reaches(rel, orig, rv, n + count),
            decreases fuel,
        {
            let ghost cur0 = current;
            match current {
                MutableTailCall::Continue(f) => {
                    let ghost f0 = f;
                    let ghost count0 = count;
                    proof {
                        count = count + 1;
                        fuel = (fuel - 1) as nat;
                    }
                    current = f();
                    proof {
                        assert(rel(f0, current));
                        assert forall|rv: T, n: nat| #[trigger] mutable_reaches(rel, current, rv, n)
                            implies mutable_reaches(rel, orig, rv, n + count) by {
                            assert(mutable_reaches(rel, MutableTailCall::Continue(f0), rv, n + 1));
                            assert(mutable_reaches(rel, orig, rv, n + 1 + count0));
                        }
                    }
                }
                MutableTailCall::Done(val) => {
                    proof {
                        assert(mutable_reaches(rel, cur0, val, 0));
                        assert(mutable_reaches(rel, orig, val, count));
                    }
                    return val;
                }
            }
        }
    }
}

/// A terminal computation stands for exactly its payload: the only value
/// reachable from `Done(v)` is `v` itself, in zero steps, and such a
/// computation halts at once. Together with the contracts of `is_completed`,
/// `result` and `invoke`, this pins down what every operation does on a
/// `Done` value.
pub proof fn lemma_done_terminal<T, S>(
    rel: spec_fn(S, TailCall<T, S>) -> bool,
    v: T,
    r: T,
    n: nat,
)
    ensures
        reaches(rel, TailCall::<T, S>::Done(v), r, n) <==> (r == v && n == 0),
        halts_within(rel, TailCall::<T, S>::Done(v), 0),
{
}

/// The same, for the static-dispatch form.
pub proof fn lemma_mutable_done_terminal<T, F>(
    rel: spec_fn(F, MutableTailCall<T, F>) -> bool,
    v: T,
    r: T,
    n: nat,
)
    ensures
        mutable_reaches(rel, MutableTailCall::<T, F>::Done(v), r, n) <==> (r == v && n == 0),
        mutable_halts_within(rel, MutableTailCall::<T, F>::Done(v), 0),
{
}

/// Whatever a chain computes is governed by its steps alone: any property of
/// computations that holds at the start and is preserved by every step the
/// relation admits holds of the final `Done` value the chain reaches. This is
/// how a caller of `invoke` concludes what the returned value is.
pub proof fn lemma_reaches_invariant<T, S>(
    rel: spec_fn(S, TailCall<T, S>) -> bool,
    c: TailCall<T, S>,
    r: T,
    n: nat,
    inv: spec_fn(TailCall<T, S>) -> bool,
)
    requires
        reaches(rel, c, r, n),
        inv(c),
        forall|s: S, next: TailCall<T, S>| inv(TailCall::Continue(s)) && #[trigger] rel(s, next)
            ==> inv(next),
    ensures
        inv(TailCall::Done(r)),
    decreases n,
{
    if c is Continue {
        let next = choose|next: TailCall<T, S>|
            #[trigger] rel(c->Continue_0, next) && reaches(rel, next, r, (n - 1) as nat);
        lemma_reaches_invariant(rel, next, r, (n - 1) as nat, inv);
    }
}

/// The same, for the static-dispatch form.
pub proof fn lemma_mutable_reaches_invariant<T, F>(
    rel: spec_fn(F, MutableTailCall<T, F>) -> bool,
    c: MutableTailCall<T, F>,
    r: T,
    n: nat,
    inv: spec_fn(MutableTailCall<T, F>) -> bool,
)
    requires
        mutable_reaches(rel, c, r, n),
        inv(c),
        forall|f: F, next: MutableTailCall<T, F>|
            inv(MutableTailCall::Continue(f)) && #[trigger] rel(f, next) ==> inv(next),
    ensures
        inv(MutableTailCall::Done(r)),
    decreases n,
{
    if c is Continue {
        let next = choose|next: MutableTailCall<T, F>|
            #[trigger] rel(c->Continue_0, next) && mutable_reaches(rel, next, r, (n - 1) as nat);
        lemma_mutable_reaches_invariant(rel, next, r, (n - 1) as nat, inv);
    }
}

/// A deterministic step relation gives a chain exactly one outcome: whatever
/// `invoke` returns for such a chain is the payload of its final `Done`, and
/// the number of steps taken to reach it is the chain's length.
pub proof fn lemma_deterministic_outcome<T, S>(
    rel: spec_fn(S, TailCall<T, S>) -> bool,
    c: TailCall<T, S>,
    r1: T,
    n1: nat,
    r2: T,
    n2: nat,
)
    requires
        forall|s: S, o1: TailCall<T, S>, o2: TailCall<T, S>|
            #[trigger] rel(s, o1) && #[trigger] rel(s, o2) ==> o1 == o2,
        reaches(rel, c, r1, n1),
        reaches(rel, c, r2, n2),
    ensures
        r1 == r2,
        n1 == n2,
    decreases n1,
{
    if c is Continue {
        let s = c->Continue_0;
        let next1 = choose|next: TailCall<T, S>|
            #[trigger] rel(s, next) && reaches(rel, next, r1, (n1 - 1) as nat);
        let next2 = choose|next: TailCall<T, S>|
            #[trigger] rel(s, next) && reaches(rel, next, r2, (n2 - 1) as nat);
        assert(next1 == next2);
        lemma_deterministic_outcome(rel, next1, r1, (n1 - 1) as nat, r2, (n2 - 1) as nat);
    }
}

/// The same, for the static-dispatch form.
pub proof fn lemma_mutable_deterministic_outcome<T, F>(
    rel: spec_fn(F, MutableTailCall<T, F>) -> bool,
    c: MutableTailCall<T, F>,
    r1: T,
    n1: nat,
    r2: T,
    n2: nat,
)
    requires
        forall|f: F, o1: MutableTailCall<T, F>, o2: MutableTailCall<T, F>|
            #[trigger] rel(f, o1) && #[trigger] rel(f, o2) ==> o1 == o2,
        mutable_reaches(rel, c, r1, n1),
        mutable_reaches(rel, c, r2, n2),
    ensures
        r1 == r2,
        n1 == n2,
    decreases n1,
{
    if c is Continue {
        let f = c->Continue_0;
        let next1 = choose|next: MutableTailCall<T, F>|
            #[trigger] rel(f, next) && mutable_reaches(rel, next, r1, (n1 - 1) as nat);
        let next2 = choose|next: MutableTailCall<T, F>|
            #[trigger] rel(f, next) && mutable_reaches(rel, next, r2, (n2 - 1) as nat);
        assert(next1 == next2);
        lemma_mutable_deterministic_outcome(rel, next1, r1, (n1 - 1) as nat, r2, (n2 - 1) as nat);
    }
}

/// The two forms agree: when `sim` is a simulation between state-passing
/// computations (stepping by `rel_d`) and static-dispatch computations
/// (stepping by `rel_m`) — related computations agree on being done and on
/// the final payload, and every transition the static form can make is
/// matched by one of the state-passing form — every value the static chain
/// can produce, in however many steps, the state-passing chain produces in
/// the same number of steps.
pub proof fn lemma_forms_agree<T, S, F>(
    rel_d: spec_fn(S, TailCall<T, S>) -> bool,
    d: TailCall<T, S>,
    rel_m: spec_fn(F, MutableTailCall<T, F>) -> bool,
    m: MutableTailCall<T, F>,
    sim: spec_fn(TailCall<T, S>, MutableTailCall<T, F>) -> bool,
    r: T,
    n: nat,
)
    requires
        sim(d, m),
        forall|d2: TailCall<T, S>, m2: MutableTailCall<T, F>| #[trigger] sim(d2, m2) ==> ({
            &&& (d2 is Done <==> m2 is Done)
            &&& (d2 is Done ==> d2->Done_0 == m2->Done_0)
            &&& (m2 is Continue ==> forall|next_m: MutableTailCall<T, F>|
                #[trigger] rel_m(m2->Continue_0, next_m) ==> exists|next_d: TailCall<T, S>|
                    #[trigger] rel_d(d2->Continue_0, next_d) && sim(next_d, next_m))
        }),
        mutable_reaches(rel_m, m, r, n),
    ensures
        reaches(rel_d, d, r, n),
    decreases n,
{
    if m is Done {
        assert(r == m->Done_0 && n == 0);
        assert(d is Done && d->Done_0 == m->Done_0);
    } else {
        let next_m = choose|next: MutableTailCall<T, F>|
            #[trigger] rel_m(m->Continue_0, next) && mutable_reaches(rel_m, next, r, (n - 1) as nat);
        let next_d = choose|next: TailCall<T, S>|
            #[trigger] rel_d(d->Continue_0, next) && sim(next, next_m);
        lemma_forms_agree(rel_d, next_d, rel_m, next_m, sim, r, (n - 1) as nat);
        assert(reaches(rel_d, next_d, r, (n - 1) as nat));
        assert(reaches(rel_d, d, r, n));
    }
}

} // verus!
