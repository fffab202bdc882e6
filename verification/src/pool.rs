//! The executable pool.

use vstd::prelude::*;
use crate::laws::{
    advance_is_after, advance_keeps_population, between_ticks_is_idle, tick_draws_to_its_end,
};
use crate::schedule::{
    comes_to_rest, eligible, hosted_at, is_hosted_run, not_after, Action, Event, Schedule,
};

verus! {

/// The collision markers of a population of particles, and the place that
/// the current tick has reached.  The population grows between ticks only,
/// one particle at a time; during a tick it is fixed.
pub struct ParticlePool {
    collided: Vec<bool>,
    pending: Action,
}

impl View for ParticlePool {
    type V = Schedule;

    closed spec fn view(&self) -> Schedule {
        Schedule { collided: self.collided@, pending: self.pending }
    }
}

impl ParticlePool {
    #[verifier::type_invariant]
    spec fn inv(&self) -> bool {
        self@.wf()
    }

    /// An empty pool between ticks.  `count` is the number of particles that
    /// the caller means to add: room for their markers is set aside where it
    /// can be had, and no particle is made.
    pub fn new(count: usize) -> (pool: ParticlePool)
        ensures
            pool@.wf(),
            pool@ == Schedule::idle(0),
    {
        let mut collided: Vec<bool> = Vec::new();
        let _ = collided.try_reserve(count);
        proof {
            assert(collided@ =~= Schedule::idle(0).collided);
        }
        ParticlePool { collided, pending: Action::Finished }
    }

    /// Adds one particle, unmarked, behind those that the pool holds, and
    /// tells whether it did.  A particle is added between ticks only, and
    /// only while a `usize` can still count the population; otherwise the
    /// pool stays as it is.
    pub fn push(&mut self) -> (added: bool)
        ensures
            final(self)@.wf(),
            added == (old(self)@.pending is Finished && old(self)@.len() < usize::MAX),
            added ==> final(self)@ == Schedule::idle((old(self)@.len() + 1) as nat),
            !added ==> final(self)@ == old(self)@,
    {
        proof {
            use_type_invariant(&*self);
        }
        let ghost pre = self@;
        let mut held = ParticlePool { collided: Vec::new(), pending: Action::Finished };
        core::mem::swap(self, &mut held);
        let ParticlePool { collided, pending } = held;
        let mut collided = collided;
        let added = match pending {
            Action::Finished => collided.len() < usize::MAX,
            _ => false,
        };
        if added {
            collided.push(false);
            proof {
                assert(collided@ =~= Schedule::idle((pre.len() + 1) as nat).collided);
            }
        }
        *self = ParticlePool { collided, pending };
        added
    }

    /// Takes the host's report and returns what it has to do next.
    ///
    /// The pool moves as the transition relation says, to the pool that
    /// `Schedule::after` works out; the action returned is the one that is
    /// pending afterwards.  It names particles of the pool only, and never
    /// one particle twice; `Action::Finished` tells the host that the tick
    /// is over.
    pub fn advance(&mut self, event: Event) -> (action: Action)
        ensures
            final(self)@.wf(),
            old(self)@.advance(event, final(self)@),
            final(self)@ == old(self)@.after(event),
            action == final(self)@.pending,
            action is Finished || final(self)@.may_ask(action),
    {
        proof {
            use_type_invariant(&*self);
        }
        let ghost pre = self@;
        let mut held = ParticlePool { collided: Vec::new(), pending: Action::Finished };
        core::mem::swap(self, &mut held);
        let ParticlePool { collided, pending } = held;
        let (collided, pending) = transition(collided, pending, event);
        *self = ParticlePool { collided, pending };
        proof {
            advance_is_after(pre, event, self@);
        }
        pending
    }

    /// Runs the tick to its end: asks `host` to carry out each action in
    /// turn and takes what it returns as the answer, `reflected` after an
    /// integration and `resolved` after a collision attempt.
    ///
    /// What happens is a run of the transition relation that begins with
    /// `Event::Start`, in which every further event is the host's answer to
    /// the action that was pending, and which stops when nothing is pending
    /// any more.  Whatever the host answers, the tick ends, and the pool is
    /// left between ticks with its population unchanged and every marker
    /// clear.  A tick that was under way is carried on from where it stood.
    ///
    /// The host is asked nothing but what `Schedule::may_ask` admits: it can
    /// index its own particles by what an action names, and borrow the two
    /// particles of a pair at once.
    pub fn step<H: FnMut(Action) -> bool>(&mut self, host: &mut H)
        requires
            forall|action: Action|
                old(self)@.may_ask(action) ==> #[trigger] call_requires(*old(host), (action,)),
        ensures
            final(self)@.wf(),
            final(self)@ == Schedule::idle(old(self)@.len()),
            exists|states: Seq<Schedule>, events: Seq<Event>|
                {
                    &&& #[trigger] is_hosted_run(*old(host), states, events)
                    &&& states[0] == old(self)@
                    &&& states[events.len() as int] == final(self)@
                },
    {
        proof {
            use_type_invariant(&*self);
        }
        let ghost mut states: Seq<Schedule> = seq![self@];
        let ghost mut events: Seq<Event> = seq![Event::Start];
        let mut action = self.advance(Event::Start);
        proof {
            advance_keeps_population(states[0], Event::Start, self@);
            states = states.push(self@);
        }
        while action != Action::Finished
            invariant
                self@.wf(),
                action == self@.pending,
                self@.len() == old(self)@.len(),
                forall|action: Action|
                    old(self)@.may_ask(action) ==> #[trigger] call_requires(*host, (action,)),
                *host == *old(host),
                is_hosted_run(*host, states, events),
                states[0] == old(self)@,
                states[events.len() as int] == self@,
            decreases self@.remaining(),
        {
            let ghost pre = self@;
            let answer = host(action);
            let event = match action {
                Action::Integrate { .. } => Event::Integrated { reflected: answer },
                _ => Event::Attempted { resolved: answer },
            };
            action = self.advance(event);
            proof {
                advance_keeps_population(pre, event, self@);
                tick_draws_to_its_end(pre, event, self@);
                let longer = states.push(self@);
                let more = events.push(event);
                assert forall|k: int| 0 <= k < more.len() implies (#[trigger] longer[k]).advance(
                    more[k],
                    longer[k + 1],
                ) by {
                    if k < events.len() {
                        assert(states[k].advance(events[k], states[k + 1]));
                    }
                }
                assert forall|k: int| 1 <= k < more.len() implies #[trigger] hosted_at(
                    *host,
                    longer,
                    more,
                    k,
                ) by {
                    if k < events.len() {
                        assert(hosted_at(*host, states, events, k));
                    }
                }
                states = longer;
                events = more;
            }
        }
        proof {
            between_ticks_is_idle(self@);
        }
    }

    /// The number of particles.
    pub fn len(&self) -> (count: usize)
        ensures
            count == self@.len(),
    {
        self.collided.len()
    }

    /// The action that the host owes; `Action::Finished` between ticks.
    pub fn pending(&self) -> (action: Action)
        ensures
            action == self@.pending,
    {
        self.pending
    }

    /// Whether particle `index` exists and has taken part in a collision
    /// during the tick under way.
    pub fn has_collided(&self, index: usize) -> (marked: bool)
        ensures
            marked == (index < self@.len() && self@.collided[index as int]),
    {
        index < self.collided.len() && self.collided[index]
    }
}

/// One transition on the parts of a pool.
fn transition(collided: Vec<bool>, pending: Action, event: Event) -> (next: (Vec<bool>, Action))
    requires
        (Schedule { collided: collided@, pending }).wf(),
    ensures
        (Schedule { collided: next.0@, pending: next.1 }).wf(),
        (Schedule { collided: collided@, pending }).advance(
            event,
            Schedule { collided: next.0@, pending: next.1 },
        ),
{
    let mut marks = collided;
    let n: usize = marks.len();
    match (pending, event) {
        (Action::Finished, Event::Start) => {
            if n > 0 {
                (marks, Action::Integrate { index: 0 })
            } else {
                (marks, pending)
            }
        },
        (Action::Integrate { index }, Event::Integrated { reflected }) => {
            if reflected {
                marks[index] = true;
            }
            if index + 1 < n {
                (marks, Action::Integrate { index: index + 1 })
            } else {
                let rest = settle(&mut marks, 1, 0);
                (marks, rest)
            }
        },
        (Action::Collide { first, second }, Event::Attempted { resolved }) => {
            if resolved {
                marks[first] = true;
                marks[second] = true;
            }
            let rest = settle(&mut marks, first, second + 1);
            (marks, rest)
        },
        _ => (marks, pending),
    }
}

/// Resumes the pairwise pass at `(first, second)`: stops at the first
/// eligible pair, or clears every marker and ends the tick.
fn settle(marks: &mut Vec<bool>, first: usize, second: usize) -> (rest: Action)
    requires
        1 <= first,
        second <= first,
    ensures
        comes_to_rest(
            old(marks)@,
            first as int,
            second as int,
            Schedule { collided: final(marks)@, pending: rest },
        ),
        (Schedule { collided: final(marks)@, pending: rest }).wf(),
{
    let n: usize = marks.len();
    let mut i: usize = first;
    let mut j: usize = second;
    while i < n
        invariant
            marks@ == old(marks)@,
            n == marks@.len(),
            first <= i,
            j <= i,
            i == first ==> second <= j,
            i < n && j > 0 && !(i == first && second > 0) ==> !marks@[i as int],
            forall|c: int, d: int| #[trigger]
                eligible(marks@, first as int, second as int, c, d) ==> not_after(
                    i as int,
                    j as int,
                    c,
                    d,
                ),
        decreases n - i, i - j,
    {
        if j >= i {
            i += 1;
            j = 0;
        } else if j == 0 && marks[i] {
            i += 1;
        } else if marks[j] {
            j += 1;
        } else {
            return Action::Collide { first: i, second: j };
        }
    }
    let mut k: usize = 0;
    while k < n
        invariant
            k <= n,
            marks@.len() == n,
            forall|m: int| 0 <= m < k ==> !#[trigger] marks@[m],
        decreases n - k,
    {
        marks[k] = false;
        k += 1;
    }
    proof {
        assert(marks@ =~= Schedule::idle(n as nat).collided);
    }
    Action::Finished
}

} // verus!
