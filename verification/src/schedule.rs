//! The abstract model of a tick: the markers, the pending action, and the
//! transition relation between two consecutive moments of a pool.

use vstd::prelude::*;

verus! {

/// What the host is asked to do next.
#[derive(Clone, Copy, Debug, PartialEq, Eq, Structural)]
pub enum Action {
    /// Move particle `index` forward by the scaled time step and resolve its
    /// contact with the wall.
    Integrate { index: usize },
    /// Try to resolve a collision in which particle `first` initiates and
    /// particle `second`, of lower index, is the partner.
    Collide { first: usize, second: usize },
    /// Nothing is pending: no tick is under way.
    Finished,
}

/// What the host reports.
#[derive(Clone, Copy, Debug, PartialEq, Eq, Structural)]
pub enum Event {
    /// A new tick is requested.
    Start,
    /// The pending integration was carried out; `reflected` tells whether the
    /// particle was reflected off the wall.
    Integrated { reflected: bool },
    /// The pending collision attempt was carried out; `resolved` tells whether
    /// a collision was detected and resolved.
    Attempted { resolved: bool },
}

/// A pool seen from outside: one collision marker per particle, in index
/// order, and the action that the host owes.
pub struct Schedule {
    pub collided: Seq<bool>,
    pub pending: Action,
}

/// `(a, b)` comes before `(c, d)` in the order of the pairwise pass, or is it.
pub open spec fn not_after(a: int, b: int, c: int, d: int) -> bool {
    a < c || (a == c && b <= d)
}

/// Whether a pairwise pass that stands at `(first, second)` over the markers
/// `marks` would still attempt the pair `(a, b)` if the markers stayed as
/// they are.
///
/// The partner has a lower index than the initiator and is unmarked.  An
/// initiator whose scan has not begun (`first` itself while `second == 0`,
/// and every later initiator) must be unmarked too.  The initiator whose
/// scan is under way is not asked again: it goes on to the unmarked
/// partners that are left, also after a collision of its own.
pub open spec fn eligible(marks: Seq<bool>, first: int, second: int, a: int, b: int) -> bool {
    &&& 0 <= b < a < marks.len()
    &&& !marks[b]
    &&& if a == first {
        second <= b && (second > 0 || !marks[a])
    } else {
        first < a && !marks[a]
    }
}

/// `post` is where a pairwise pass comes to rest that resumes at
/// `(first, second)` over the markers `marks`: at the first eligible pair in
/// the order of the pass, the markers untouched; or, where no pair is
/// eligible, at the end of the tick, every marker cleared.
pub open spec fn comes_to_rest(marks: Seq<bool>, first: int, second: int, post: Schedule) -> bool {
    match post.pending {
        Action::Collide { first: a, second: b } => {
            &&& post.collided == marks
            &&& eligible(marks, first, second, a as int, b as int)
            &&& forall|c: int, d: int| #[trigger]
                eligible(marks, first, second, c, d) ==> not_after(a as int, b as int, c, d)
        },
        Action::Finished => {
            &&& post == Schedule::idle(marks.len())
            &&& forall|c: int, d: int| !#[trigger] eligible(marks, first, second, c, d)
        },
        Action::Integrate { .. } => false,
    }
}

/// Where a pass comes to rest that resumes at `(first, second)`, found by
/// going through the pairs one by one: a marked initiator is passed over
/// when its turn comes, and so is every marked partner.
pub open spec fn rest(marks: Seq<bool>, first: int, second: int) -> Schedule
    decreases marks.len() - first, first - second,
{
    if first < 1 || second < 0 || first >= marks.len() {
        Schedule::idle(marks.len())
    } else if second >= first || (second == 0 && marks[first]) {
        rest(marks, first + 1, 0)
    } else if marks[second] {
        rest(marks, first, second + 1)
    } else {
        Schedule {
            collided: marks,
            pending: Action::Collide { first: first as usize, second: second as usize },
        }
    }
}

/// The number of pairs whose initiator has an index below `count`.
pub open spec fn pairs_below(count: nat) -> nat
    decreases count,
{
    if count == 0 {
        0
    } else {
        pairs_below((count - 1) as nat) + (count - 1) as nat
    }
}

/// Whether the markers `marks` can stand beside the pending action.
pub open spec fn consistent(marks: Seq<bool>, pending: Action) -> bool {
    &&& marks.len() <= usize::MAX
    &&& match pending {
        Action::Finished => forall|k: int| 0 <= k < marks.len() ==> !#[trigger] marks[k],
        Action::Integrate { index } => {
            &&& index < marks.len()
            &&& forall|k: int| index <= k < marks.len() ==> !#[trigger] marks[k]
        },
        Action::Collide { first, second } => {
            &&& second < first < marks.len()
            &&& !marks[second as int]
            &&& second == 0 ==> !marks[first as int]
        },
    }
}

impl Schedule {
    /// A pool of `count` particles between ticks: no marker is set and
    /// nothing is pending.
    pub open spec fn idle(count: nat) -> Schedule {
        Schedule { collided: Seq::new(count, |k: int| false), pending: Action::Finished }
    }

    /// The number of particles.
    pub open spec fn len(self) -> nat {
        self.collided.len()
    }

    /// What holds of every pool at every moment.
    ///
    /// The particles can be counted by a `usize`.  Between ticks no marker is
    /// set.  While particle `index` awaits integration, no particle from
    /// `index` on is marked.  A pending collision attempt names a partner
    /// below the initiator, the partner is unmarked, and an initiator that
    /// is offered particle 0 is unmarked as well.
    pub open spec fn wf(self) -> bool {
        consistent(self.collided, self.pending)
    }

    /// Whether the host may be asked to carry out `action`: only particles
    /// of the pool are named, and the two particles of a pair are distinct,
    /// the partner below the initiator.
    pub open spec fn may_ask(self, action: Action) -> bool {
        match action {
            Action::Integrate { index } => index < self.len(),
            Action::Collide { first, second } => second < first < self.len(),
            Action::Finished => false,
        }
    }

    /// Whether `event` answers the pending action.
    pub open spec fn answers(self, event: Event) -> bool {
        match (self.pending, event) {
            (Action::Finished, Event::Start) => true,
            (Action::Integrate { .. }, Event::Integrated { .. }) => true,
            (Action::Collide { .. }, Event::Attempted { .. }) => true,
            _ => false,
        }
    }

    /// How many answering events the tick under way can take at most before
    /// it is over: one for each particle that awaits integration, and one for
    /// each pair from the pending one on.
    pub open spec fn remaining(self) -> nat {
        match self.pending {
            Action::Finished => 0,
            Action::Integrate { index } => (self.len() - index + pairs_below(self.len())) as nat,
            Action::Collide { first, second } => (pairs_below(self.len()) - pairs_below(
                first as nat,
            ) - second) as nat,
        }
    }

    /// The markers as `event` leaves them before the pass resumes: where it
    /// answers the pending action, a reflected particle is marked, and so are
    /// both particles of a resolved collision.
    pub open spec fn marked_by(self, event: Event) -> Seq<bool> {
        match (self.pending, event) {
            (Action::Integrate { index }, Event::Integrated { reflected: true }) => {
                self.collided.update(index as int, true)
            },
            (Action::Collide { first, second }, Event::Attempted { resolved: true }) => {
                self.collided.update(first as int, true).update(second as int, true)
            },
            _ => self.collided,
        }
    }

    /// The transition relation: `post` is the pool after `event` was reported
    /// to the pool `self`.
    ///
    /// * `Start`, between ticks, asks for the integration of particle 0; an
    ///   empty pool stays as it is.
    /// * `Integrated` marks the pending particle if it was reflected, then
    ///   asks for the next particle; after the last one the pairwise pass
    ///   begins with initiator 1.
    /// * `Attempted` marks both particles of the pending pair if the
    ///   collision was resolved, then resumes the pass behind that pair.
    /// * An event that does not answer the pending action changes nothing.
    pub open spec fn advance(self, event: Event, post: Schedule) -> bool {
        match (self.pending, event) {
            (Action::Finished, Event::Start) => {
                if self.len() == 0 {
                    post == self
                } else {
                    post == (Schedule {
                        collided: self.collided,
                        pending: Action::Integrate { index: 0 },
                    })
                }
            },
            (Action::Integrate { index }, Event::Integrated { .. }) => {
                if index + 1 < self.len() {
                    post == (Schedule {
                        collided: self.marked_by(event),
                        pending: Action::Integrate { index: (index + 1) as usize },
                    })
                } else {
                    comes_to_rest(self.marked_by(event), 1, 0, post)
                }
            },
            (Action::Collide { first, second }, Event::Attempted { .. }) => {
                comes_to_rest(self.marked_by(event), first as int, second + 1, post)
            },
            _ => post == self,
        }
    }

    /// The pool after `event`, worked out: the one pool to which the
    /// transition relation leads from a well-formed `self`.
    pub open spec fn after(self, event: Event) -> Schedule {
        let marks = self.marked_by(event);
        match (self.pending, event) {
            (Action::Finished, Event::Start) => {
                if self.len() == 0 {
                    self
                } else {
                    Schedule { collided: marks, pending: Action::Integrate { index: 0 } }
                }
            },
            (Action::Integrate { index }, Event::Integrated { .. }) => {
                if index + 1 < self.len() {
                    Schedule {
                        collided: marks,
                        pending: Action::Integrate { index: (index + 1) as usize },
                    }
                } else {
                    rest(marks, 1, 0)
                }
            },
            (Action::Collide { first, second }, Event::Attempted { .. }) => {
                if second + 1 < first {
                    rest(marks, first as int, second + 1)
                } else {
                    rest(marks, first + 1, 0)
                }
            },
            _ => self,
        }
    }
}

/// The event by which the host answers `action` with `answer`.
pub open spec fn answer_to(action: Action, answer: bool) -> Event {
    match action {
        Action::Integrate { .. } => Event::Integrated { reflected: answer },
        _ => Event::Attempted { resolved: answer },
    }
}

/// Whether `event` is an answer that `host` can give when it is asked to
/// carry out `action`.
pub open spec fn given_by<H: FnMut(Action) -> bool>(host: H, action: Action, event: Event) -> bool {
    ||| call_ensures(host, (action,), true) && event == answer_to(action, true)
    ||| call_ensures(host, (action,), false) && event == answer_to(action, false)
}

/// A run: consecutive moments of one pool, each reached from the one before
/// by the event that stands between them.
pub open spec fn is_run(states: Seq<Schedule>, events: Seq<Event>) -> bool {
    &&& states.len() == events.len() + 1
    &&& forall|k: int|
        0 <= k < events.len() ==> (#[trigger] states[k]).advance(events[k], states[k + 1])
}

/// Whether, at the moment `at` of a run, something was pending and the event
/// that followed was the host's answer to it.
pub open spec fn hosted_at<H: FnMut(Action) -> bool>(
    host: H,
    states: Seq<Schedule>,
    events: Seq<Event>,
    at: int,
) -> bool {
    &&& !(states[at].pending is Finished)
    &&& given_by(host, states[at].pending, events[at])
}

/// A run that `host` was led through: it begins with `Event::Start`, and
/// from then on, at every moment but the last, something was pending and the
/// next event was the host's answer to it.
pub open spec fn is_hosted_run<H: FnMut(Action) -> bool>(
    host: H,
    states: Seq<Schedule>,
    events: Seq<Event>,
) -> bool {
    &&& is_run(states, events)
    &&& events.len() >= 1
    &&& events[0] == Event::Start
    &&& forall|k: int| 1 <= k < events.len() ==> #[trigger] hosted_at(host, states, events, k)
}

} // verus!
