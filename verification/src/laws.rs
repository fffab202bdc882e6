//! What holds of every pool: of one transition, of the length of a tick,
//! and of whole runs.

use vstd::prelude::*;
use crate::schedule::{
    comes_to_rest, eligible, hosted_at, is_hosted_run, is_run, not_after, pairs_below, rest,
    Action, Event, Schedule,
};

verus! {

/// A pass that resumes at one place over one set of markers comes to rest
/// in one way only.
pub proof fn rest_is_unique(marks: Seq<bool>, first: int, second: int, a: Schedule, b: Schedule)
    requires
        comes_to_rest(marks, first, second, a),
        comes_to_rest(marks, first, second, b),
    ensures
        a == b,
{
    match (a.pending, b.pending) {
        (
            Action::Collide { first: a1, second: a2 },
            Action::Collide { first: b1, second: b2 },
        ) => {
            assert(not_after(a1 as int, a2 as int, b1 as int, b2 as int));
            assert(not_after(b1 as int, b2 as int, a1 as int, a2 as int));
        },
        (Action::Collide { first: a1, second: a2 }, Action::Finished) => {
            assert(eligible(marks, first, second, a1 as int, a2 as int));
        },
        (Action::Finished, Action::Collide { first: b1, second: b2 }) => {
            assert(eligible(marks, first, second, b1 as int, b2 as int));
        },
        _ => {},
    }
}

/// The pool after an event is determined by the pool before it and the
/// event.
pub proof fn advance_is_deterministic(pre: Schedule, event: Event, a: Schedule, b: Schedule)
    requires
        pre.advance(event, a),
        pre.advance(event, b),
    ensures
        a == b,
{
    match (pre.pending, event) {
        (Action::Integrate { index }, Event::Integrated { .. }) => {
            if index + 1 >= pre.len() {
                rest_is_unique(pre.marked_by(event), 1, 0, a, b);
            }
        },
        (Action::Collide { first, second }, Event::Attempted { .. }) => {
            rest_is_unique(pre.marked_by(event), first as int, second + 1, a, b);
        },
        _ => {},
    }
}

/// Going through the pairs one by one finds the place where the pass comes
/// to rest.
pub proof fn rest_is_found(marks: Seq<bool>, first: int, second: int)
    requires
        1 <= first,
        0 <= second <= first,
        marks.len() <= usize::MAX,
    ensures
        comes_to_rest(marks, first, second, rest(marks, first, second)),
    decreases marks.len() - first, first - second,
{
    if first >= marks.len() {
    } else if second >= first || (second == 0 && marks[first]) {
        rest_is_found(marks, first + 1, 0);
        assert forall|c: int, d: int|
            eligible(marks, first, second, c, d) == eligible(marks, first + 1, 0, c, d) by {}
    } else if marks[second] {
        rest_is_found(marks, first, second + 1);
        assert forall|c: int, d: int|
            eligible(marks, first, second, c, d) == eligible(marks, first, second + 1, c, d) by {}
    } else {
        assert(eligible(marks, first, second, first, second));
    }
}

/// A well-formed pool is never stuck: whatever the event, `after` names a
/// pool that it leads to.
pub proof fn advance_leads_to_after(pre: Schedule, event: Event)
    requires
        pre.wf(),
    ensures
        pre.advance(event, pre.after(event)),
{
    let marks = pre.marked_by(event);
    match (pre.pending, event) {
        (Action::Integrate { index }, Event::Integrated { .. }) => {
            if index + 1 >= pre.len() {
                rest_is_found(marks, 1, 0);
            }
        },
        (Action::Collide { first, second }, Event::Attempted { .. }) => {
            rest_is_found(marks, first as int, second + 1);
            if second + 1 >= first {
                assert(rest(marks, first as int, second + 1) == rest(marks, first + 1, 0));
            }
        },
        _ => {},
    }
}

/// The transition relation holds of one pool only, the one that `after`
/// names.
pub proof fn advance_is_after(pre: Schedule, event: Event, post: Schedule)
    requires
        pre.wf(),
    ensures
        pre.advance(event, post) <==> post == pre.after(event),
{
    advance_leads_to_after(pre, event);
    if pre.advance(event, post) {
        advance_is_deterministic(pre, event, post, pre.after(event));
    }
}

/// Every transition leads from a well-formed pool to a well-formed pool.
pub proof fn advance_preserves_wf(pre: Schedule, event: Event, post: Schedule)
    requires
        pre.wf(),
        pre.advance(event, post),
    ensures
        post.wf(),
{
}

/// A transition keeps the population: none adds or removes a particle.
pub proof fn advance_keeps_population(pre: Schedule, event: Event, post: Schedule)
    requires
        pre.wf(),
        pre.advance(event, post),
    ensures
        post.len() == pre.len(),
{
    assert(pre.marked_by(event).len() == pre.len());
}

/// Between ticks every marker is clear: a well-formed pool with nothing
/// pending is the idle pool of its population.
pub proof fn between_ticks_is_idle(pool: Schedule)
    requires
        pool.wf(),
        pool.pending is Finished,
    ensures
        pool == Schedule::idle(pool.len()),
{
    assert(pool.collided =~= Schedule::idle(pool.len()).collided);
}

/// Within a tick a marker, once set, stays set: as long as the tick has not
/// ended, every particle that was marked before a transition is marked
/// after it.
pub proof fn markers_last_for_the_tick(pre: Schedule, event: Event, post: Schedule, k: int)
    requires
        pre.wf(),
        pre.advance(event, post),
        !(post.pending is Finished),
        0 <= k < pre.len(),
        pre.collided[k],
    ensures
        post.collided[k],
{
}

/// A marked particle is left alone.  The partner of a pending attempt is
/// never marked; and its initiator is marked only while it goes on with a
/// scan that it began unmarked, after a collision in that same scan.
pub proof fn marked_particles_are_left_alone(pre: Schedule, event: Event, post: Schedule)
    requires
        pre.wf(),
        pre.answers(event),
        pre.advance(event, post),
        post.pending is Collide,
    ensures
        !post.collided[post.pending->second as int],
        post.collided[post.pending->first as int] ==> (pre.pending is Collide
            && pre.pending->first == post.pending->first),
        post.collided[post.pending->first as int] ==> pre.pending->second
            < post.pending->second,
{
}

/// The pairwise pass only moves forward: the pair offered after an attempt
/// comes strictly later in the order of the pass than the pair attempted.
pub proof fn pass_moves_forward(pre: Schedule, event: Event, post: Schedule)
    requires
        pre.wf(),
        pre.advance(event, post),
        pre.pending is Collide,
        event is Attempted,
        post.pending is Collide,
    ensures
        not_after(
            pre.pending->first as int,
            pre.pending->second + 1,
            post.pending->first as int,
            post.pending->second as int,
        ),
{
}

/// The pairs counted grow with the number of initiators.
pub proof fn pairs_below_grows(a: nat, b: nat)
    requires
        a <= b,
    ensures
        pairs_below(a) <= pairs_below(b),
    decreases b,
{
    if a < b {
        pairs_below_grows(a, (b - 1) as nat);
    }
}

/// Among `count` particles there are `count * (count - 1) / 2` pairs.
pub proof fn pairs_below_in_closed_form(count: nat)
    ensures
        2 * pairs_below(count) == count * (count - 1),
    decreases count,
{
    if count > 0 {
        let fewer = (count - 1) as nat;
        pairs_below_in_closed_form(fewer);
        assert(pairs_below(count) == pairs_below(fewer) + fewer);
        assert(2 * (pairs_below(fewer) + fewer) == (fewer + 1) * fewer) by (nonlinear_arith)
            requires
                2 * pairs_below(fewer) == fewer * (fewer - 1),
        ;
    } else {
        assert(count * (count - 1) == 0) by (nonlinear_arith)
            requires
                count == 0,
        ;
    }
}

/// No moment of a tick has more events before it than a whole tick takes: one
/// for each particle and one for each pair.
pub proof fn remaining_is_bounded(pool: Schedule)
    requires
        pool.wf(),
    ensures
        pool.remaining() <= pool.len() + pairs_below(pool.len()),
{
    if let Action::Collide { first, second } = pool.pending {
        pairs_below_grows((first + 1) as nat, pool.len());
    }
}

/// A tick draws to its end: every event that answers a pending action
/// leaves fewer events to come than there were.
pub proof fn tick_draws_to_its_end(pre: Schedule, event: Event, post: Schedule)
    requires
        pre.wf(),
        !(pre.pending is Finished),
        pre.answers(event),
        pre.advance(event, post),
    ensures
        post.remaining() < pre.remaining(),
{
    let n = pre.len();
    advance_keeps_population(pre, event, post);
    match post.pending {
        Action::Collide { first: a, second: b } => {
            pairs_below_grows((a + 1) as nat, n);
            match pre.pending {
                Action::Collide { first, second } => {
                    pairs_below_grows((first + 1) as nat, n);
                    if first < a {
                        pairs_below_grows((first + 1) as nat, a as nat);
                    }
                },
                _ => {},
            }
        },
        Action::Integrate { index } => {},
        Action::Finished => {
            match pre.pending {
                Action::Collide { first, second } => {
                    pairs_below_grows((first + 1) as nat, n);
                },
                _ => {},
            }
        },
    }
}

/// Every moment of a run that begins with a well-formed pool is a
/// well-formed pool of the same population.
pub proof fn run_stays_wf(states: Seq<Schedule>, events: Seq<Event>, at: int)
    requires
        is_run(states, events),
        states[0].wf(),
        0 <= at <= events.len(),
    ensures
        states[at].wf(),
        states[at].len() == states[0].len(),
    decreases at,
{
    if at > 0 {
        run_stays_wf(states, events, at - 1);
        assert(states[at - 1].advance(events[at - 1], states[at]));
        advance_preserves_wf(states[at - 1], events[at - 1], states[at]);
        advance_keeps_population(states[at - 1], events[at - 1], states[at]);
    }
}

/// A tick is bounded: in a run, the answering events that follow the moment
/// `from` without the tick ending before them are no more than `remaining`
/// says at `from`.
pub proof fn tick_is_bounded(states: Seq<Schedule>, events: Seq<Event>, from: int)
    requires
        is_run(states, events),
        states[0].wf(),
        0 <= from <= events.len(),
        forall|k: int|
            from <= k < events.len() ==> !((#[trigger] states[k]).pending is Finished)
                && states[k].answers(events[k]),
    ensures
        events.len() - from <= states[from].remaining(),
    decreases events.len() - from,
{
    if from < events.len() {
        tick_is_bounded(states, events, from + 1);
        run_stays_wf(states, events, from);
        assert(states[from].advance(events[from], states[from + 1]));
        tick_draws_to_its_end(states[from], events[from], states[from + 1]);
    }
}

/// A tick asks the host no more often than once for each particle and once
/// for each pair: a run that a host was led through has at most that many
/// events after its `Event::Start`.
pub proof fn host_is_asked_a_bounded_number_of_times<H: FnMut(Action) -> bool>(
    host: H,
    states: Seq<Schedule>,
    events: Seq<Event>,
)
    requires
        is_hosted_run(host, states, events),
        states[0].wf(),
    ensures
        events.len() - 1 <= states[0].len() + pairs_below(states[0].len()),
{
    assert forall|k: int| 1 <= k < events.len() implies !((#[trigger] states[k]).pending
        is Finished) && states[k].answers(events[k]) by {
        assert(hosted_at(host, states, events, k));
    }
    tick_is_bounded(states, events, 1);
    run_stays_wf(states, events, 1);
    remaining_is_bounded(states[1]);
}

/// The lock holds for the rest of the tick.  Take a run and a particle
/// that is marked at the moment `from`, and a later moment `to` before which
/// the tick has not ended.  Then the particle is still marked at `to`; it
/// is not the partner of the attempt that is pending at `to`; and it is
/// the initiator of that attempt only if it was already the initiator of
/// the attempt that was pending at `from`.
pub proof fn lock_holds_for_the_tick(
    states: Seq<Schedule>,
    events: Seq<Event>,
    from: int,
    to: int,
    particle: int,
)
    requires
        is_run(states, events),
        states[0].wf(),
        0 <= from <= to <= events.len(),
        forall|k: int| from < k <= to ==> !((#[trigger] states[k]).pending is Finished),
        0 <= particle < states[0].len(),
        states[from].collided[particle],
    ensures
        states[to].collided[particle],
        states[to].pending is Collide ==> states[to].pending->second != particle,
        states[to].pending is Collide && states[to].pending->first == particle ==> {
            &&& states[from].pending is Collide
            &&& states[from].pending->first == particle
        },
    decreases to - from,
{
    run_stays_wf(states, events, to);
    if from < to {
        let pre = states[to - 1];
        let event = events[to - 1];
        let post = states[to];
        lock_holds_for_the_tick(states, events, from, to - 1, particle);
        run_stays_wf(states, events, to - 1);
        assert(pre.advance(event, post));
        assert(!(post.pending is Finished));
        markers_last_for_the_tick(pre, event, post, particle);
        if pre.answers(event) && post.pending is Collide {
            marked_particles_are_left_alone(pre, event, post);
        }
    }
}

} // verus!
