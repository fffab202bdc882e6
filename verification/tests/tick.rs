use brownian::{Action, Event, ParticlePool};

/// A pool of `count` particles between ticks.
fn pool_of(count: usize) -> ParticlePool {
    let mut pool = ParticlePool::new(count);
    for _ in 0..count {
        assert!(pool.push());
    }
    pool
}

fn integrate(index: usize) -> Action {
    Action::Integrate { index }
}

fn collide(first: usize, second: usize) -> Action {
    Action::Collide { first, second }
}

fn integrated(reflected: bool) -> Event {
    Event::Integrated { reflected }
}

fn attempted(resolved: bool) -> Event {
    Event::Attempted { resolved }
}

/// Carries a pool through the integration phase of a tick; `reflected[k]`
/// is what the host reports of particle `k`.
fn integrate_all(pool: &mut ParticlePool, reflected: &[bool]) -> Action {
    let mut action = pool.advance(Event::Start);
    for (index, hit) in reflected.iter().enumerate() {
        assert_eq!(action, Action::Integrate { index });
        action = pool.advance(Event::Integrated { reflected: *hit });
    }
    action
}

/// Answers every collision attempt with `resolved` until the tick is over,
/// and returns the pairs that were attempted.
fn attempt_all(pool: &mut ParticlePool, first: Action, resolved: bool) -> Vec<(usize, usize)> {
    let mut pairs = Vec::new();
    let mut action = first;
    while let Action::Collide { first, second } = action {
        pairs.push((first, second));
        action = pool.advance(Event::Attempted { resolved });
    }
    assert_eq!(action, Action::Finished);
    pairs
}

#[test]
fn new_pool_holds_no_particle() {
    let pool = ParticlePool::new(5);
    assert_eq!(pool.len(), 0);
    assert_eq!(pool.pending(), Action::Finished);
    assert!(!pool.has_collided(0));
    assert!(!pool.has_collided(4));
}

#[test]
fn new_pool_with_any_count_is_empty() {
    assert_eq!(ParticlePool::new(0).len(), 0);
    assert_eq!(ParticlePool::new(1).len(), 0);
    assert_eq!(ParticlePool::new(usize::MAX).len(), 0);
}

#[test]
fn push_adds_one_unmarked_particle() {
    let mut pool = ParticlePool::new(2);
    assert!(pool.push());
    assert_eq!(pool.len(), 1);
    assert!(pool.push());
    assert_eq!(pool.len(), 2);
    // the count given to `new` is no limit
    assert!(pool.push());
    assert_eq!(pool.len(), 3);
    assert_eq!(pool.pending(), Action::Finished);
    for index in 0..3 {
        assert!(!pool.has_collided(index));
    }
    assert!(!pool.has_collided(3));
}

#[test]
fn push_is_refused_while_a_tick_is_under_way() {
    let mut pool = pool_of(2);
    assert_eq!(pool.advance(Event::Start), integrate(0));
    assert!(!pool.push());
    assert_eq!(pool.len(), 2);
    assert_eq!(pool.pending(), integrate(0));
    assert_eq!(pool.advance(integrated(true)), integrate(1));
    assert!(!pool.push());
    assert!(pool.has_collided(0));
    assert_eq!(pool.advance(integrated(false)), Action::Finished);
    // the tick is over: the pool takes particles again
    assert!(pool.push());
    assert_eq!(pool.len(), 3);
}

#[test]
fn push_is_refused_during_the_pairwise_pass() {
    let mut pool = pool_of(2);
    let after = integrate_all(&mut pool, &[false, false]);
    assert_eq!(after, collide(1, 0));
    assert!(!pool.push());
    assert_eq!(pool.len(), 2);
    assert_eq!(pool.pending(), collide(1, 0));
    assert_eq!(pool.advance(attempted(false)), Action::Finished);
}

#[test]
fn pushed_particle_takes_part_in_the_next_tick() {
    let mut pool = pool_of(2);
    let after = integrate_all(&mut pool, &[false, false]);
    assert_eq!(attempt_all(&mut pool, after, false), vec![(1, 0)]);
    assert!(pool.push());
    let after = integrate_all(&mut pool, &[false, false, false]);
    assert_eq!(attempt_all(&mut pool, after, false), vec![(1, 0), (2, 0), (2, 1)]);
}

#[test]
fn filled_pool_is_between_ticks() {
    let pool = pool_of(3);
    assert_eq!(pool.len(), 3);
    assert_eq!(pool.pending(), Action::Finished);
    assert!(!pool.has_collided(0));
    assert!(!pool.has_collided(1));
    assert!(!pool.has_collided(2));
    assert!(!pool.has_collided(3));
}

#[test]
fn empty_pool_finishes_at_once() {
    let mut pool = pool_of(0);
    assert_eq!(pool.len(), 0);
    assert_eq!(pool.advance(Event::Start), Action::Finished);
    assert_eq!(pool.pending(), Action::Finished);
}

#[test]
fn single_particle_is_integrated_and_never_paired() {
    let mut pool = pool_of(1);
    assert_eq!(pool.advance(Event::Start), integrate(0));
    assert_eq!(pool.pending(), integrate(0));
    assert_eq!(pool.advance(integrated(false)), Action::Finished);
    assert!(!pool.has_collided(0));
}

#[test]
fn reflection_marks_until_the_tick_ends() {
    let mut pool = pool_of(2);
    assert_eq!(pool.advance(Event::Start), integrate(0));
    assert_eq!(pool.advance(integrated(true)), integrate(1));
    assert!(pool.has_collided(0));
    assert!(!pool.has_collided(1));
    // particle 0 is locked, so the only pair is not tried
    assert_eq!(pool.advance(integrated(false)), Action::Finished);
    assert!(!pool.has_collided(0));
    assert!(!pool.has_collided(1));
}

#[test]
fn integration_runs_in_index_order() {
    let mut pool = pool_of(4);
    let after = integrate_all(&mut pool, &[false, false, false, false]);
    assert_eq!(after, collide(1, 0));
}

#[test]
fn pass_visits_pairs_in_ascending_order() {
    let mut pool = pool_of(4);
    let after = integrate_all(&mut pool, &[false, false, false, false]);
    let pairs = attempt_all(&mut pool, after, false);
    assert_eq!(pairs, vec![(1, 0), (2, 0), (2, 1), (3, 0), (3, 1), (3, 2)]);
    assert_eq!(pool.pending(), Action::Finished);
}

#[test]
fn failed_attempt_sets_no_marker() {
    let mut pool = pool_of(2);
    let after = integrate_all(&mut pool, &[false, false]);
    assert_eq!(after, collide(1, 0));
    assert_eq!(pool.advance(attempted(false)), Action::Finished);
    assert!(!pool.has_collided(0));
    assert!(!pool.has_collided(1));
}

#[test]
fn resolved_collision_marks_both() {
    let mut pool = pool_of(3);
    let after = integrate_all(&mut pool, &[false, false, false]);
    assert_eq!(after, collide(1, 0));
    // after (1, 0) collide, particle 2 finds both partners locked
    let next = pool.advance(attempted(true));
    assert_eq!(next, Action::Finished);
}

#[test]
fn markers_are_visible_while_the_pass_goes_on() {
    let mut pool = pool_of(4);
    let after = integrate_all(&mut pool, &[false, false, false, false]);
    assert_eq!(after, collide(1, 0));
    assert_eq!(pool.advance(attempted(true)), collide(3, 2));
    assert!(pool.has_collided(0));
    assert!(pool.has_collided(1));
    assert!(!pool.has_collided(2));
    assert!(!pool.has_collided(3));
    assert_eq!(pool.advance(attempted(true)), Action::Finished);
    for index in 0..4 {
        assert!(!pool.has_collided(index));
    }
}

#[test]
fn reflected_particle_neither_initiates_nor_partners() {
    let mut pool = pool_of(3);
    let after = integrate_all(&mut pool, &[false, true, false]);
    // particle 1 is skipped as initiator, and as partner of particle 2
    let pairs = attempt_all(&mut pool, after, false);
    assert_eq!(pairs, vec![(2, 0)]);
}

#[test]
fn reflected_initiator_is_skipped_entirely() {
    let mut pool = pool_of(3);
    let after = integrate_all(&mut pool, &[false, false, true]);
    let pairs = attempt_all(&mut pool, after, false);
    assert_eq!(pairs, vec![(1, 0)]);
}

#[test]
fn all_reflected_means_no_attempt() {
    let mut pool = pool_of(3);
    let after = integrate_all(&mut pool, &[true, true, true]);
    assert_eq!(after, Action::Finished);
    for index in 0..3 {
        assert!(!pool.has_collided(index));
    }
}

#[test]
fn initiator_goes_on_with_its_scan_after_a_collision() {
    let mut pool = pool_of(3);
    let after = integrate_all(&mut pool, &[false, false, false]);
    assert_eq!(after, collide(1, 0));
    assert_eq!(pool.advance(attempted(false)), collide(2, 0));
    // particle 2 collides with particle 0 and is still offered particle 1
    assert_eq!(pool.advance(attempted(true)), collide(2, 1));
    assert!(pool.has_collided(2));
    assert!(pool.has_collided(0));
    assert!(!pool.has_collided(1));
    assert_eq!(pool.advance(attempted(true)), Action::Finished);
}

#[test]
fn partner_is_locked_for_later_initiators() {
    let mut pool = pool_of(4);
    let after = integrate_all(&mut pool, &[false, false, false, false]);
    assert_eq!(after, collide(1, 0));
    assert_eq!(pool.advance(attempted(false)), collide(2, 0));
    assert_eq!(pool.advance(attempted(true)), collide(2, 1));
    assert_eq!(pool.advance(attempted(false)), collide(3, 1));
    assert_eq!(pool.advance(attempted(false)), Action::Finished);
}

#[test]
fn event_that_does_not_answer_is_ignored() {
    let mut pool = pool_of(2);
    // between ticks only a start is heard
    assert_eq!(pool.advance(integrated(true)), Action::Finished);
    assert_eq!(pool.advance(attempted(true)), Action::Finished);
    assert!(!pool.has_collided(0));
    assert!(!pool.has_collided(1));

    assert_eq!(pool.advance(Event::Start), integrate(0));
    // a tick under way is not restarted, and an attempt is not an integration
    assert_eq!(pool.advance(Event::Start), integrate(0));
    assert_eq!(pool.advance(attempted(true)), integrate(0));
    assert!(!pool.has_collided(0));

    assert_eq!(pool.advance(integrated(false)), integrate(1));
    assert_eq!(pool.advance(integrated(false)), collide(1, 0));
    assert_eq!(pool.advance(Event::Start), collide(1, 0));
    assert_eq!(pool.advance(integrated(true)), collide(1, 0));
    assert!(!pool.has_collided(0));
    assert!(!pool.has_collided(1));
    assert_eq!(pool.advance(attempted(false)), Action::Finished);
}

#[test]
fn ticks_repeat_from_a_clean_slate() {
    let mut pool = pool_of(3);
    let after = integrate_all(&mut pool, &[true, false, false]);
    let pairs = attempt_all(&mut pool, after, true);
    assert_eq!(pairs, vec![(2, 1)]);

    let after = integrate_all(&mut pool, &[false, false, false]);
    let pairs = attempt_all(&mut pool, after, false);
    assert_eq!(pairs, vec![(1, 0), (2, 0), (2, 1)]);
    assert_eq!(pool.len(), 3);
}

/// The tick written as three plain loops over the markers.  Returns the
/// attempts in the order in which they are made.
fn reference_attempts(
    reflected: &[bool],
    resolves: &dyn Fn(usize, usize) -> bool,
) -> Vec<(usize, usize)> {
    let count = reflected.len();
    let mut collided = vec![false; count];
    for k in 0..count {
        if reflected[k] {
            collided[k] = true;
        }
    }
    let mut attempts = Vec::new();
    for i in 1..count {
        if collided[i] {
            continue;
        }
        for j in 0..i {
            if collided[j] {
                continue;
            }
            attempts.push((i, j));
            if resolves(i, j) {
                collided[i] = true;
                collided[j] = true;
            }
        }
    }
    attempts
}

fn scheduled_attempts(
    reflected: &[bool],
    resolves: &dyn Fn(usize, usize) -> bool,
) -> Vec<(usize, usize)> {
    let mut pool = pool_of(reflected.len());
    let mut action = integrate_all(&mut pool, reflected);
    let mut attempts = Vec::new();
    while let Action::Collide { first, second } = action {
        attempts.push((first, second));
        action = pool.advance(Event::Attempted { resolved: resolves(first, second) });
    }
    assert_eq!(action, Action::Finished);
    for index in 0..reflected.len() {
        assert!(!pool.has_collided(index));
    }
    attempts
}

#[test]
fn schedule_agrees_with_plain_loops_on_every_small_script() {
    for count in 0..6usize {
        let pairs = count * count.saturating_sub(1) / 2;
        for wall in 0..(1u32 << count) {
            let reflected: Vec<bool> = (0..count).map(|k| wall & (1 << k) != 0).collect();
            for script in 0..(1u32 << pairs) {
                let resolves =
                    move |i: usize, j: usize| script & (1 << (i * (i - 1) / 2 + j)) != 0;
                assert_eq!(
                    scheduled_attempts(&reflected, &resolves),
                    reference_attempts(&reflected, &resolves)
                );
            }
        }
    }
}

#[test]
fn tick_takes_a_bounded_number_of_steps() {
    for count in 0..8usize {
        let mut pool = pool_of(count);
        let mut steps = 1;
        let mut action = pool.advance(Event::Start);
        loop {
            let event = match action {
                Action::Integrate { .. } => integrated(false),
                Action::Collide { .. } => attempted(false),
                Action::Finished => break,
            };
            action = pool.advance(event);
            steps += 1;
        }
        assert_eq!(steps, 1 + count + count * count.saturating_sub(1) / 2);
    }
}

#[test]
fn no_particle_is_partner_of_two_resolved_collisions() {
    let count = 6;
    let mut pool = pool_of(count);
    let mut action = integrate_all(&mut pool, &[false; 6]);
    let mut partnered = vec![0; count];
    let mut locked = vec![false; count];
    while let Action::Collide { first, second } = action {
        assert!(!locked[second]);
        partnered[second] += 1;
        locked[first] = true;
        locked[second] = true;
        action = pool.advance(attempted(true));
    }
    assert!(partnered.iter().all(|times| *times <= 1));
}

/// A host that answers from a script and writes down what it was asked.
fn run_scripted(
    pool: &mut ParticlePool,
    reflected: &[bool],
    resolves: &dyn Fn(usize, usize) -> bool,
) -> Vec<Action> {
    let mut asked = Vec::new();
    pool.step(&mut |action: Action| {
        asked.push(action);
        match action {
            Action::Integrate { index } => reflected[index],
            Action::Collide { first, second } => resolves(first, second),
            Action::Finished => unreachable!(),
        }
    });
    asked
}

#[test]
fn step_runs_a_whole_tick() {
    let mut pool = pool_of(3);
    let asked = run_scripted(&mut pool, &[false, false, false], &|_, _| false);
    assert_eq!(
        asked,
        vec![
            integrate(0),
            integrate(1),
            integrate(2),
            collide(1, 0),
            collide(2, 0),
            collide(2, 1),
        ]
    );
    assert_eq!(pool.pending(), Action::Finished);
    assert_eq!(pool.len(), 3);
}

#[test]
fn step_asks_nothing_of_an_empty_pool() {
    let mut pool = pool_of(0);
    let asked = run_scripted(&mut pool, &[], &|_, _| true);
    assert_eq!(asked, vec![]);
    assert_eq!(pool.pending(), Action::Finished);
}

#[test]
fn step_clears_the_markers_it_set() {
    let mut pool = pool_of(4);
    let asked = run_scripted(&mut pool, &[true, false, false, false], &|_, _| true);
    assert_eq!(
        asked,
        vec![
            integrate(0),
            integrate(1),
            integrate(2),
            integrate(3),
            collide(2, 1),
        ]
    );
    for index in 0..4 {
        assert!(!pool.has_collided(index));
    }
}

#[test]
fn step_carries_on_a_tick_under_way() {
    let mut pool = pool_of(3);
    assert_eq!(pool.advance(Event::Start), integrate(0));
    assert_eq!(pool.advance(integrated(false)), integrate(1));
    let asked = run_scripted(&mut pool, &[false, false, false], &|_, _| false);
    assert_eq!(
        asked,
        vec![
            integrate(1),
            integrate(2),
            collide(1, 0),
            collide(2, 0),
            collide(2, 1),
        ]
    );
    assert_eq!(pool.pending(), Action::Finished);
}

#[test]
fn step_agrees_with_plain_loops_on_every_small_script() {
    for count in 0..6usize {
        let pairs = count * count.saturating_sub(1) / 2;
        for wall in 0..(1u32 << count) {
            let reflected: Vec<bool> = (0..count).map(|k| wall & (1 << k) != 0).collect();
            for script in 0..(1u32 << pairs) {
                let resolves =
                    move |i: usize, j: usize| script & (1 << (i * (i - 1) / 2 + j)) != 0;
                let mut pool = pool_of(count);
                let asked = run_scripted(&mut pool, &reflected, &resolves);
                let mut expected: Vec<Action> =
                    (0..count).map(|index| Action::Integrate { index }).collect();
                for (first, second) in reference_attempts(&reflected, &resolves) {
                    expected.push(Action::Collide { first, second });
                }
                assert_eq!(asked, expected);
                assert_eq!(pool.pending(), Action::Finished);
            }
        }
    }
}
