//! Tick scheduling for a pool of colliding particles.
//!
//! A tick of the simulation integrates every particle once, in index order;
//! then makes one ascending pass of pairwise collision attempts, in which
//! each particle that is still unmarked scans the particles below it and
//! tries those that are unmarked; and at last clears every marker.  A
//! particle is marked when it is reflected off the wall and when it takes
//! part in a resolved collision, so that a particle that has collided is
//! locked for the rest of the tick: it begins no scan and is nobody's
//! partner.
//!
//! The numeric work (moving a particle, reflecting it, resolving a contact
//! between two particles) is the host's.  A [`ParticlePool`] owns the
//! markers and decides what the host has to do next.  It begins empty
//! ([`ParticlePool::new`]) and takes one particle at a time between ticks
//! ([`ParticlePool::push`]), as the host fills its own list; then:
//!
//! * [`ParticlePool::step`] runs a whole tick and calls the host for each
//!   integration and each collision attempt;
//! * [`ParticlePool::advance`] is the single transition under it, for a
//!   host that keeps the loop to itself: it takes an [`Event`] and returns
//!   the [`Action`] that is pending afterwards.
//!
//! [`Schedule`] is the mathematical model of a pool that the contracts
//! speak of, and the module `laws` holds what is proved of it.

pub mod schedule;
pub mod pool;
pub mod laws;

pub use pool::ParticlePool;
pub use schedule::{Action, Event, Schedule};
