//! A hash map whose entries expire after a configurable idle period.
//!
//! Every mutating or reading access "touches" the key involved, recording the
//! current time as its last access; an explicit [`TransientHashMap::prune`]
//! sweep removes the keys that have sat untouched for the configured lifetime.
//! Time is supplied by a [`Timer`], so a deterministic clock can be injected
//! for testing; the default [`StandardTimer`] reads the system clock.

mod clock;
mod transient;

pub use clock::{StandardTimer, Timer};
pub use transient::{
    lemma_expired_key_reports_zero, lemma_insert_then_get_round_trip, lemma_prune_is_exact,
    lemma_pruned_survivors_are_live, lemma_remaining_counts_down, lemma_touch_resets_lifetime,
    lemma_untracked_key_has_no_lifetime, prune_outcome, pruned_stamps, pruned_values,
    remaining_after, spec_remaining, TransientHashMap,
};
