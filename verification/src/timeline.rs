//! Cue bookkeeping of the timeline: transitions, ids and labels.
//!
//! Cue times and parameter values are floating point and handled by the
//! application; what is decided on integers and text is here.
use vstd::prelude::*;

use crate::text::{append_decimal, chars_of, decimal, string_of};

verus! {

/// How the timeline moves into a cue from the previous one.
#[derive(Clone, Copy, Debug, PartialEq, Eq, Structural)]
pub enum Transition {
    /// Values jump to this cue exactly at its time.
    Cut,
    /// Values are linearly interpolated from the previous cue to this one.
    Interpolate,
}

impl Transition {
    /// The other transition.
    pub fn toggled(self) -> (t: Transition)
        ensures
            t == toggled_spec(self),
    {
        match self {
            Transition::Cut => Transition::Interpolate,
            Transition::Interpolate => Transition::Cut,
        }
    }
}

/// Toggling twice gives the transition back.
pub proof fn law_toggle_twice(t: Transition)
    ensures
        toggled_spec(toggled_spec(t)) == t,
{
}

/// The other transition.
pub open spec fn toggled_spec(t: Transition) -> Transition {
    match t {
        Transition::Cut => Transition::Interpolate,
        Transition::Interpolate => Transition::Cut,
    }
}

impl Default for Transition {
    /// Interpolation.
    fn default() -> (t: Transition)
        ensures
            t == Transition::Interpolate,
    {
        Transition::Interpolate
    }
}

/// The largest of `ids`, 0 for none.
pub open spec fn max_id(ids: Seq<u32>) -> u32
    decreases ids.len(),
{
    if ids.len() == 0 {
        0
    } else if ids.last() > max_id(ids.drop_last()) {
        ids.last()
    } else {
        max_id(ids.drop_last())
    }
}

/// The id a new cue gets: the stored counter, raised past every id in use.
pub open spec fn cue_id_spec(next_id: u32, ids: Seq<u32>) -> u32 {
    if next_id > max_id(ids) + 1 {
        next_id
    } else {
        (max_id(ids) + 1) as u32
    }
}

proof fn lemma_max_id(ids: Seq<u32>)
    ensures
        forall|k: int| 0 <= k < ids.len() ==> ids[k] <= max_id(ids),
    decreases ids.len(),
{
    if ids.len() > 0 {
        lemma_max_id(ids.drop_last());
        assert forall|k: int| 0 <= k < ids.len() implies ids[k] <= max_id(ids) by {
            if k < ids.len() - 1 {
                assert(ids[k] == ids.drop_last()[k]);
            }
        }
    }
}

/// The id for a new cue and the counter to store after it. Files written
/// before the counter existed hold cues with ids above it; the id is raised
/// past them.
pub fn next_cue_id(next_id: u32, ids: &Vec<u32>) -> (r: (u32, u32))
    requires
        max_id(ids@) < u32::MAX,
        cue_id_spec(next_id, ids@) < u32::MAX,
    ensures
        r.0 == cue_id_spec(next_id, ids@),
        r.1 == r.0 + 1,
{
    let mut max_existing: u32 = 0;
    let mut i: usize = 0;
    assert(ids@.take(0) =~= Seq::<u32>::empty());
    while i < ids.len()
        invariant
            i <= ids.len(),
            max_existing == max_id(ids@.take(i as int)),
        decreases ids.len() - i,
    {
        assert(ids@.take(i + 1).drop_last() =~= ids@.take(i as int));
        if ids[i] > max_existing {
            max_existing = ids[i];
        }
        i = i + 1;
    }
    assert(ids@.take(ids.len() as int) =~= ids@);
    let raised = max_existing + 1;
    let id = if next_id > raised {
        next_id
    } else {
        raised
    };
    (id, id + 1)
}

/// A new cue's id is above every id in use, so no cue has it.
pub proof fn law_new_cue_id_is_fresh(next_id: u32, ids: Seq<u32>)
    requires
        max_id(ids) < u32::MAX,
    ensures
        forall|k: int| 0 <= k < ids.len() ==> ids[k] < cue_id_spec(next_id, ids),
{
    lemma_max_id(ids);
}

/// The label a new cue gets: `Cue ` and its id.
pub fn cue_label(id: u32) -> (s: String)
    ensures
        s@ == "Cue "@ + decimal(id as nat),
{
    let mut m = chars_of("Cue ");
    append_decimal(&mut m, id as u64);
    string_of(&m)
}

} // verus!
