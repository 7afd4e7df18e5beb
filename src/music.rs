use vstd::prelude::*;

use crate::settings::CHANNEL_COUNT;

verus! {

/// A piece of music: one sequence of sound numbers per channel.
#[derive(Clone)]
pub struct Music {
    pub sequences: [Vec<u32>; 4],
}

impl Music {
    /// Music with every channel's sequence empty.
    pub fn new() -> (r: Music)
        ensures
            forall|i: int| 0 <= i < CHANNEL_COUNT ==> (#[trigger] r.sequences@[i])@.len() == 0,
    {
        Music { sequences: [Vec::new(), Vec::new(), Vec::new(), Vec::new()] }
    }

    /// Replaces each channel's sequence with a copy of the given one.
    pub fn set(&mut self, sequences: &[&[u32]])
        requires
            sequences@.len() >= CHANNEL_COUNT,
        ensures
            forall|i: int| 0 <= i < CHANNEL_COUNT ==> (#[trigger] final(self).sequences@[i])@ == sequences@[i]@,
    {
        let s0 = vstd::slice::slice_to_vec(sequences[0]);
        let s1 = vstd::slice::slice_to_vec(sequences[1]);
        let s2 = vstd::slice::slice_to_vec(sequences[2]);
        let s3 = vstd::slice::slice_to_vec(sequences[3]);
        self.sequences = [s0, s1, s2, s3];
        proof {
            assert forall|i: int| 0 <= i < CHANNEL_COUNT implies (#[trigger] self.sequences@[i])@
                == sequences@[i]@ by {
                if i == 0 {
                } else if i == 1 {
                } else if i == 2 {
                } else {
                }
            }
        }
    }
}

} // verus!
