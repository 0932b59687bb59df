//! The notes directory, and the tags gathered from its notes.
use vstd::prelude::*;
use crate::text::{dedup, push_unique, string_views};

verus! {

/// A directory of notes.
#[derive(Debug, Clone)]
pub struct Vault {
    pub vault_path: String,
}

/// The tags of all notes, each note's tags in turn.
pub open spec fn all_note_tags(notes: Seq<Vec<String>>) -> Seq<Seq<char>>
    decreases notes.len(),
{
    if notes.len() == 0 {
        seq![]
    } else {
        all_note_tags(notes.drop_last()) + string_views(notes.last()@)
    }
}

impl Vault {
    /// The distinct tags among the tags of the vault's notes (given as each
    /// note's tags, as listing the notes reads the disk), in order of first
    /// appearance.
    pub fn all_tags(&self, note_tags: &[Vec<String>]) -> (r: Vec<String>)
        ensures
            string_views(r@) == dedup(all_note_tags(note_tags@)),
    {
        let mut r: Vec<String> = Vec::new();
        let ghost mut seen: Seq<Seq<char>> = seq![];
        let mut k: usize = 0;
        while k < note_tags.len()
            invariant
                k <= note_tags@.len(),
                seen == all_note_tags(note_tags@.take(k as int)),
                string_views(r@) == dedup(seen),
            decreases note_tags@.len() - k,
        {
            let tags = &note_tags[k];
            let mut q: usize = 0;
            let ghost base = seen;
            while q < tags.len()
                invariant
                    q <= tags@.len(),
                    seen == base + string_views(tags@).take(q as int),
                    string_views(r@) == dedup(seen),
                decreases tags@.len() - q,
            {
                push_unique(&mut r, tags[q].clone());
                proof {
                    assert(seen.push(tags@[q as int]@).drop_last() =~= seen);
                    seen = seen.push(tags@[q as int]@);
                    assert(seen =~= base + string_views(tags@).take(q + 1));
                }
                q += 1;
            }
            proof {
                assert(string_views(tags@).take(tags@.len() as int) =~= string_views(tags@));
                assert(note_tags@.take(k + 1).drop_last() =~= note_tags@.take(k as int));
                assert(note_tags@.take(k + 1).last() == note_tags@[k as int]);
            }
            k += 1;
        }
        proof {
            assert(note_tags@.take(note_tags@.len() as int) =~= note_tags@);
        }
        r
    }
}

} // verus!
