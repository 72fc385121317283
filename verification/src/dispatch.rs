//! Job dispatch: an explicit registry that resolves a stored type tag to
//! the slot of a registered decode-and-execute handler.
//!
//! Each job row stores a type tag; the registry maps it to the handler that
//! decodes the row's payload and performs the work. An unrecognized tag, or
//! a payload its handler cannot decode, is a job-local error handled like
//! any other handler error — never a runner-fatal one.

use vstd::prelude::*;
use vstd::string::*;

verus! {

/// The registry of handler tags, in registration order; a tag's position
/// is its handler's slot.
pub struct JobRegistry {
    tags: Vec<String>,
}

impl View for JobRegistry {
    type V = Seq<Seq<char>>;

    closed spec fn view(&self) -> Seq<Seq<char>> {
        self.tags@.map_values(|t: String| t@)
    }
}

impl JobRegistry {
    /// A registry with no handlers.
    pub fn new() -> (r: JobRegistry)
        ensures
            r@ =~= Seq::<Seq<char>>::empty(),
    {
        JobRegistry { tags: Vec::new() }
    }

    /// Register the handler for one type tag; its slot is returned.
    pub fn register(&mut self, tag: String) -> (slot: usize)
        ensures
            final(self)@ =~= old(self)@.push(tag@),
            slot == old(self)@.len(),
    {
        let slot = self.tags.len();
        self.tags.push(tag);
        proof {
            assert(self@ =~= old(self)@.push(self.tags@.last()@));
        }
        slot
    }

    /// Resolve a stored type tag to its handler's slot: the first
    /// registered tag equal to it, or `None` exactly when no registered
    /// tag matches.
    pub fn resolve(&self, tag: &String) -> (r: Option<usize>)
        ensures
            match r {
                Some(i) => i < self@.len() && self@[i as int] == tag@ && forall|j: int|
                    0 <= j < i ==> self@[j] != tag@,
                None => forall|j: int| 0 <= j < self@.len() ==> self@[j] != tag@,
            },
    {
        let mut i: usize = 0;
        while i < self.tags.len()
            invariant
                i <= self@.len(),
                self@.len() == self.tags@.len(),
                forall|j: int| 0 <= j < i ==> self@[j] != tag@,
            decreases self@.len() - i,
        {
            if self.tags[i].eq(tag) {
                return Some(i);
            }
            i = i + 1;
        }
        None
    }
}

} // verus!
