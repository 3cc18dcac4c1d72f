//! The name translator: a bidirectional mapping between chromosome-name
//! strings and dense integer ids, assigned in first-seen order and
//! read-only once the input pass is finished.

use vstd::prelude::*;
use crate::record::GiaError;

verus! {

/// The translator owns the names in id order: the id of a name is its
/// index.  Ids are assigned in first-seen order, so for operations over
/// two inputs one shared translator must intern both.
pub struct Translater {
    names: Vec<String>,
}

impl Translater {
    /// The names interned so far, in id order.
    pub closed spec fn names_view(self) -> Seq<Seq<char>> {
        Seq::new(self.names@.len(), |i: int| self.names@[i]@)
    }

    /// No name is interned twice, so ids and names determine each other.
    pub closed spec fn wf(self) -> bool {
        forall|i: int, j: int|
            0 <= i < j < self.names@.len() ==> self.names@[i]@ != self.names@[j]@
    }

    pub fn new() -> (r: Translater)
        ensures
            r.wf(),
            r.names_view() == Seq::<Seq<char>>::empty(),
    {
        let r = Translater { names: Vec::new() };
        proof {
            assert(r.names_view() =~= Seq::<Seq<char>>::empty());
        }
        r
    }

    /// How many names are interned (the next fresh id).
    pub fn len(&self) -> (r: usize)
        ensures
            r == self.names_view().len(),
    {
        self.names.len()
    }

    /// Intern a name: a name already seen keeps its id (interning is
    /// idempotent), a new one gets the next id in first-seen order.
    pub fn intern(&mut self, name: &String) -> (id: u32)
        requires
            old(self).wf(),
            old(self).names_view().len() < u32::MAX,
        ensures
            final(self).wf(),
            0 <= id < final(self).names_view().len(),
            final(self).names_view()[id as int] == name@,
            (exists|k: int| 0 <= k < old(self).names_view().len()
                && old(self).names_view()[k] == name@)
                ==> *final(self) == *old(self),
            !(exists|k: int| 0 <= k < old(self).names_view().len()
                && old(self).names_view()[k] == name@)
                ==> final(self).names_view() == old(self).names_view().push(name@)
                    && id == old(self).names_view().len(),
    {
        let mut i: usize = 0;
        while i < self.names.len()
            invariant
                0 <= i <= self.names@.len(),
                forall|k: int| 0 <= k < i ==> self.names@[k]@ != name@,
            decreases self.names@.len() - i,
        {
            let hit = (&self.names[i]).eq(name);
            if hit {
                return i as u32;
            }
            i += 1;
        }
        let ghost old_view = self.names_view();
        self.names.push(name.clone());
        proof {
            assert(self.names_view() =~= old_view.push(name@));
        }
        (self.names.len() - 1) as u32
    }

    /// Look an id up.  Only ids handed out by `intern` resolve; any other
    /// is the `UnknownId` defect.
    pub fn get_name(&self, id: u32) -> (r: Result<String, GiaError>)
        ensures
            r is Ok <==> id < self.names_view().len(),
            r matches Ok(s) ==> s@ == self.names_view()[id as int],
            r matches Err(e) ==> e == (GiaError::UnknownId { id }),
    {
        if (id as usize) < self.names.len() {
            Ok(self.names[id as usize].clone())
        } else {
            Err(GiaError::UnknownId { id })
        }
    }
}

} // verus!
