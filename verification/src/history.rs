//! A bounded history of what sessions sent (console lines, captured calls),
//! oldest first, read back grouped into runs by the session that sent them.

use vstd::prelude::*;

use crate::protocol::messages::SessionId;

verus! {

/// The history entries as one sequence: each batch's items tagged with its id.
pub open spec fn flatten<T>(batches: Seq<(SessionId, Vec<T>)>) -> Seq<(SessionId, T)>
    decreases batches.len(),
{
    if batches.len() == 0 {
        Seq::empty()
    } else {
        let (id, items) = batches.last();
        flatten(batches.drop_last()) + items@.map_values(|x: T| (id, x))
    }
}

/// The last `capacity` entries pushed, oldest first.
#[derive(Debug)]
pub struct History<T> {
    entries: Vec<(SessionId, T)>,
    capacity: usize,
}

impl<T> History<T> {
    /// The remembered entries, oldest first.
    pub closed spec fn entries(&self) -> Seq<(SessionId, T)> {
        self.entries@
    }

    /// How many entries are remembered at most.
    pub closed spec fn limit(&self) -> nat {
        self.capacity as nat
    }

    #[verifier::type_invariant]
    closed spec fn wf(&self) -> bool {
        0 < self.capacity && self.entries@.len() <= self.capacity
    }

    /// An empty history remembering at most `capacity` entries.
    pub fn new(capacity: usize) -> (r: Self)
        requires
            capacity > 0,
        ensures
            r.entries() == Seq::<(SessionId, T)>::empty(),
            r.limit() == capacity,
    {
        History { entries: Vec::new(), capacity }
    }

    /// Remember one more entry, forgetting the oldest once full.
    pub fn push(&mut self, id: SessionId, entry: T)
        ensures
            final(self).limit() == old(self).limit(),
            final(self).entries() == if old(self).entries().len() == old(self).limit() {
                old(self).entries().drop_first()
            } else {
                old(self).entries()
            }.push((id, entry)),
    {
        proof {
            use_type_invariant(&*self);
        }
        let mut entries: Vec<(SessionId, T)> = Vec::new();
        std::mem::swap(&mut entries, &mut self.entries);
        if entries.len() == self.capacity {
            entries.remove(0);
        }
        entries.push((id, entry));
        self.entries = entries;
    }

    /// Forget everything, answering with how many entries went.
    pub fn clear(&mut self) -> (r: usize)
        ensures
            r == old(self).entries().len(),
            final(self).entries() == Seq::<(SessionId, T)>::empty(),
            final(self).limit() == old(self).limit(),
    {
        proof {
            use_type_invariant(&*self);
        }
        let dropped = self.entries.len();
        self.entries = Vec::new();
        dropped
    }

    /// How many entries are remembered.
    pub fn len(&self) -> (r: usize)
        ensures
            r == self.entries().len(),
    {
        self.entries.len()
    }
}

impl<T: Clone> History<T> {
    /// Every remembered entry, in order, grouped into runs by the session that
    /// sent it: no run is empty, neighbouring runs come from different
    /// sessions, and the runs laid end to end give back (clones of) the entries.
    pub fn batches(&self) -> (r: Vec<(SessionId, Vec<T>)>)
        ensures
            forall|b: int| 0 <= b < r@.len() ==> (#[trigger] r@[b]).1@.len() > 0,
            forall|b: int| 0 <= b < r@.len() - 1 ==> (#[trigger] r@[b]).0 != r@[b + 1].0,
            flatten(r@).len() == self.entries().len(),
            forall|i: int|
                0 <= i < self.entries().len() ==> (#[trigger] flatten(r@)[i]).0 == self.entries()[i].0
                    && cloned(self.entries()[i].1, flatten(r@)[i].1),
    {
        let mut out: Vec<(SessionId, Vec<T>)> = Vec::new();
        let mut k: usize = 0;
        while k < self.entries.len()
            invariant
                k <= self.entries@.len(),
                forall|b: int| 0 <= b < out@.len() ==> (#[trigger] out@[b]).1@.len() > 0,
                forall|b: int| 0 <= b < out@.len() - 1 ==> (#[trigger] out@[b]).0 != out@[b + 1].0,
                flatten(out@).len() == k,
                forall|i: int|
                    0 <= i < k ==> (#[trigger] flatten(out@)[i]).0 == self.entries@[i].0 && cloned(
                        self.entries@[i].1,
                        flatten(out@)[i].1,
                    ),
                k > 0 ==> out@.len() > 0 && out@.last().0 == self.entries@[k - 1].0,
                k == 0 ==> out@.len() == 0,
            decreases self.entries@.len() - k,
        {
            let id = self.entries[k].0;
            let item = self.entries[k].1.clone();
            let ghost before = out@;
            let same = match out.last() {
                Some(last) => last.0 == id,
                None => false,
            };
            if same {
                let (last_id, mut items) = out.pop().unwrap();
                let ghost old_items = items@;
                items.push(item);
                out.push((last_id, items));
                proof {
                    assert(out@.drop_last() =~= before.drop_last());
                    assert(items@.map_values(|x: T| (last_id, x)) =~= old_items.map_values(
                        |x: T| (last_id, x),
                    ).push((id, item)));
                    assert(flatten(out@) =~= flatten(before).push((id, item)));
                }
            } else {
                let mut items: Vec<T> = Vec::new();
                items.push(item);
                out.push((id, items));
                proof {
                    assert(out@.drop_last() =~= before);
                    assert(items@.map_values(|x: T| (id, x)) =~= seq![(id, item)]);
                    assert(flatten(out@) =~= flatten(before).push((id, item)));
                }
            }
            k = k + 1;
        }
        out
    }
}

} // verus!
