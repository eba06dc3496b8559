//! Time-priority queue of resting order ids at one price level: the smallest
//! order id (the earliest order) is always at the front.
use vstd::prelude::*;

use crate::order::OrderPtr;
use crate::types::OrderId;

verus! {

/// Each id is smaller than every id after it.
pub open spec fn strictly_increasing(s: Seq<u64>) -> bool {
    forall|i: int, j: int| 0 <= i < j < s.len() ==> s[i] < s[j]
}

/// `i` is where `x` belongs in `s`: everything before is smaller, everything from it on is larger.
pub open spec fn is_insert_pos(s: Seq<u64>, x: u64, i: int) -> bool {
    &&& 0 <= i <= s.len()
    &&& forall|j: int| 0 <= j < i ==> s[j] < x
    &&& forall|j: int| i <= j < s.len() ==> s[j] > x
}

/// `s` with `x` added in order (unchanged when `x` is already there).
pub open spec fn sorted_insert(s: Seq<u64>, x: u64) -> Seq<u64> {
    if s.contains(x) {
        s
    } else {
        s.insert(choose|i: int| is_insert_pos(s, x, i), x)
    }
}

/// `s` without `x` (unchanged when `x` is not there).
pub open spec fn remove_value(s: Seq<u64>, x: u64) -> Seq<u64> {
    if s.contains(x) {
        s.remove(choose|i: int| 0 <= i < s.len() && s[i] == x)
    } else {
        s
    }
}

/// In a strictly increasing sequence an id sits at one index only.
pub proof fn lemma_index_unique(s: Seq<u64>, x: u64, i: int)
    requires
        strictly_increasing(s),
        0 <= i < s.len(),
        s[i] == x,
    ensures
        (choose|k: int| 0 <= k < s.len() && s[k] == x) == i,
        remove_value(s, x) == s.remove(i),
{
    let k = choose|k: int| 0 <= k < s.len() && s[k] == x;
    assert(0 <= k < s.len() && s[k] == x);
    if k < i {
        assert(s[k] < s[i]);
    } else if k > i {
        assert(s[i] < s[k]);
    }
}

/// The place where an absent id belongs is unique.
pub proof fn lemma_insert_pos_unique(s: Seq<u64>, x: u64, i: int)
    requires
        strictly_increasing(s),
        is_insert_pos(s, x, i),
    ensures
        (choose|k: int| is_insert_pos(s, x, k)) == i,
        !s.contains(x),
        sorted_insert(s, x) == s.insert(i, x),
{
    let k = choose|k: int| is_insert_pos(s, x, k);
    assert(is_insert_pos(s, x, k));
    if k < i {
        assert(s[k] < x);
        assert(s[k] > x);
    } else if k > i {
        assert(s[i] < x);
        assert(s[i] > x);
    }
    if s.contains(x) {
        let j = choose|j: int| 0 <= j < s.len() && s[j] == x;
        assert(s[j] == x);
    }
}

/// An absent id has a place in a strictly increasing sequence, and putting it there
/// keeps the sequence strictly increasing.
pub proof fn lemma_sorted_insert(s: Seq<u64>, x: u64)
    requires
        strictly_increasing(s),
        !s.contains(x),
    ensures
        exists|i: int| is_insert_pos(s, x, i) && sorted_insert(s, x) == s.insert(i, x),
        strictly_increasing(sorted_insert(s, x)),
        sorted_insert(s, x).contains(x),
        forall|j: int| 0 <= j < s.len() ==> sorted_insert(s, x).contains(#[trigger] s[j]),
        forall|j: int|
            0 <= j < sorted_insert(s, x).len() ==> #[trigger] sorted_insert(s, x)[j] == x
                || s.contains(sorted_insert(s, x)[j]),
    decreases s.len(),
{
    lemma_insert_pos_exists(s, x);
    let i = choose|i: int| is_insert_pos(s, x, i);
    lemma_insert_pos_unique(s, x, i);
    let r = s.insert(i, x);
    assert(r[i] == x);
    assert forall|a: int, b: int| 0 <= a < b < r.len() implies r[a] < r[b] by {
        if b < i {
        } else if b == i {
        } else if a < i {
            assert(s[a] < x);
        } else if a == i {
            assert(s[b - 1] > x);
        } else {
            assert(s[a - 1] < s[b - 1]);
        }
    }
    assert forall|j: int| 0 <= j < s.len() implies r.contains(#[trigger] s[j]) by {
        if j < i {
            assert(r[j] == s[j]);
        } else {
            assert(r[j + 1] == s[j]);
        }
    }
    assert forall|j: int| 0 <= j < r.len() implies #[trigger] r[j] == x || s.contains(r[j]) by {
        if j < i {
            assert(r[j] == s[j]);
        } else if j > i {
            assert(r[j] == s[j - 1]);
        }
    }
}

pub proof fn lemma_insert_pos_exists(s: Seq<u64>, x: u64)
    requires
        strictly_increasing(s),
        !s.contains(x),
    ensures
        exists|i: int| is_insert_pos(s, x, i),
    decreases s.len(),
{
    if s.len() == 0 {
        assert(is_insert_pos(s, x, 0));
    } else if s.last() < x {
        assert forall|j: int| 0 <= j < s.len() implies s[j] < x by {
            if j < s.len() - 1 {
                assert(s[j] < s[s.len() - 1]);
            }
        }
        assert(is_insert_pos(s, x, s.len() as int));
    } else {
        let t = s.drop_last();
        assert(strictly_increasing(t)) by {
            assert forall|a: int, b: int| 0 <= a < b < t.len() implies t[a] < t[b] by {
                assert(s[a] < s[b]);
            }
        }
        assert(!t.contains(x)) by {
            if t.contains(x) {
                let k = choose|k: int| 0 <= k < t.len() && t[k] == x;
                assert(s[k] == x);
            }
        }
        lemma_insert_pos_exists(t, x);
        let i = choose|i: int| is_insert_pos(t, x, i);
        assert(s.last() != x) by {
            assert(s[s.len() - 1] == s.last());
        }
        assert(is_insert_pos(s, x, i)) by {
            assert forall|j: int| 0 <= j < i implies s[j] < x by {
                assert(t[j] == s[j]);
            }
            assert forall|j: int| i <= j < s.len() implies s[j] > x by {
                if j < s.len() - 1 {
                    assert(t[j] == s[j]);
                }
            }
        }
    }
}

pub struct OrderQueue {
    ids: Vec<OrderId>,
}

impl View for OrderQueue {
    type V = Seq<u64>;

    closed spec fn view(&self) -> Seq<u64> {
        self.ids@
    }
}

impl OrderQueue {
    #[verifier::type_invariant]
    spec fn ids_in_order(&self) -> bool {
        strictly_increasing(self.ids@)
    }

    pub fn new() -> (q: Self)
        ensures
            q@ == Seq::<u64>::empty(),
    {
        OrderQueue { ids: Vec::new() }
    }

    /// Add an order by its id, in id order. Adding an id that is already
    /// queued changes nothing.
    pub fn push_back(&mut self, order: OrderPtr)
        ensures
            final(self)@ == sorted_insert(old(self)@, order@.order_id),
            strictly_increasing(final(self)@),
    {
        proof {
            use_type_invariant(&*self);
        }
        let id = order.order_id();
        let mut i: usize = 0;
        while i < self.ids.len() && self.ids[i] < id
            invariant
                0 <= i <= self.ids@.len(),
                forall|j: int| 0 <= j < i ==> self.ids@[j] < id,
            decreases self.ids@.len() - i,
        {
            i = i + 1;
        }
        if i < self.ids.len() && self.ids[i] == id {
            assert(self.ids@.contains(id)) by {
                assert(self.ids@[i as int] == id);
            }
            return ;
        }
        proof {
            assert(is_insert_pos(self.ids@, id, i as int)) by {
                assert forall|j: int| i <= j < self.ids@.len() implies self.ids@[j] > id by {
                    if j > i {
                        assert(self.ids@[i as int] < self.ids@[j]);
                    }
                }
            }
            lemma_insert_pos_unique(self.ids@, id, i as int);
        }
        let ghost before = self.ids@;
        let mut ids: Vec<OrderId> = Vec::new();
        std::mem::swap(&mut ids, &mut self.ids);
        ids.insert(i, id);
        assert(strictly_increasing(ids@)) by {
            assert forall|a: int, b: int| 0 <= a < b < ids@.len() implies ids@[a] < ids@[b] by {
                if b < i {
                } else if b == i {
                } else if a < i {
                    assert(before[a] < id);
                } else if a == i {
                    assert(before[b - 1] > id);
                } else {
                    assert(before[a - 1] < before[b - 1]);
                }
            }
        }
        self.ids = ids;
    }

    /// Remove an order by id; nothing happens when it is not queued.
    pub fn erase(&mut self, order_id: OrderId)
        ensures
            final(self)@ == remove_value(old(self)@, order_id),
            strictly_increasing(final(self)@),
    {
        proof {
            use_type_invariant(&*self);
        }
        let mut i: usize = 0;
        while i < self.ids.len()
            invariant
                0 <= i <= self.ids@.len(),
                self.ids@ == old(self).ids@,
                strictly_increasing(self.ids@),
                forall|j: int| 0 <= j < i ==> self.ids@[j] != order_id,
            decreases self.ids@.len() - i,
        {
            if self.ids[i] == order_id {
                proof {
                    lemma_index_unique(self.ids@, order_id, i as int);
                }
                let ghost before = self.ids@;
                let mut ids: Vec<OrderId> = Vec::new();
                std::mem::swap(&mut ids, &mut self.ids);
                ids.remove(i);
                assert(strictly_increasing(ids@)) by {
                    assert forall|a: int, b: int| 0 <= a < b < ids@.len() implies ids@[a]
                        < ids@[b] by {
                        if a < i && b >= i {
                            assert(before[a] < before[b + 1]);
                        } else if a >= i {
                            assert(before[a + 1] < before[b + 1]);
                        }
                    }
                }
                self.ids = ids;
                return ;
            }
            i = i + 1;
        }
        assert(!self.ids@.contains(order_id));
    }

    /// `true` when no order is queued.
    pub fn is_empty(&self) -> (b: bool)
        ensures
            b == (self@.len() == 0),
    {
        self.ids.len() == 0
    }

    /// The id at the front: the smallest queued order id.
    pub fn front(&self) -> (r: Option<OrderId>)
        ensures
            self@.len() == 0 ==> r is None,
            self@.len() > 0 ==> r == Some(self@[0]),
            r matches Some(id) ==> forall|j: int| 0 <= j < self@.len() ==> id <= #[trigger] self@[j],
    {
        proof {
            use_type_invariant(self);
        }
        if self.ids.len() == 0 {
            None
        } else {
            let r = self.ids[0];
            assert forall|j: int| 0 <= j < self@.len() implies r <= #[trigger] self@[j] by {
                if j > 0 {
                    assert(self.ids@[0] < self.ids@[j]);
                }
            }
            Some(r)
        }
    }

    /// Remove the front order; nothing happens on an empty queue.
    pub fn pop_front(&mut self)
        ensures
            old(self)@.len() == 0 ==> final(self)@ == old(self)@,
            old(self)@.len() > 0 ==> final(self)@ == old(self)@.drop_first(),
            strictly_increasing(final(self)@),
    {
        proof {
            use_type_invariant(&*self);
        }
        if self.ids.len() > 0 {
            let ghost before = self.ids@;
            let mut ids: Vec<OrderId> = Vec::new();
            std::mem::swap(&mut ids, &mut self.ids);
            ids.remove(0);
            assert(ids@ =~= before.drop_first());
            assert(strictly_increasing(ids@)) by {
                assert forall|a: int, b: int| 0 <= a < b < ids@.len() implies ids@[a] < ids@[b] by {
                    assert(before[a + 1] < before[b + 1]);
                }
            }
            self.ids = ids;
        }
    }
}

impl Default for OrderQueue {
    fn default() -> (q: Self)
        ensures
            q@ == Seq::<u64>::empty(),
    {
        Self::new()
    }
}

} // verus!
