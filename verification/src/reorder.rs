//! Release in admission order: results arrive under their admission numbers
//! in any order and leave in the order of the numbers, without gaps.

use vstd::prelude::*;

verus! {

/// The buffer as a mathematical value.
pub struct BufferView<T> {
    /// The admission number of the result that leaves next.
    pub next: nat,
    /// The results that have arrived and not left, by admission number.
    pub held: Map<nat, T>,
}

/// One thing that can happen to a buffer.
pub enum BufferEvent<T> {
    /// The result `value` arrives under the admission number `seq`.
    Put { seq: u64, value: T },
    /// The caller asks for the next result.
    Pop,
}

/// A history of a buffer that started empty: the buffer now, what has left
/// it, in order, and what has arrived, by admission number.
pub struct BufferTrace<T> {
    pub buffer: BufferView<T>,
    pub released: Seq<T>,
    pub results: Map<nat, T>,
}

impl<T> BufferView<T> {
    pub open spec fn empty() -> Self {
        BufferView { next: 0, held: Map::empty() }
    }

    pub open spec fn wf(self) -> bool {
        forall|k: nat| #[trigger] self.held.dom().contains(k) ==> self.next <= k < u64::MAX
    }

    /// Whether a result may arrive under `seq`: its turn has not passed, and
    /// no result is held under that number. The last number of all is never
    /// given out.
    pub open spec fn accepts(self, seq: u64) -> bool {
        &&& self.next <= seq < u64::MAX
        &&& !self.held.dom().contains(seq as nat)
    }

    pub open spec fn put(self, seq: u64, value: T) -> Self {
        if self.accepts(seq) {
            BufferView { held: self.held.insert(seq as nat, value), ..self }
        } else {
            self
        }
    }

    /// Whether the next result in admission order has arrived.
    pub open spec fn ready(self) -> bool {
        self.held.dom().contains(self.next)
    }

    pub open spec fn pop(self) -> Self {
        if self.ready() {
            BufferView { next: self.next + 1, held: self.held.remove(self.next) }
        } else {
            self
        }
    }

    pub open spec fn popped(self) -> Option<T> {
        if self.ready() {
            Some(self.held[self.next])
        } else {
            None
        }
    }
}

impl<T> BufferTrace<T> {
    pub open spec fn start() -> Self {
        BufferTrace { buffer: BufferView::empty(), released: Seq::empty(), results: Map::empty() }
    }

    pub open spec fn apply(self, e: BufferEvent<T>) -> Self {
        match e {
            BufferEvent::Put { seq, value } => if self.buffer.accepts(seq) {
                BufferTrace {
                    buffer: self.buffer.put(seq, value),
                    results: self.results.insert(seq as nat, value),
                    ..self
                }
            } else {
                self
            },
            BufferEvent::Pop => match self.buffer.popped() {
                Some(value) => BufferTrace {
                    buffer: self.buffer.pop(),
                    released: self.released.push(value),
                    ..self
                },
                None => self,
            },
        }
    }

    pub open spec fn of(events: Seq<BufferEvent<T>>) -> Self
        decreases events.len(),
    {
        if events.len() == 0 {
            Self::start()
        } else {
            Self::of(events.drop_last()).apply(events.last())
        }
    }

    /// What holds of every history: what has left is what arrived under the
    /// numbers 0, 1, 2 and so on, and what is held is what arrived under the
    /// numbers still to come.
    pub open spec fn in_order(self) -> bool {
        &&& self.buffer.wf()
        &&& self.released.len() == self.buffer.next
        &&& forall|i: nat|
            i < self.buffer.next ==> #[trigger] self.results.dom().contains(i) && self.released[i as int]
                == self.results[i]
        &&& forall|k: nat|
            self.buffer.next <= k ==> (#[trigger] self.results.dom().contains(k)
                <==> self.buffer.held.dom().contains(k))
        &&& forall|k: nat| #[trigger]
            self.buffer.held.dom().contains(k) ==> self.buffer.held[k] == self.results[k]
    }

    pub proof fn lemma_apply_in_order(self, e: BufferEvent<T>)
        requires
            self.in_order(),
        ensures
            self.apply(e).in_order(),
    {
        let n = self.apply(e);
        match e {
            BufferEvent::Put { seq, value } => {
                if self.buffer.accepts(seq) {
                    assert forall|i: nat| i < n.buffer.next implies #[trigger] n.results.dom().contains(
                        i,
                    ) && n.released[i as int] == n.results[i] by {
                        assert(self.results.dom().contains(i));
                    }
                    assert forall|k: nat| n.buffer.next <= k implies (
                    #[trigger] n.results.dom().contains(k) <==> n.buffer.held.dom().contains(k)) by {
                        assert(self.results.dom().contains(k) <==> self.buffer.held.dom().contains(
                            k,
                        ));
                    }
                    assert forall|k: nat| #[trigger]
                        n.buffer.held.dom().contains(k) implies n.buffer.held[k] == n.results[k] by {
                        if k != seq as nat {
                            assert(self.buffer.held.dom().contains(k));
                        }
                    }
                    assert forall|k: nat| #[trigger]
                        n.buffer.held.dom().contains(k) implies n.buffer.next <= k < u64::MAX by {
                        if k != seq as nat {
                            assert(self.buffer.held.dom().contains(k));
                        }
                    }
                }
            },
            BufferEvent::Pop => {
                if self.buffer.ready() {
                    let at = self.buffer.next;
                    assert(self.buffer.held.dom().contains(at));
                    assert(self.results.dom().contains(at));
                    assert forall|i: nat| i < n.buffer.next implies #[trigger] n.results.dom().contains(
                        i,
                    ) && n.released[i as int] == n.results[i] by {
                        if i < at {
                            assert(self.results.dom().contains(i));
                        }
                    }
                    assert forall|k: nat| n.buffer.next <= k implies (
                    #[trigger] n.results.dom().contains(k) <==> n.buffer.held.dom().contains(k)) by {
                        assert(self.results.dom().contains(k) <==> self.buffer.held.dom().contains(
                            k,
                        ));
                    }
                    assert forall|k: nat| #[trigger]
                        n.buffer.held.dom().contains(k) implies n.buffer.held[k] == n.results[k]
                        && n.buffer.next <= k < u64::MAX by {
                        assert(self.buffer.held.dom().contains(k));
                    }
                }
            },
        }
    }

    /// Whatever the order in which results arrive, they leave in admission
    /// order: after any history, the `i`-th result that has left is the one
    /// that arrived under the number `i`.
    pub proof fn lemma_released_in_admission_order(events: Seq<BufferEvent<T>>)
        ensures
            Self::of(events).in_order(),
            forall|i: nat|
                i < Self::of(events).released.len() ==> #[trigger] Self::of(
                    events,
                ).results.dom().contains(i) && Self::of(events).released[i as int] == Self::of(
                    events,
                ).results[i],
        decreases events.len(),
    {
        if events.len() > 0 {
            Self::lemma_released_in_admission_order(events.drop_last());
            Self::of(events.drop_last()).lemma_apply_in_order(events.last());
        }
    }
}

/// The map that a list of numbered results stands for.
pub open spec fn held_map<T>(s: Seq<(u64, T)>) -> Map<nat, T>
    decreases s.len(),
{
    if s.len() == 0 {
        Map::empty()
    } else {
        held_map(s.drop_last()).insert(s.last().0 as nat, s.last().1)
    }
}

spec fn distinct<T>(s: Seq<(u64, T)>) -> bool {
    forall|i: int, j: int| 0 <= i < j < s.len() ==> s[i].0 != s[j].0
}

/// Whether a result is listed under the number `k`.
spec fn listed<T>(s: Seq<(u64, T)>, k: nat) -> bool {
    exists|i: int| 0 <= i < s.len() && (#[trigger] s[i]).0 == k
}

proof fn lemma_held_map<T>(s: Seq<(u64, T)>)
    ensures
        forall|k: nat| #[trigger] held_map(s).dom().contains(k) <==> listed(s, k),
        forall|i: int| 0 <= i < s.len() ==> held_map(s).dom().contains((#[trigger] s[i]).0 as nat),
        distinct(s) ==> forall|i: int|
            0 <= i < s.len() ==> held_map(s)[(#[trigger] s[i]).0 as nat] == s[i].1,
    decreases s.len(),
{
    if s.len() > 0 {
        let f = s.drop_last();
        let n = s.len() - 1;
        lemma_held_map(f);
        assert forall|k: nat| #[trigger] held_map(s).dom().contains(k) <==> listed(s, k) by {
            if held_map(s).dom().contains(k) {
                if k == s[n].0 as nat {
                    assert(s[n].0 == k);
                } else {
                    assert(held_map(f).dom().contains(k));
                    assert(listed(f, k));
                    let i = choose|i: int| 0 <= i < f.len() && (#[trigger] f[i]).0 == k;
                    assert(s[i] == f[i]);
                    assert(s[i].0 == k);
                }
            }
            if listed(s, k) {
                let i = choose|i: int| 0 <= i < s.len() && (#[trigger] s[i]).0 == k;
                if i < n {
                    assert(f[i] == s[i]);
                    assert(listed(f, k));
                }
            }
        }
        assert forall|i: int| 0 <= i < s.len() implies held_map(s).dom().contains(
            (#[trigger] s[i]).0 as nat,
        ) by {
            assert(listed(s, s[i].0 as nat));
        }
        if distinct(s) {
            assert(distinct(f)) by {
                assert forall|i: int, j: int| 0 <= i < j < f.len() implies f[i].0 != f[j].0 by {
                    assert(f[i] == s[i] && f[j] == s[j]);
                }
            }
            assert forall|i: int| 0 <= i < s.len() implies held_map(s)[(#[trigger] s[i]).0 as nat]
                == s[i].1 by {
                if i < n {
                    assert(s[i].0 != s[n].0);
                    assert(f[i] == s[i]);
                }
            }
        }
    } else {
        assert forall|k: nat| #[trigger] held_map(s).dom().contains(k) <==> listed(s, k) by {}
    }
}

proof fn lemma_held_map_remove<T>(s: Seq<(u64, T)>, i: int)
    requires
        distinct(s),
        0 <= i < s.len(),
    ensures
        distinct(s.remove(i)),
        held_map(s.remove(i)) =~= held_map(s).remove(s[i].0 as nat),
{
    let r = s.remove(i);
    assert forall|a: int| 0 <= a < r.len() implies #[trigger] r[a] == (if a < i {
        s[a]
    } else {
        s[a + 1]
    }) by {}
    assert forall|a: int, b: int| 0 <= a < b < r.len() implies r[a].0 != r[b].0 by {
        let x = if a < i { a } else { a + 1 };
        let y = if b < i { b } else { b + 1 };
        assert(s[x].0 != s[y].0);
    }
    lemma_held_map(s);
    lemma_held_map(r);
    let key = s[i].0 as nat;
    assert forall|k: nat| held_map(r).dom().contains(k) <==> held_map(s).remove(key).dom().contains(
        k,
    ) by {
        if held_map(r).dom().contains(k) {
            assert(listed(r, k));
            let a = choose|a: int| 0 <= a < r.len() && (#[trigger] r[a]).0 == k;
            let x = if a < i { a } else { a + 1 };
            assert(r[a] == s[x]);
            assert(s[x].0 == k);
            assert(s[x].0 != s[i].0) by {
                if x < i {
                    assert(s[x].0 != s[i].0);
                } else {
                    assert(s[i].0 != s[x].0);
                }
            }
        }
        if held_map(s).remove(key).dom().contains(k) {
            assert(listed(s, k));
            let x = choose|x: int| 0 <= x < s.len() && (#[trigger] s[x]).0 == k;
            assert(x != i);
            let a = if x < i { x } else { x - 1 };
            assert(r[a] == s[x]);
            assert(listed(r, k));
        }
    }
    assert forall|k: nat| held_map(r).dom().contains(k) implies held_map(r)[k] == held_map(
        s,
    ).remove(key)[k] by {
        assert(listed(r, k));
        let a = choose|a: int| 0 <= a < r.len() && (#[trigger] r[a]).0 == k;
        let x = if a < i { a } else { a + 1 };
        assert(r[a] == s[x]);
        assert(held_map(r)[r[a].0 as nat] == r[a].1);
        assert(held_map(s)[s[x].0 as nat] == s[x].1);
    }
}

/// The reorder buffer.
pub struct ReorderBuffer<T> {
    next: u64,
    held: Vec<(u64, T)>,
}

impl<T> ReorderBuffer<T> {
    pub closed spec fn view(&self) -> BufferView<T> {
        BufferView { next: self.next as nat, held: held_map(self.held@) }
    }

    pub closed spec fn wf(&self) -> bool {
        &&& distinct(self.held@)
        &&& self@.wf()
    }

    pub proof fn lemma_view_wf(&self)
        requires
            self.wf(),
        ensures
            self@.wf(),
    {
    }

    pub fn new() -> (b: Self)
        ensures
            b.wf(),
            b@ == BufferView::<T>::empty(),
    {
        ReorderBuffer { next: 0, held: Vec::new() }
    }

    /// The admission number of the result that leaves next.
    pub fn next_seq(&self) -> (n: u64)
        ensures
            n == self@.next,
    {
        self.next
    }

    /// Whether no result is held.
    pub fn is_empty(&self) -> (e: bool)
        requires
            self.wf(),
        ensures
            e == (self@.held.dom() =~= Set::<nat>::empty()),
    {
        proof {
            lemma_held_map(self.held@);
            if self.held@.len() > 0 {
                assert(self@.held.dom().contains(self.held@[0].0 as nat));
            }
        }
        self.held.len() == 0
    }

    /// The place of the result held under `seq`, if there is one.
    fn find(&self, seq: u64) -> (r: Option<usize>)
        requires
            self.wf(),
        ensures
            match r {
                Some(i) => i < self.held@.len() && self.held@[i as int].0 == seq
                    && self@.held.dom().contains(seq as nat),
                None => !self@.held.dom().contains(seq as nat),
            },
    {
        let mut i: usize = 0;
        while i < self.held.len()
            invariant
                i <= self.held@.len(),
                forall|j: int| 0 <= j < i ==> self.held@[j].0 != seq,
            decreases self.held@.len() - i,
        {
            if self.held[i].0 == seq {
                proof {
                    lemma_held_map(self.held@);
                }
                return Some(i);
            }
            i = i + 1;
        }
        proof {
            lemma_held_map(self.held@);
            assert(!listed(self.held@, seq as nat));
        }
        None
    }

    /// Takes in the result that arrived under `seq`. The buffer refuses it,
    /// and hands it back unchanged, if the turn of `seq` has passed or a
    /// result is held under `seq` already.
    pub fn put(&mut self, seq: u64, value: T) -> (r: Result<(), T>)
        requires
            old(self).wf(),
        ensures
            final(self).wf(),
            final(self)@ == old(self)@.put(seq, value),
            r == if old(self)@.accepts(seq) {
                Ok::<(), T>(())
            } else {
                Err::<(), T>(value)
            },
    {
        if seq < self.next || seq == u64::MAX {
            return Err(value);
        }
        if self.find(seq).is_some() {
            return Err(value);
        }
        proof {
            lemma_held_map(self.held@);
        }
        self.held.push((seq, value));
        proof {
            assert(self.held@.drop_last() =~= old(self).held@);
            assert forall|i: int, j: int| 0 <= i < j < self.held@.len() implies self.held@[i].0
                != self.held@[j].0 by {
                if j == self.held@.len() - 1 {
                    assert(old(self).held@[i].0 != seq);
                }
            }
        }
        Ok(())
    }

    /// Hands out the next result in admission order, if it has arrived.
    pub fn pop_next(&mut self) -> (r: Option<T>)
        requires
            old(self).wf(),
        ensures
            final(self).wf(),
            final(self)@ == old(self)@.pop(),
            r == old(self)@.popped(),
    {
        match self.find(self.next) {
            None => None,
            Some(i) => {
                proof {
                    lemma_held_map(self.held@);
                    lemma_held_map_remove(self.held@, i as int);
                    assert(self@.held.dom().contains(self.next as nat));
                }
                let (_, value) = self.held.remove(i);
                self.next = self.next + 1;
                proof {
                    assert forall|k: nat| #[trigger]
                        self@.held.dom().contains(k) implies self@.next <= k < u64::MAX by {
                        assert(old(self)@.held.dom().contains(k));
                    }
                }
                Some(value)
            },
        }
    }
}

} // verus!
