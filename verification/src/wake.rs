//! Wake delivery: which units have asked to be polled again.
//!
//! A registry hands out tokens. A token is *idle* until it is registered,
//! *armed* once registered, and *queued* once fired; popping the queue makes
//! it idle again. Firing a token that is not armed does nothing, so a token
//! is never queued twice, and a token that was released is never delivered.

use vstd::prelude::*;
use std::collections::VecDeque;

verus! {

/// The identity of one slot occupancy: the slot's index and the number of
/// earlier occupants of that slot. Two occupancies never share a token.
#[derive(Clone, Copy, PartialEq, Eq, Structural, Debug)]
pub struct WakeToken {
    pub index: usize,
    pub generation: u64,
}

/// Where a live token stands in the wake protocol.
#[derive(Clone, Copy, PartialEq, Eq, Structural, Debug)]
pub enum Status {
    /// Not registered: a fire would be lost.
    Idle,
    /// Registered: the next fire queues the token.
    Armed,
    /// Fired and waiting in the ready queue.
    Queued,
}

/// The registry as a mathematical value.
pub struct RegistryView {
    /// The tokens in use, each with its status.
    pub live: Map<WakeToken, Status>,
    /// The ready queue, oldest first.
    pub queue: Seq<WakeToken>,
    /// The tokens that were released.
    pub retired: Set<WakeToken>,
}

/// `q` without `t`, where `t` occurs at most once.
pub open spec fn without(q: Seq<WakeToken>, t: WakeToken) -> Seq<WakeToken> {
    if q.contains(t) {
        q.remove(q.index_of(t))
    } else {
        q
    }
}

impl RegistryView {
    pub open spec fn empty() -> Self {
        RegistryView { live: Map::empty(), queue: Seq::empty(), retired: Set::empty() }
    }

    pub open spec fn is_live(self, t: WakeToken) -> bool {
        self.live.dom().contains(t)
    }

    pub open spec fn status(self, t: WakeToken) -> Option<Status> {
        if self.is_live(t) {
            Some(self.live[t])
        } else {
            None
        }
    }

    /// A token that may be handed out next: it names no occupancy, past or
    /// present, and its slot is not in use.
    pub open spec fn is_fresh(self, t: WakeToken) -> bool {
        &&& !self.retired.contains(t)
        &&& forall|u: WakeToken| #[trigger] self.live.dom().contains(u) ==> u.index != t.index
    }

    pub open spec fn wf(self) -> bool {
        &&& self.live.dom().finite()
        &&& self.queue.no_duplicates()
        &&& forall|t: WakeToken|
            #![trigger self.queue.contains(t)]
            #![trigger self.live.dom().contains(t)]
            self.queue.contains(t) <==> (self.live.dom().contains(t) && self.live[t]
                == Status::Queued)
        &&& forall|t: WakeToken| #[trigger] self.live.dom().contains(t) ==> !self.retired.contains(t)
        &&& forall|t: WakeToken, u: WakeToken|
            #![trigger self.live.dom().contains(t), self.live.dom().contains(u)]
            self.live.dom().contains(t) && self.live.dom().contains(u) && t.index == u.index ==> t
                == u
    }

    pub open spec fn allocate(self, t: WakeToken) -> Self {
        RegistryView { live: self.live.insert(t, Status::Idle), ..self }
    }

    /// Whether `register(t)` arms the token.
    pub open spec fn arms(self, t: WakeToken) -> bool {
        self.status(t) == Some(Status::Idle)
    }

    pub open spec fn register(self, t: WakeToken) -> Self {
        if self.arms(t) {
            RegistryView { live: self.live.insert(t, Status::Armed), ..self }
        } else {
            self
        }
    }

    /// Whether `fire(t)` delivers the token to the ready queue.
    pub open spec fn delivers(self, t: WakeToken) -> bool {
        self.status(t) == Some(Status::Armed)
    }

    pub open spec fn fire(self, t: WakeToken) -> Self {
        if self.delivers(t) {
            RegistryView {
                live: self.live.insert(t, Status::Queued),
                queue: self.queue.push(t),
                ..self
            }
        } else {
            self
        }
    }

    /// The token that the next pop returns.
    pub open spec fn head(self) -> Option<WakeToken> {
        if self.queue.len() > 0 {
            Some(self.queue[0])
        } else {
            None
        }
    }

    pub open spec fn pop(self) -> Self {
        if self.queue.len() > 0 {
            RegistryView {
                live: self.live.insert(self.queue[0], Status::Idle),
                queue: self.queue.drop_first(),
                ..self
            }
        } else {
            self
        }
    }

    pub open spec fn release(self, t: WakeToken) -> Self {
        if self.is_live(t) {
            RegistryView {
                live: self.live.remove(t),
                queue: without(self.queue, t),
                retired: self.retired.insert(t),
            }
        } else {
            self
        }
    }
}

/// What `without` leaves: every other entry, in the same order.
pub proof fn lemma_without(q: Seq<WakeToken>, t: WakeToken)
    requires
        q.no_duplicates(),
    ensures
        without(q, t).no_duplicates(),
        !without(q, t).contains(t),
        forall|u: WakeToken| u != t ==> (#[trigger] without(q, t).contains(u) <==> q.contains(u)),
        q.contains(t) ==> without(q, t).len() == q.len() - 1,
        !q.contains(t) ==> without(q, t) == q,
        q.contains(t) ==> 0 <= q.index_of(t) < q.len() && q[q.index_of(t)] == t,
        forall|k: int| 0 <= k < q.len() && #[trigger] q[k] == t ==> k == q.index_of(t),
        forall|j: int|
            0 <= j < without(q, t).len() && q.contains(t) ==> #[trigger] without(q, t)[j] == (if j
                < q.index_of(t) {
                q[j]
            } else {
                q[j + 1]
            }),
{
    if q.contains(t) {
        let k = q.index_of(t);
        let r = q.remove(k);
        assert(0 <= k < q.len() && q[k] == t);
        assert(r.len() == q.len() - 1);
        assert forall|j: int| 0 <= j < r.len() implies #[trigger] r[j] == (if j < k {
            q[j]
        } else {
            q[j + 1]
        }) by {}
        assert forall|i: int, j: int| 0 <= i < r.len() && 0 <= j < r.len() && i != j implies r[i]
            != r[j] by {
            let a = if i < k { i } else { i + 1 };
            let b = if j < k { j } else { j + 1 };
            assert(q[a] != q[b]);
        }
        assert(!r.contains(t)) by {
            if r.contains(t) {
                let j = choose|j: int| 0 <= j < r.len() && r[j] == t;
                let a = if j < k { j } else { j + 1 };
                assert(q[a] == q[k] && a != k);
            }
        }
        assert forall|u: WakeToken| u != t implies (#[trigger] r.contains(u) <==> q.contains(
            u,
        )) by {
            if r.contains(u) {
                let j = choose|j: int| 0 <= j < r.len() && r[j] == u;
                let a = if j < k { j } else { j + 1 };
                assert(q[a] == u);
            }
            if q.contains(u) {
                let a = choose|a: int| 0 <= a < q.len() && q[a] == u;
                assert(a != k);
                let j = if a < k { a } else { a - 1 };
                assert(r[j] == u);
            }
        }
    }
}

pub proof fn lemma_allocate_wf(s: RegistryView, t: WakeToken)
    requires
        s.wf(),
        s.is_fresh(t),
    ensures
        s.allocate(t).wf(),
        !s.is_live(t),
{
    let n = s.allocate(t);
    assert(!s.is_live(t));
    assert forall|u: WakeToken|
        #![trigger n.queue.contains(u)]
        #![trigger n.live.dom().contains(u)]
        n.queue.contains(u) <==> (n.live.dom().contains(u) && n.live[u] == Status::Queued) by {
        assert(s.queue.contains(u) <==> (s.live.dom().contains(u) && s.live[u] == Status::Queued));
    }
    assert forall|a: WakeToken, b: WakeToken|
        n.live.dom().contains(a) && n.live.dom().contains(b) && a.index == b.index implies a
        == b by {
        if a != t {
            assert(s.live.dom().contains(a));
        }
        if b != t {
            assert(s.live.dom().contains(b));
        }
    }
}

pub proof fn lemma_register_wf(s: RegistryView, t: WakeToken)
    requires
        s.wf(),
    ensures
        s.register(t).wf(),
{
    let n = s.register(t);
    if s.arms(t) {
        assert(n.live.dom() =~= s.live.dom());
        assert forall|u: WakeToken|
            #![trigger n.queue.contains(u)]
            #![trigger n.live.dom().contains(u)]
            n.queue.contains(u) <==> (n.live.dom().contains(u) && n.live[u] == Status::Queued) by {
            assert(s.queue.contains(u) <==> (s.live.dom().contains(u) && s.live[u]
                == Status::Queued));
        }
    }
}

pub proof fn lemma_fire_wf(s: RegistryView, t: WakeToken)
    requires
        s.wf(),
    ensures
        s.fire(t).wf(),
{
    let n = s.fire(t);
    if s.delivers(t) {
        assert(n.live.dom() =~= s.live.dom());
        assert(!s.queue.contains(t));
        assert forall|i: int, j: int|
            0 <= i < n.queue.len() && 0 <= j < n.queue.len() && i != j implies n.queue[i]
            != n.queue[j] by {
            if i == s.queue.len() {
                assert(s.queue.contains(n.queue[j]));
            }
            if j == s.queue.len() {
                assert(s.queue.contains(n.queue[i]));
            }
        }
        assert forall|u: WakeToken|
            #![trigger n.queue.contains(u)]
            #![trigger n.live.dom().contains(u)]
            n.queue.contains(u) <==> (n.live.dom().contains(u) && n.live[u] == Status::Queued) by {
            assert(s.queue.contains(u) <==> (s.live.dom().contains(u) && s.live[u]
                == Status::Queued));
            if n.queue.contains(u) {
                let j = choose|j: int| 0 <= j < n.queue.len() && n.queue[j] == u;
                if j < s.queue.len() {
                    assert(s.queue[j] == u);
                }
            }
            if u == t {
                assert(n.queue[s.queue.len() as int] == t);
            } else if s.queue.contains(u) {
                let j = choose|j: int| 0 <= j < s.queue.len() && s.queue[j] == u;
                assert(n.queue[j] == u);
            }
        }
    }
}

pub proof fn lemma_pop_wf(s: RegistryView)
    requires
        s.wf(),
    ensures
        s.pop().wf(),
        s.queue.len() > 0 ==> s.is_live(s.queue[0]),
{
    let n = s.pop();
    if s.queue.len() > 0 {
        let h = s.queue[0];
        assert(s.queue.contains(h));
        assert(n.live.dom() =~= s.live.dom());
        assert forall|j: int| 0 <= j < n.queue.len() implies #[trigger] n.queue[j] == s.queue[j
            + 1] by {}
        assert forall|i: int, j: int|
            0 <= i < n.queue.len() && 0 <= j < n.queue.len() && i != j implies n.queue[i]
            != n.queue[j] by {
            assert(s.queue[i + 1] != s.queue[j + 1]);
        }
        assert forall|u: WakeToken|
            #![trigger n.queue.contains(u)]
            #![trigger n.live.dom().contains(u)]
            n.queue.contains(u) <==> (n.live.dom().contains(u) && n.live[u] == Status::Queued) by {
            assert(s.queue.contains(u) <==> (s.live.dom().contains(u) && s.live[u]
                == Status::Queued));
            if n.queue.contains(u) {
                let j = choose|j: int| 0 <= j < n.queue.len() && n.queue[j] == u;
                assert(s.queue[j + 1] == u);
                assert(u != h);
            }
            if u != h && s.queue.contains(u) {
                let j = choose|j: int| 0 <= j < s.queue.len() && s.queue[j] == u;
                assert(j != 0);
                assert(n.queue[j - 1] == u);
            }
        }
    }
}

pub proof fn lemma_release_wf(s: RegistryView, t: WakeToken)
    requires
        s.wf(),
    ensures
        s.release(t).wf(),
        !s.release(t).is_live(t),
        s.is_live(t) ==> s.release(t).retired.contains(t),
{
    let n = s.release(t);
    if s.is_live(t) {
        lemma_without(s.queue, t);
        assert forall|u: WakeToken|
            #![trigger n.queue.contains(u)]
            #![trigger n.live.dom().contains(u)]
            n.queue.contains(u) <==> (n.live.dom().contains(u) && n.live[u] == Status::Queued) by {
            assert(s.queue.contains(u) <==> (s.live.dom().contains(u) && s.live[u]
                == Status::Queued));
        }
        assert forall|a: WakeToken, b: WakeToken|
            n.live.dom().contains(a) && n.live.dom().contains(b) && a.index == b.index implies a
            == b by {
            assert(s.live.dom().contains(a) && s.live.dom().contains(b));
        }
    }
}

/// A released token stays released, and is never live again, whatever is done
/// to the registry afterwards.
pub proof fn lemma_retired_for_good(s: RegistryView, t: WakeToken, u: WakeToken, v: WakeToken)
    requires
        s.wf(),
        s.retired.contains(t),
        s.is_fresh(v),
    ensures
        s.allocate(v).retired.contains(t) && !s.allocate(v).is_live(t),
        s.register(u).retired.contains(t) && !s.register(u).is_live(t),
        s.fire(u).retired.contains(t) && !s.fire(u).is_live(t),
        s.pop().retired.contains(t) && !s.pop().is_live(t),
        s.release(u).retired.contains(t) && !s.release(u).is_live(t),
{
    assert(!s.is_live(t));
    if s.queue.len() > 0 {
        assert(s.queue.contains(s.queue[0]));
    }
}

#[derive(Clone, Copy, PartialEq, Eq, Structural)]
enum CellState {
    Vacant,
    Retired,
    Idle,
    Armed,
    Queued,
}

#[derive(Clone, Copy)]
struct Cell {
    generation: u64,
    state: CellState,
}

spec fn status_of(state: CellState) -> Status {
    match state {
        CellState::Armed => Status::Armed,
        CellState::Queued => Status::Queued,
        _ => Status::Idle,
    }
}

spec fn in_use(state: CellState) -> bool {
    state != CellState::Vacant && state != CellState::Retired
}

/// The wake registry: a table of slots, the ready queue, and the slots free
/// for reuse.
pub struct WakeRegistry {
    cells: Vec<Cell>,
    queue: VecDeque<usize>,
    free: Vec<usize>,
    live: usize,
}

impl WakeRegistry {
    spec fn holds(&self, t: WakeToken) -> bool {
        &&& t.index < self.cells@.len()
        &&& self.cells@[t.index as int].generation == t.generation
        &&& in_use(self.cells@[t.index as int].state)
    }

    spec fn gone(&self, t: WakeToken) -> bool {
        &&& t.index < self.cells@.len()
        &&& (t.generation < self.cells@[t.index as int].generation || (t.generation
            == self.cells@[t.index as int].generation && self.cells@[t.index as int].state
            == CellState::Retired))
    }

    spec fn token_at(&self, i: usize) -> WakeToken {
        WakeToken { index: i, generation: self.cells@[i as int].generation }
    }

    pub closed spec fn view(&self) -> RegistryView {
        RegistryView {
            live: Map::new(
                |t: WakeToken| self.holds(t),
                |t: WakeToken| status_of(self.cells@[t.index as int].state),
            ),
            queue: Seq::new(self.queue@.len(), |k: int| self.token_at(self.queue@[k])),
            retired: Set::new(|t: WakeToken| self.gone(t)),
        }
    }

    /// The number of slots in the table; every token handed out so far has an
    /// index below it.
    pub closed spec fn slots(&self) -> nat {
        self.cells@.len()
    }

    /// The number of slots that wait to be used again.
    pub closed spec fn spare(&self) -> nat {
        self.free@.len()
    }

    spec fn inv(&self) -> bool {
        &&& forall|k: int|
            0 <= k < self.queue@.len() ==> (#[trigger] self.queue@[k]) < self.cells@.len()
                && self.cells@[self.queue@[k] as int].state == CellState::Queued
        &&& forall|j: int, k: int|
            0 <= j < k < self.queue@.len() ==> self.queue@[j] != self.queue@[k]
        &&& forall|i: usize|
            i < self.cells@.len() && (#[trigger] self.cells@[i as int]).state == CellState::Queued
                ==> self.queue@.contains(i)
        &&& forall|k: int|
            0 <= k < self.free@.len() ==> (#[trigger] self.free@[k]) < self.cells@.len()
                && self.cells@[self.free@[k] as int].state == CellState::Vacant
        &&& forall|j: int, k: int| 0 <= j < k < self.free@.len() ==> self.free@[j] != self.free@[k]
        &&& self.live == self@.live.dom().len()
        &&& self.live + self.free@.len() <= self.cells@.len()
    }

    pub closed spec fn wf(&self) -> bool {
        &&& self.inv()
        &&& self@.wf()
    }

    /// Every live token points into the table.
    pub proof fn lemma_live_in_table(&self, t: WakeToken)
        requires
            self@.is_live(t),
        ensures
            t.index < self.slots(),
    {
    }

    /// A token whose index lies beyond the table was never handed out.
    pub proof fn lemma_beyond_table(&self, t: WakeToken)
        requires
            t.index >= self.slots(),
        ensures
            !self@.is_live(t),
            !self@.retired.contains(t),
    {
    }

    pub fn new() -> (r: Self)
        ensures
            r.wf(),
            r@ == RegistryView::empty(),
            r.slots() == 0,
            r.spare() == 0,
    {
        let r = WakeRegistry { cells: Vec::new(), queue: VecDeque::new(), free: Vec::new(), live: 0 };
        proof {
            assert(r@.live =~= Map::empty());
            assert(r@.queue =~= Seq::empty());
            assert(r@.retired =~= Set::empty());
        }
        r
    }

    /// The number of live tokens.
    pub fn len(&self) -> (n: usize)
        requires
            self.wf(),
        ensures
            n == self@.live.dom().len(),
            n <= self.slots(),
    {
        self.live
    }

    /// The number of tokens waiting in the ready queue.
    pub fn queued(&self) -> (n: usize)
        requires
            self.wf(),
        ensures
            n == self@.queue.len(),
    {
        self.queue.len()
    }

    /// The number of slots in the table.
    pub fn capacity(&self) -> (n: usize)
        ensures
            n == self.slots(),
    {
        self.cells.len()
    }

    /// The status of `t`, or `None` if `t` is not live.
    pub fn status(&self, t: WakeToken) -> (r: Option<Status>)
        requires
            self.wf(),
        ensures
            r == self@.status(t),
    {
        if t.index >= self.cells.len() {
            return None;
        }
        let cell = self.cells[t.index];
        if cell.generation != t.generation {
            return None;
        }
        match cell.state {
            CellState::Vacant => None,
            CellState::Retired => None,
            CellState::Idle => Some(Status::Idle),
            CellState::Armed => Some(Status::Armed),
            CellState::Queued => Some(Status::Queued),
        }
    }

    /// Hands out a token that was never handed out before, in status idle.
    /// A spare slot is used again if there is one; otherwise the table grows
    /// by one slot.
    pub fn allocate(&mut self) -> (t: WakeToken)
        requires
            old(self).wf(),
        ensures
            final(self).wf(),
            old(self)@.is_fresh(t),
            final(self)@ == old(self)@.allocate(t),
            t.index <= old(self).slots(),
            final(self).slots() == if t.index < old(self).slots() {
                old(self).slots()
            } else {
                old(self).slots() + 1
            },
            old(self).spare() > 0 ==> t.index < old(self).slots() && final(self).spare() == old(
                self,
            ).spare() - 1,
            old(self).spare() == 0 ==> t.index == old(self).slots() && final(self).spare() == 0,
    {
        let t = match self.free.pop() {
            Some(i) => {
                let g = self.cells[i].generation;
                assert(old(self).free@[old(self).free@.len() - 1] == i);
                self.cells.set(i, Cell { generation: g, state: CellState::Idle });
                WakeToken { index: i, generation: g }
            },
            None => {
                let i = self.cells.len();
                self.cells.push(Cell { generation: 0, state: CellState::Idle });
                WakeToken { index: i, generation: 0 }
            },
        };
        assert(self.cells@.len() == self.cells.len());
        self.live = self.live + 1;
        proof {
            let s = old(self)@;
            assert forall|u: WakeToken| #[trigger] s.live.dom().contains(u) implies u.index
                != t.index by {}
            assert(s.is_fresh(t));
            assert(self@.live =~= s.live.insert(t, Status::Idle));
            assert(self@.queue =~= s.queue);
            assert(self@.retired =~= s.retired);
            lemma_allocate_wf(s, t);
            assert forall|i: usize|
                i < self.cells@.len() && (#[trigger] self.cells@[i as int]).state
                    == CellState::Queued implies self.queue@.contains(i) by {
                assert(old(self).cells@[i as int].state == CellState::Queued);
            }
        }
        t
    }

    /// Registers interest in `t`: an idle token becomes armed. Returns whether
    /// it did; on any other token the call changes nothing.
    pub fn register(&mut self, t: WakeToken) -> (armed: bool)
        requires
            old(self).wf(),
        ensures
            final(self).wf(),
            armed == old(self)@.arms(t),
            final(self)@ == old(self)@.register(t),
            final(self).slots() == old(self).slots(),
            final(self).spare() == old(self).spare(),
    {
        if t.index >= self.cells.len() {
            return false;
        }
        let cell = self.cells[t.index];
        if cell.generation != t.generation || cell.state != CellState::Idle {
            return false;
        }
        self.cells.set(t.index, Cell { generation: cell.generation, state: CellState::Armed });
        proof {
            let s = old(self)@;
            assert(self@.live =~= s.live.insert(t, Status::Armed));
            assert(self@.queue =~= s.queue);
            assert(self@.retired =~= s.retired);
            assert(self@.live.dom() =~= s.live.dom());
            lemma_register_wf(s, t);
            assert forall|i: usize|
                i < self.cells@.len() && (#[trigger] self.cells@[i as int]).state
                    == CellState::Queued implies self.queue@.contains(i) by {
                assert(old(self).cells@[i as int].state == CellState::Queued);
            }
        }
        true
    }

    /// Fires `t`: an armed token joins the back of the ready queue. Returns
    /// whether it did; firing a token that is idle, already queued, released
    /// or unknown changes nothing.
    pub fn fire(&mut self, t: WakeToken) -> (delivered: bool)
        requires
            old(self).wf(),
        ensures
            final(self).wf(),
            delivered == old(self)@.delivers(t),
            final(self)@ == old(self)@.fire(t),
            final(self).slots() == old(self).slots(),
            final(self).spare() == old(self).spare(),
    {
        if t.index >= self.cells.len() {
            return false;
        }
        let cell = self.cells[t.index];
        if cell.generation != t.generation || cell.state != CellState::Armed {
            return false;
        }
        self.cells.set(t.index, Cell { generation: cell.generation, state: CellState::Queued });
        self.queue.push_back(t.index);
        proof {
            let s = old(self)@;
            assert(self@.live =~= s.live.insert(t, Status::Queued));
            assert(self@.queue =~= s.queue.push(t));
            assert(self@.retired =~= s.retired);
            assert(self@.live.dom() =~= s.live.dom());
            lemma_fire_wf(s, t);
            assert forall|k: int| 0 <= k < old(self).queue@.len() implies old(self).queue@[k]
                != t.index by {}
            assert forall|i: usize|
                i < self.cells@.len() && (#[trigger] self.cells@[i as int]).state
                    == CellState::Queued implies self.queue@.contains(i) by {
                if i == t.index {
                    assert(self.queue@[old(self).queue@.len() as int] == t.index);
                } else {
                    assert(old(self).cells@[i as int].state == CellState::Queued);
                    let k = choose|k: int|
                        0 <= k < old(self).queue@.len() && old(self).queue@[k] == i;
                    assert(self.queue@[k] == i);
                }
            }
        }
        true
    }

    /// Takes the oldest token off the ready queue and makes it idle.
    pub fn next(&mut self) -> (r: Option<WakeToken>)
        requires
            old(self).wf(),
        ensures
            final(self).wf(),
            r == old(self)@.head(),
            final(self)@ == old(self)@.pop(),
            final(self).slots() == old(self).slots(),
            final(self).spare() == old(self).spare(),
    {
        match self.queue.pop_front() {
            None => {
                proof {
                    let s = old(self)@;
                    assert(self@.live =~= s.live);
                    assert(self@.queue =~= s.queue);
                    assert(self@.retired =~= s.retired);
                }
                None
            },
            Some(i) => {
                assert(old(self).queue@[0] == i);
                let cell = self.cells[i];
                self.cells.set(i, Cell { generation: cell.generation, state: CellState::Idle });
                let t = WakeToken { index: i, generation: cell.generation };
                proof {
                    let s = old(self)@;
                    assert(s.queue[0] == t);
                    assert(self@.live =~= s.live.insert(t, Status::Idle));
                    assert(self@.queue =~= s.queue.drop_first());
                    assert(self@.retired =~= s.retired);
                    lemma_pop_wf(s);
                    assert(self@.live.dom() =~= s.live.dom());
                    assert forall|k: int| 0 <= k < self.queue@.len() implies (
                    #[trigger] self.queue@[k]) < self.cells@.len()
                        && self.cells@[self.queue@[k] as int].state == CellState::Queued by {
                        assert(self.queue@[k] == old(self).queue@[k + 1]);
                    }
                    assert forall|j: int, k: int|
                        0 <= j < k < self.queue@.len() implies self.queue@[j] != self.queue@[k] by {
                        assert(self.queue@[j] == old(self).queue@[j + 1]);
                        assert(self.queue@[k] == old(self).queue@[k + 1]);
                    }
                    assert forall|c: usize|
                        c < self.cells@.len() && (#[trigger] self.cells@[c as int]).state
                            == CellState::Queued implies self.queue@.contains(c) by {
                        assert(old(self).cells@[c as int].state == CellState::Queued);
                        let k = choose|k: int|
                            0 <= k < old(self).queue@.len() && old(self).queue@[k] == c;
                        assert(k != 0);
                        assert(self.queue@[k - 1] == c);
                    }
                }
                Some(t)
            },
        }
    }

    /// The place of slot `index` in the ready queue.
    fn position(&self, index: usize) -> (k: usize)
        requires
            self.queue@.contains(index),
        ensures
            k < self.queue@.len(),
            self.queue@[k as int] == index,
    {
        let mut k: usize = 0;
        while self.queue[k] != index
            invariant
                k < self.queue.len(),
                self.queue@.contains(index),
                forall|j: int| 0 <= j < k ==> self.queue@[j] != index,
            decreases self.queue@.len() - k,
        {
            k = k + 1;
            assert(k < self.queue.len()) by {
                let j = choose|j: int| 0 <= j < self.queue@.len() && self.queue@[j] == index;
                assert(j >= k);
            }
        }
        k
    }

    /// Releases `t`: the token leaves the registry, and the ready queue if it
    /// was waiting there. Returns whether `t` was live; on any other token
    /// the call changes nothing. A released token is never handed out again;
    /// its slot becomes spare, unless its generations are used up.
    pub fn release(&mut self, t: WakeToken) -> (released: bool)
        requires
            old(self).wf(),
        ensures
            final(self).wf(),
            released == old(self)@.is_live(t),
            final(self)@ == old(self)@.release(t),
            final(self).slots() == old(self).slots(),
            final(self).spare() == old(self).spare() + if released && t.generation < u64::MAX {
                1nat
            } else {
                0nat
            },
    {
        if t.index >= self.cells.len() {
            return false;
        }
        let cell = self.cells[t.index];
        if cell.generation != t.generation {
            return false;
        }
        match cell.state {
            CellState::Vacant => {
                return false;
            },
            CellState::Retired => {
                return false;
            },
            _ => {},
        }
        let ghost s = self@;
        let ghost before = *self;
        proof {
            assert(s.is_live(t));
            lemma_without(s.queue, t);
            lemma_release_wf(s, t);
        }
        let ghost mut place: int = -1;
        if cell.state == CellState::Queued {
            let k = self.position(t.index);
            proof {
                place = k as int;
                assert(s.queue[k as int] == t);
            }
            let _ = self.queue.remove(k);
        } else {
            proof {
                if s.queue.contains(t) {
                    assert(s.live[t] == Status::Queued);
                }
                assert(!s.queue.contains(t));
            }
        }
        if cell.generation < u64::MAX {
            self.cells.set(t.index, Cell { generation: cell.generation + 1, state: CellState::Vacant });
            self.free.push(t.index);
        } else {
            self.cells.set(t.index, Cell { generation: cell.generation, state: CellState::Retired });
        }
        self.live = self.live - 1;
        proof {
            assert forall|k: int| 0 <= k < self.queue@.len() implies self.queue@[k] == (if place
                < 0 || k < place {
                before.queue@[k]
            } else {
                before.queue@[k + 1]
            }) by {}
            assert forall|k: int| 0 <= k < self.queue@.len() implies (#[trigger] self.queue@[k])
                != t.index by {
                if place >= 0 {
                    let a = if k < place { k } else { k + 1 };
                    assert(before.queue@[a] != before.queue@[place]);
                } else {
                    let a = k;
                    assert(before.cells@[before.queue@[a] as int].state == CellState::Queued);
                }
            }
            assert(self@.live =~= s.live.remove(t));
            assert(self@.retired =~= s.retired.insert(t));
            assert(self@.queue =~= without(s.queue, t)) by {
                let w = without(s.queue, t);
                if place >= 0 {
                    assert(s.queue.contains(t));
                    assert(w.len() == self@.queue.len());
                    assert(place == s.queue.index_of(t));
                    assert forall|k: int| 0 <= k < w.len() implies w[k] == self@.queue[k] by {
                        if k < place {
                            assert(w[k] == s.queue[k]);
                        } else {
                            assert(w[k] == s.queue[k + 1]);
                        }
                    }
                } else {
                    assert(w == s.queue);
                }
            }
            assert forall|k: int| 0 <= k < self.queue@.len() implies (#[trigger] self.queue@[k])
                < self.cells@.len() && self.cells@[self.queue@[k] as int].state
                == CellState::Queued by {
                let a = if place < 0 || k < place { k } else { k + 1 };
                assert(self.queue@[k] == before.queue@[a]);
            }
            assert forall|j: int, k: int| 0 <= j < k < self.queue@.len() implies self.queue@[j]
                != self.queue@[k] by {
                let a = if place < 0 || j < place { j } else { j + 1 };
                let b = if place < 0 || k < place { k } else { k + 1 };
                assert(before.queue@[a] != before.queue@[b]);
            }
            assert forall|c: usize|
                c < self.cells@.len() && (#[trigger] self.cells@[c as int]).state
                    == CellState::Queued implies self.queue@.contains(c) by {
                assert(c != t.index);
                assert(before.cells@[c as int].state == CellState::Queued);
                let a = choose|a: int| 0 <= a < before.queue@.len() && before.queue@[a] == c;
                assert(a != place);
                let k = if place < 0 || a < place { a } else { a - 1 };
                assert(self.queue@[k] == c);
            }
            assert forall|k: int| 0 <= k < self.free@.len() implies (#[trigger] self.free@[k])
                < self.cells@.len() && self.cells@[self.free@[k] as int].state
                == CellState::Vacant by {
                if k < before.free@.len() {
                    assert(self.free@[k] == before.free@[k]);
                    assert(before.cells@[before.free@[k] as int].state == CellState::Vacant);
                }
            }
            assert forall|j: int, k: int| 0 <= j < k < self.free@.len() implies self.free@[j]
                != self.free@[k] by {
                if k == before.free@.len() {
                    assert(before.cells@[before.free@[j] as int].state == CellState::Vacant);
                }
            }
        }
        true
    }
}

} // verus!
