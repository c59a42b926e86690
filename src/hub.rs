use vstd::prelude::*;

verus! {

/// The mathematical state of one subscriber: its id, how many snapshots had been
/// published when it joined, and the number of the snapshot waiting for it.
pub struct SlotView {
    pub id: u64,
    pub joined: nat,
    pub pending: Option<nat>,
}

/// The mathematical state of a hub. `history[t - 1]` is the text of the
/// snapshot published as number `t`; `ticks` counts the publishes.
pub struct HubView {
    pub ticks: nat,
    pub next_id: nat,
    pub history: Seq<Seq<char>>,
    pub slots: Seq<SlotView>,
}

impl HubView {
    pub open spec fn wf(self) -> bool {
        &&& self.history.len() == self.ticks
        &&& forall|i: int|
            0 <= i < self.slots.len() ==> #[trigger] self.slots[i].id < self.next_id
                && self.slots[i].joined <= self.ticks
        &&& forall|i: int, j: int|
            0 <= i < self.slots.len() && 0 <= j < self.slots.len() && i != j
                ==> #[trigger] self.slots[i].id != #[trigger] self.slots[j].id
        &&& forall|i: int|
            0 <= i < self.slots.len() && (#[trigger] self.slots[i]).pending is Some
                ==> self.slots[i].joined < self.slots[i].pending->0 <= self.ticks
    }

    pub open spec fn has(self, id: u64) -> bool {
        exists|i: int| 0 <= i < self.slots.len() && self.slots[i].id == id
    }

    pub open spec fn index_of(self, id: u64) -> int {
        choose|i: int| 0 <= i < self.slots.len() && self.slots[i].id == id
    }

    /// What the subscriber `id` would read now: the newest snapshot published
    /// since its last read, if any.
    pub open spec fn delivered(self, id: u64) -> Option<Seq<char>> {
        if self.has(id) && self.slots[self.index_of(id)].pending is Some {
            Some(self.history[self.slots[self.index_of(id)].pending->0 - 1])
        } else {
            None
        }
    }

    /// Every subscriber's waiting snapshot is replaced by the new one.
    pub open spec fn after_publish(self, m: Seq<char>) -> HubView {
        HubView {
            ticks: self.ticks + 1,
            history: self.history.push(m),
            slots: self.slots.map_values(
                |s: SlotView| SlotView { id: s.id, joined: s.joined, pending: Some(self.ticks + 1) },
            ),
            ..self
        }
    }

    pub open spec fn after_subscribe(self) -> HubView {
        HubView {
            next_id: self.next_id + 1,
            slots: self.slots.push(SlotView { id: self.next_id as u64, joined: self.ticks, pending: None }),
            ..self
        }
    }

    pub open spec fn after_take(self, id: u64) -> HubView {
        if self.has(id) {
            let i = self.index_of(id);
            HubView {
                slots: self.slots.update(
                    i,
                    SlotView { id: self.slots[i].id, joined: self.slots[i].joined, pending: None },
                ),
                ..self
            }
        } else {
            self
        }
    }

    pub open spec fn after_leave(self, id: u64) -> HubView {
        if self.has(id) {
            HubView { slots: self.slots.remove(self.index_of(id)), ..self }
        } else {
            self
        }
    }
}

struct Slot {
    id: u64,
    joined: u64,
    seen: u64,
}

/// A subscriber has a snapshot waiting when the newest one is newer than the
/// last it has seen.
spec fn slot_view(s: Slot, ticks: u64) -> SlotView {
    SlotView {
        id: s.id,
        joined: s.joined as nat,
        pending: if s.seen < ticks {
            Some(ticks as nat)
        } else {
            None
        },
    }
}

/// A subscriber's read position in a [`Hub`].
pub struct Cursor {
    pub id: u64,
}

/// Fans each published snapshot out to every current subscriber. Only the
/// newest snapshot is kept: a subscriber that has not read the previous one
/// gets the newer one instead.
pub struct Hub {
    ticks: u64,
    next_id: u64,
    latest: Option<String>,
    slots: Vec<Slot>,
    history: Ghost<Seq<Seq<char>>>,
}

impl View for Hub {
    type V = HubView;

    closed spec fn view(&self) -> HubView {
        HubView {
            ticks: self.ticks as nat,
            next_id: self.next_id as nat,
            history: self.history@,
            slots: self.slots@.map_values(|s: Slot| slot_view(s, self.ticks)),
        }
    }
}

impl Hub {
    pub closed spec fn wf(&self) -> bool {
        &&& self.history@.len() == self.ticks
        &&& forall|i: int|
            0 <= i < self.slots@.len() ==> #[trigger] self.slots@[i].id < self.next_id
                && self.slots@[i].joined <= self.slots@[i].seen <= self.ticks
        &&& forall|i: int, j: int|
            0 <= i < self.slots@.len() && 0 <= j < self.slots@.len() && i != j
                ==> #[trigger] self.slots@[i].id != #[trigger] self.slots@[j].id
        &&& self.ticks > 0 ==> (self.latest matches Some(m) && m@ == self.history@[self.ticks - 1])
    }

    proof fn lemma_wf(&self)
        requires
            self.wf(),
        ensures
            self@.wf(),
            forall|i: int| 0 <= i < self.slots@.len() ==> #[trigger] self@.slots[i] == slot_view(self.slots@[i], self.ticks),
    {
        assert forall|a: int, b: int|
            0 <= a < self@.slots.len() && 0 <= b < self@.slots.len() && a != b
                implies #[trigger] self@.slots[a].id != #[trigger] self@.slots[b].id by {
            assert(self.slots@[a].id != self.slots@[b].id);
        }
        assert forall|k: int| 0 <= k < self@.slots.len() implies #[trigger] self@.slots[k].id < self@.next_id
            && self@.slots[k].joined <= self@.ticks by {
            assert(self.slots@[k].id < self.next_id);
        }
        assert forall|k: int| 0 <= k < self@.slots.len() && (#[trigger] self@.slots[k]).pending is Some
            implies self@.slots[k].joined < self@.slots[k].pending->0 <= self@.ticks by {
            assert(self.slots@[k].id < self.next_id);
        }
    }

    /// A hub with no subscribers and nothing published.
    pub fn new() -> (r: Hub)
        ensures
            r.wf(),
            r@.wf(),
            r@.ticks == 0,
            r@.next_id == 0,
            r@.slots.len() == 0,
    {
        let r = Hub { ticks: 0, next_id: 0, latest: None, slots: Vec::new(), history: Ghost(Seq::empty()) };
        proof {
            r.lemma_wf();
        }
        r
    }

    /// How many snapshots have been published.
    pub fn ticks(&self) -> (r: u64)
        ensures
            r == self@.ticks,
    {
        self.ticks
    }

    /// The id the next subscriber will get.
    pub fn next_id(&self) -> (r: u64)
        ensures
            r == self@.next_id,
    {
        self.next_id
    }

    fn find(&self, id: u64) -> (r: Option<usize>)
        requires
            self.wf(),
        ensures
            match r {
                Some(i) => i < self.slots@.len() && self@.has(id) && self@.index_of(id) == i,
                None => !self@.has(id),
            },
    {
        proof {
            self.lemma_wf();
        }
        let mut i: usize = 0;
        while i < self.slots.len()
            invariant
                self.wf(),
                self@.wf(),
                i <= self.slots@.len(),
                forall|k: int| 0 <= k < i ==> self.slots@[k].id != id,
            decreases self.slots@.len() - i,
        {
            if self.slots[i].id == id {
                proof {
                    assert(self@.slots[i as int].id == id);
                    let j = self@.index_of(id);
                    assert(self@.slots[j].id == id);
                }
                return Some(i);
            }
            i = i + 1;
        }
        proof {
            if self@.has(id) {
                let j = choose|j: int| 0 <= j < self@.slots.len() && self@.slots[j].id == id;
                assert(self.slots@[j].id == id);
            }
        }
        None
    }

    /// Registers a new subscriber. It sees only snapshots published after this
    /// call.
    pub fn subscribe(&mut self) -> (c: Cursor)
        requires
            old(self).wf(),
            old(self)@.next_id < u64::MAX,
        ensures
            final(self).wf(),
            final(self)@.wf(),
            final(self)@ == old(self)@.after_subscribe(),
            c.id == old(self)@.next_id,
    {
        let id = self.next_id;
        self.slots.push(Slot { id, joined: self.ticks, seen: self.ticks });
        self.next_id = self.next_id + 1;
        proof {
            assert(self@.slots =~= old(self)@.slots.push(
                SlotView { id: id, joined: old(self)@.ticks, pending: None },
            ));
            assert forall|k: int| 0 <= k < self.slots@.len() implies #[trigger] self.slots@[k].id < self.next_id
                && self.slots@[k].joined <= self.slots@[k].seen <= self.ticks by {
                if k < old(self).slots@.len() {
                    assert(old(self).slots@[k].id < old(self).next_id);
                }
            }
            assert forall|a: int, b: int|
                0 <= a < self.slots@.len() && 0 <= b < self.slots@.len() && a != b
                    implies #[trigger] self.slots@[a].id != #[trigger] self.slots@[b].id by {
                if a < old(self).slots@.len() {
                    assert(old(self).slots@[a].id < old(self).next_id);
                }
                if b < old(self).slots@.len() {
                    assert(old(self).slots@[b].id < old(self).next_id);
                }
            }
            self.lemma_wf();
        }
        Cursor { id }
    }

    /// Makes `m` the snapshot waiting for every current subscriber, replacing
    /// any snapshot a subscriber has not read yet. It takes the same steps
    /// whatever the number of subscribers and whether they read.
    pub fn publish(&mut self, m: String)
        requires
            old(self).wf(),
            old(self)@.ticks < u64::MAX,
        ensures
            final(self).wf(),
            final(self)@.wf(),
            final(self)@ == old(self)@.after_publish(m@),
    {
        let ghost text = m@;
        self.ticks = self.ticks + 1;
        self.history = Ghost(self.history@.push(text));
        self.latest = Some(m);
        proof {
            let post = old(self)@.after_publish(text);
            assert forall|k: int| 0 <= k < self.slots@.len() implies #[trigger] self.slots@[k].id < self.next_id
                && self.slots@[k].joined <= self.slots@[k].seen <= self.ticks by {
                assert(old(self).slots@[k].id < old(self).next_id);
            }
            assert forall|k: int| 0 <= k < self.slots@.len() implies #[trigger] self@.slots[k] == post.slots[k] by {
                assert(old(self).slots@[k].id < old(self).next_id);
            }
            assert(self@.slots =~= post.slots);
            self.lemma_wf();
        }
    }

    /// Takes the snapshot waiting for the subscriber `c`, if any: the newest one
    /// published since its last read.
    pub fn try_next(&mut self, c: &Cursor) -> (r: Option<String>)
        requires
            old(self).wf(),
        ensures
            final(self).wf(),
            final(self)@.wf(),
            final(self)@ == old(self)@.after_take(c.id),
            match r {
                Some(s) => old(self)@.delivered(c.id) == Some(s@),
                None => old(self)@.delivered(c.id) is None,
            },
    {
        proof {
            self.lemma_wf();
        }
        match self.find(c.id) {
            None => None,
            Some(i) => {
                let id = self.slots[i].id;
                let joined = self.slots[i].joined;
                let seen = self.slots[i].seen;
                if seen < self.ticks {
                    let r = match &self.latest {
                        Some(m) => Some(m.clone()),
                        None => None,
                    };
                    self.slots.set(i, Slot { id, joined, seen: self.ticks });
                    proof {
                        assert(old(self).slots@[i as int].id < old(self).next_id);
                        assert(self@.slots =~= old(self)@.after_take(c.id).slots);
                        assert forall|k: int| 0 <= k < self.slots@.len() implies #[trigger] self.slots@[k].id
                            < self.next_id && self.slots@[k].joined <= self.slots@[k].seen <= self.ticks by {
                            assert(old(self).slots@[k].id < old(self).next_id);
                        }
                        self.lemma_wf();
                    }
                    r
                } else {
                    proof {
                        assert(self@.slots =~= old(self)@.after_take(c.id).slots);
                    }
                    None
                }
            },
        }
    }

    /// Removes the subscriber `c`; the others are not affected.
    pub fn unsubscribe(&mut self, c: Cursor)
        requires
            old(self).wf(),
        ensures
            final(self).wf(),
            final(self)@.wf(),
            final(self)@ == old(self)@.after_leave(c.id),
    {
        proof {
            self.lemma_wf();
        }
        match self.find(c.id) {
            None => {},
            Some(i) => {
                self.slots.remove(i);
                proof {
                    old(self).slots@.remove_ensures(i as int);
                    old(self)@.slots.remove_ensures(i as int);
                    assert(self@.slots =~= old(self)@.slots.remove(i as int));
                    assert forall|a: int, b: int|
                        0 <= a < self.slots@.len() && 0 <= b < self.slots@.len() && a != b
                            implies #[trigger] self.slots@[a].id != #[trigger] self.slots@[b].id by {
                        let a0 = if a < i { a } else { a + 1 };
                        let b0 = if b < i { b } else { b + 1 };
                        assert(old(self).slots@[a0].id != old(self).slots@[b0].id);
                    }
                    assert forall|k: int| 0 <= k < self.slots@.len() implies #[trigger] self.slots@[k].id
                        < self.next_id && self.slots@[k].joined <= self.slots@[k].seen <= self.ticks by {
                        let k0 = if k < i { k } else { k + 1 };
                        assert(old(self).slots@[k0].id < old(self).next_id);
                    }
                    self.lemma_wf();
                }
            },
        }
    }
}

/// One operation on a hub, for stating what holds after any sequence of them.
pub enum HubOp {
    Publish(Seq<char>),
    Subscribe,
    Take(u64),
    Leave(u64),
}

impl HubView {
    /// The state after `op`; a subscribe with no id left changes nothing.
    pub open spec fn apply(self, op: HubOp) -> HubView {
        match op {
            HubOp::Publish(m) => self.after_publish(m),
            HubOp::Subscribe => if self.next_id < u64::MAX {
                self.after_subscribe()
            } else {
                self
            },
            HubOp::Take(id) => self.after_take(id),
            HubOp::Leave(id) => self.after_leave(id),
        }
    }

    pub open spec fn run(self, ops: Seq<HubOp>) -> HubView
        decreases ops.len(),
    {
        if ops.len() == 0 {
            self
        } else {
            self.apply(ops[0]).run(ops.drop_first())
        }
    }
}

/// What a subscriber reads when it reads once after each publish of `msgs`.
pub open spec fn publish_and_read(h: HubView, id: u64, msgs: Seq<Seq<char>>) -> Seq<Option<Seq<char>>>
    decreases msgs.len(),
{
    if msgs.len() == 0 {
        seq![]
    } else {
        let h1 = h.after_publish(msgs[0]);
        seq![h1.delivered(id)] + publish_and_read(h1.after_take(id), id, msgs.drop_first())
    }
}

/// In a well-formed hub the subscriber with a given id is at one place only.
pub proof fn lemma_index_unique(h: HubView, id: u64, i: int)
    requires
        h.wf(),
        0 <= i < h.slots.len(),
        h.slots[i].id == id,
    ensures
        h.has(id),
        h.index_of(id) == i,
{
    let j = h.index_of(id);
    assert(h.slots[j].id == id);
}

proof fn lemma_apply_wf(h: HubView, op: HubOp)
    requires
        h.wf(),
    ensures
        h.apply(op).wf(),
        h.apply(op).next_id >= h.next_id,
        h.apply(op).ticks >= h.ticks,
        h.apply(op).history.subrange(0, h.ticks as int) == h.history,
        forall|id: u64|
            id < h.next_id ==> (#[trigger] h.apply(op).has(id) ==> h.has(id) && h.apply(op).slots[h.apply(op).index_of(id)].joined
                == h.slots[h.index_of(id)].joined),
{
    let h2 = h.apply(op);
    match op {
        HubOp::Publish(m) => {
            assert(h2.history.subrange(0, h.ticks as int) =~= h.history);
            assert forall|a: int, b: int|
                0 <= a < h2.slots.len() && 0 <= b < h2.slots.len() && a != b
                    implies #[trigger] h2.slots[a].id != #[trigger] h2.slots[b].id by {
                assert(h.slots[a].id != h.slots[b].id);
            }
            assert forall|k: int| 0 <= k < h2.slots.len() implies #[trigger] h2.slots[k].id < h2.next_id
                && h2.slots[k].joined <= h2.ticks by {
                assert(h.slots[k].id < h.next_id);
            }
            assert forall|id: u64| id < h.next_id && #[trigger] h2.has(id) implies h.has(id)
                && h2.slots[h2.index_of(id)].joined == h.slots[h.index_of(id)].joined by {
                let i = h2.index_of(id);
                assert(h.slots[i].id == id);
                lemma_index_unique(h, id, i);
            }
        },
        HubOp::Subscribe => {
            if h.next_id < u64::MAX {
                assert(h2.history.subrange(0, h.ticks as int) =~= h.history);
                assert forall|a: int, b: int|
                    0 <= a < h2.slots.len() && 0 <= b < h2.slots.len() && a != b
                        implies #[trigger] h2.slots[a].id != #[trigger] h2.slots[b].id by {
                    if a < h.slots.len() {
                        assert(h.slots[a].id < h.next_id);
                    }
                    if b < h.slots.len() {
                        assert(h.slots[b].id < h.next_id);
                    }
                }
                assert forall|k: int| 0 <= k < h2.slots.len() implies #[trigger] h2.slots[k].id < h2.next_id
                    && h2.slots[k].joined <= h2.ticks by {
                    if k < h.slots.len() {
                        assert(h.slots[k].id < h.next_id);
                    }
                }
                assert forall|id: u64| id < h.next_id && #[trigger] h2.has(id) implies h.has(id)
                    && h2.slots[h2.index_of(id)].joined == h.slots[h.index_of(id)].joined by {
                    let i = h2.index_of(id);
                    assert(i < h.slots.len());
                    assert(h.slots[i].id == id);
                    lemma_index_unique(h, id, i);
                }
            } else {
                assert(h2.history.subrange(0, h.ticks as int) =~= h.history);
            }
        },
        HubOp::Take(t) => {
            assert(h2.history.subrange(0, h.ticks as int) =~= h.history);
            if h.has(t) {
                let i = h.index_of(t);
                assert forall|a: int, b: int|
                    0 <= a < h2.slots.len() && 0 <= b < h2.slots.len() && a != b
                        implies #[trigger] h2.slots[a].id != #[trigger] h2.slots[b].id by {
                    assert(h.slots[a].id != h.slots[b].id);
                }
                assert forall|k: int| 0 <= k < h2.slots.len() implies #[trigger] h2.slots[k].id < h2.next_id
                    && h2.slots[k].joined <= h2.ticks by {
                    assert(h.slots[k].id < h.next_id);
                }
                assert forall|k: int| 0 <= k < h2.slots.len() && (#[trigger] h2.slots[k]).pending is Some
                    implies h2.slots[k].joined < h2.slots[k].pending->0 <= h2.ticks by {
                    assert(h2.slots[k] == h.slots[k]);
                }
                assert forall|id: u64| id < h.next_id && #[trigger] h2.has(id) implies h.has(id)
                    && h2.slots[h2.index_of(id)].joined == h.slots[h.index_of(id)].joined by {
                    let j = h2.index_of(id);
                    assert(h.slots[j].id == id);
                    lemma_index_unique(h, id, j);
                }
            }
        },
        HubOp::Leave(t) => {
            assert(h2.history.subrange(0, h.ticks as int) =~= h.history);
            if h.has(t) {
                let i = h.index_of(t);
                h.slots.remove_ensures(i);
                assert forall|a: int, b: int|
                    0 <= a < h2.slots.len() && 0 <= b < h2.slots.len() && a != b
                        implies #[trigger] h2.slots[a].id != #[trigger] h2.slots[b].id by {
                    let a0 = if a < i { a } else { a + 1 };
                    let b0 = if b < i { b } else { b + 1 };
                    assert(h.slots[a0].id != h.slots[b0].id);
                }
                assert forall|k: int| 0 <= k < h2.slots.len() implies #[trigger] h2.slots[k].id < h2.next_id
                    && h2.slots[k].joined <= h2.ticks by {
                    let k0 = if k < i { k } else { k + 1 };
                    assert(h.slots[k0].id < h.next_id);
                }
                assert forall|k: int| 0 <= k < h2.slots.len() && (#[trigger] h2.slots[k]).pending is Some
                    implies h2.slots[k].joined < h2.slots[k].pending->0 <= h2.ticks by {
                    let k0 = if k < i { k } else { k + 1 };
                    assert(h2.slots[k] == h.slots[k0]);
                }
                assert forall|id: u64| id < h.next_id && #[trigger] h2.has(id) implies h.has(id)
                    && h2.slots[h2.index_of(id)].joined == h.slots[h.index_of(id)].joined by {
                    let j = h2.index_of(id);
                    let j0 = if j < i { j } else { j + 1 };
                    assert(h.slots[j0].id == id);
                    lemma_index_unique(h, id, j0);
                }
            }
        },
    }
}

/// A subscriber that reads once after every publish receives every snapshot,
/// each exactly once, in the order they were published.
pub proof fn lemma_reader_sees_every_publish(h: HubView, id: u64, msgs: Seq<Seq<char>>)
    requires
        h.wf(),
        h.has(id),
    ensures
        publish_and_read(h, id, msgs) == msgs.map_values(|m: Seq<char>| Some(m)),
    decreases msgs.len(),
{
    if msgs.len() > 0 {
        let i = h.index_of(id);
        let h1 = h.after_publish(msgs[0]);
        lemma_apply_wf(h, HubOp::Publish(msgs[0]));
        assert(h1.slots[i].id == id);
        lemma_index_unique(h1, id, i);
        assert(h1.delivered(id) == Some(msgs[0]));
        let h2 = h1.after_take(id);
        lemma_apply_wf(h1, HubOp::Take(id));
        assert(h2.slots[i].id == id);
        lemma_index_unique(h2, id, i);
        lemma_reader_sees_every_publish(h2, id, msgs.drop_first());
        assert(publish_and_read(h, id, msgs) =~= msgs.map_values(|m: Seq<char>| Some(m)));
    }
}

proof fn lemma_run_keeps_join(h: HubView, ops: Seq<HubOp>, id: u64)
    requires
        h.wf(),
        id < h.next_id,
    ensures
        h.run(ops).wf(),
        h.run(ops).ticks >= h.ticks,
        h.run(ops).history.subrange(0, h.ticks as int) == h.history,
        h.run(ops).has(id) ==> h.has(id) && h.run(ops).slots[h.run(ops).index_of(id)].joined
            == h.slots[h.index_of(id)].joined,
    decreases ops.len(),
{
    if ops.len() > 0 {
        let h1 = h.apply(ops[0]);
        lemma_apply_wf(h, ops[0]);
        lemma_run_keeps_join(h1, ops.drop_first(), id);
        let h2 = h1.run(ops.drop_first());
        assert(h2.history.subrange(0, h.ticks as int) =~= h2.history.subrange(0, h1.ticks as int).subrange(
            0,
            h.ticks as int,
        ));
    }
}

/// Whatever happens after a subscriber joins, it is handed only snapshots that
/// were published after it joined; what was published before is kept as it was.
pub proof fn lemma_late_subscriber(h: HubView, ops: Seq<HubOp>)
    requires
        h.wf(),
        h.next_id < u64::MAX,
    ensures
        ({
            let id = h.next_id as u64;
            let later = h.after_subscribe().run(ops);
            &&& later.history.subrange(0, h.ticks as int) == h.history
            &&& later.delivered(id) is Some ==> exists|t: int|
                h.ticks < t <= later.ticks && later.delivered(id) == Some(#[trigger] later.history[t - 1])
        }),
{
    let id = h.next_id as u64;
    let h1 = h.after_subscribe();
    lemma_apply_wf(h, HubOp::Subscribe);
    lemma_index_unique(h1, id, h.slots.len() as int);
    lemma_run_keeps_join(h1, ops, id);
    let later = h1.run(ops);
    assert(later.history.subrange(0, h.ticks as int) =~= later.history.subrange(0, h1.ticks as int));
    if later.delivered(id) is Some {
        let t = later.slots[later.index_of(id)].pending->0;
        assert(h.ticks < t <= later.ticks);
    }
}

/// Removing one subscriber leaves every other subscriber as it was.
pub proof fn lemma_leave_keeps_others(h: HubView, id: u64, other: u64)
    requires
        h.wf(),
        id != other,
    ensures
        h.after_leave(id).wf(),
        !h.after_leave(id).has(id),
        h.after_leave(id).has(other) == h.has(other),
        h.after_leave(id).delivered(other) == h.delivered(other),
{
    let h2 = h.after_leave(id);
    lemma_apply_wf(h, HubOp::Leave(id));
    if h.has(id) {
        let i = h.index_of(id);
        h.slots.remove_ensures(i);
        if h2.has(id) {
            let j = h2.index_of(id);
            let j0 = if j < i { j } else { j + 1 };
            assert(h.slots[j0].id == id);
        }
        if h.has(other) {
            let k = h.index_of(other);
            let k2 = if k < i { k } else { k - 1 };
            assert(h2.slots[k2] == h.slots[k]);
            lemma_index_unique(h2, other, k2);
        }
        if h2.has(other) {
            let j = h2.index_of(other);
            let j0 = if j < i { j } else { j + 1 };
            assert(h.slots[j0].id == other);
        }
    }
}

} // verus!
