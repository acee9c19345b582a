//! The broadcaster: it owns the set of live connections and the ordered inbox
//! of decoded messages, and sends at most one message per cycle to every live
//! connection, dropping those whose write failed.
//!
//! Connections are named by ids that the relay hands out; an id is never
//! handed out twice, so a dropped connection cannot come back.
use vstd::prelude::*;
use vstd::utf8::encode_utf8;
use crate::frame::{encode_frame, frame_of, frame_text, payload};
use vstd::utf8::decode_utf8_encode_utf8;

verus! {

/// The abstract state of a relay.
pub struct RelayState {
    /// The live connections, in the order they were accepted.
    pub live: Seq<u64>,
    /// The id that the next accepted connection gets.
    pub next_id: u64,
    /// The messages not yet broadcast, oldest first.
    pub inbox: Seq<Seq<char>>,
}

impl RelayState {
    /// No connection is live twice, and every live id was handed out already.
    pub open spec fn wf(self) -> bool {
        &&& self.live.no_duplicates()
        &&& forall|i: int| 0 <= i < self.live.len() ==> self.live[i] < self.next_id
    }
}

/// Keeps the ids that are not in `gone`.
pub open spec fn kept(gone: Seq<u64>) -> spec_fn(u64) -> bool {
    |x: u64| !gone.contains(x)
}

/// A new connection joins the live set under a fresh id, unless the ids are
/// used up.
pub open spec fn after_register(s: RelayState) -> RelayState {
    if s.next_id < u64::MAX {
        RelayState { live: s.live.push(s.next_id), next_id: (s.next_id + 1) as u64, inbox: s.inbox }
    } else {
        s
    }
}

/// A decoded message joins the back of the inbox.
pub open spec fn after_enqueue(s: RelayState, m: Seq<char>) -> RelayState {
    RelayState { live: s.live, next_id: s.next_id, inbox: s.inbox.push(m) }
}

/// The connections in `gone` leave the live set; the others keep their order.
pub open spec fn after_prune(s: RelayState, gone: Seq<u64>) -> RelayState {
    RelayState { live: s.live.filter(kept(gone)), next_id: s.next_id, inbox: s.inbox }
}

/// The oldest message leaves the inbox, if there is one.
pub open spec fn after_take(s: RelayState) -> RelayState {
    if s.inbox.len() == 0 {
        s
    } else {
        RelayState { live: s.live, next_id: s.next_id, inbox: s.inbox.drop_first() }
    }
}

/// What the next broadcast cycle does: the frame of the oldest message and
/// the connections to write it to, all those live; nothing when the inbox is
/// empty.
pub open spec fn next_cycle(s: RelayState) -> Option<(Seq<u8>, Seq<u64>)> {
    if s.inbox.len() == 0 {
        None
    } else {
        Some((frame_of(encode_utf8(s.inbox[0])), s.live))
    }
}

/// One operation on a relay.
pub enum RelayOp {
    /// A connection was accepted.
    Register,
    /// A decoded message arrived.
    Enqueue(Seq<char>),
    /// These connections failed or closed.
    Prune(Seq<u64>),
    /// A broadcast cycle took the oldest message.
    Take,
}

/// The state after one operation.
pub open spec fn apply(s: RelayState, op: RelayOp) -> RelayState {
    match op {
        RelayOp::Register => after_register(s),
        RelayOp::Enqueue(m) => after_enqueue(s, m),
        RelayOp::Prune(gone) => after_prune(s, gone),
        RelayOp::Take => after_take(s),
    }
}

/// The state after `ops`, applied in order.
pub open spec fn run(s: RelayState, ops: Seq<RelayOp>) -> RelayState
    decreases ops.len(),
{
    if ops.len() == 0 {
        s
    } else {
        run(apply(s, ops[0]), ops.drop_first())
    }
}

/// The messages that the next `n` broadcast cycles send, in order.
pub open spec fn broadcasts(s: RelayState, n: nat) -> Seq<Seq<char>>
    decreases n,
{
    if n == 0 || s.inbox.len() == 0 {
        Seq::empty()
    } else {
        seq![s.inbox[0]] + broadcasts(after_take(s), (n - 1) as nat)
    }
}

/// Each element of a filtered sequence comes from the sequence.
proof fn lemma_filter_from(s: Seq<u64>, p: spec_fn(u64) -> bool, i: int)
    requires
        0 <= i < s.filter(p).len(),
    ensures
        s.contains(s.filter(p)[i]),
{
    assert(s.filter(p).contains(s.filter(p)[i]));
    s.lemma_filter_contains_rev(p, s.filter(p)[i]);
}

/// Filtering keeps distinct elements distinct.
proof fn lemma_filter_distinct(s: Seq<u64>, p: spec_fn(u64) -> bool)
    requires
        s.no_duplicates(),
    ensures
        s.filter(p).no_duplicates(),
    decreases s.len(),
{
    reveal(Seq::filter);
    if s.len() > 0 {
        let d = s.drop_last();
        lemma_filter_distinct(d, p);
        assert forall|i: int| 0 <= i < d.filter(p).len() implies d.filter(p)[i] != s.last() by {
            lemma_filter_from(d, p, i);
            let j = choose|j: int| 0 <= j < d.len() && d[j] == d.filter(p)[i];
            assert(s[j] == d[j]);
            assert(s[s.len() - 1] == s.last());
        }
        let f = d.filter(p);
        if p(s.last()) {
            assert(s.filter(p) == f.push(s.last()));
            assert forall|i: int, j: int|
                0 <= i < f.len() + 1 && 0 <= j < f.len() + 1 && i != j implies f.push(
                s.last(),
            )[i] != f.push(s.last())[j] by {
                if i < f.len() && j < f.len() {
                    assert(f[i] != f[j]);
                }
            }
        } else {
            assert(s.filter(p) == f);
        }
    }
}

/// A pruned state keeps the relay's invariant.
proof fn lemma_prune_wf(s: RelayState, gone: Seq<u64>)
    requires
        s.wf(),
    ensures
        after_prune(s, gone).wf(),
{
    lemma_filter_distinct(s.live, kept(gone));
    assert forall|i: int| 0 <= i < s.live.filter(kept(gone)).len() implies s.live.filter(
        kept(gone),
    )[i] < s.next_id by {
        lemma_filter_from(s.live, kept(gone), i);
    }
}

/// An id that was handed out and is not live stays out of the live set,
/// whatever the relay does next.
proof fn lemma_absent_stays_absent(s: RelayState, ops: Seq<RelayOp>, id: u64)
    requires
        id < s.next_id,
        !s.live.contains(id),
    ensures
        !run(s, ops).live.contains(id),
    decreases ops.len(),
{
    if ops.len() > 0 {
        let t = apply(s, ops[0]);
        match ops[0] {
            RelayOp::Register => {
                if s.next_id < u64::MAX {
                    assert forall|i: int| 0 <= i < t.live.len() implies t.live[i] != id by {
                        if i < s.live.len() {
                            assert(t.live[i] == s.live[i]);
                        }
                    }
                }
            },
            RelayOp::Prune(gone) => {
                assert forall|i: int| 0 <= i < t.live.len() implies t.live[i] != id by {
                    lemma_filter_from(s.live, kept(gone), i);
                }
            },
            _ => {},
        }
        lemma_absent_stays_absent(t, ops.drop_first(), id);
    }
}

/// A connection whose write failed in a cycle is absent from the live set in
/// every later state, and the other connections stay live, in their order.
pub proof fn lemma_pruned_stays_out(s: RelayState, failed: Seq<u64>, ops: Seq<RelayOp>, id: u64)
    requires
        s.wf(),
        s.live.contains(id),
        failed.contains(id),
    ensures
        !run(after_prune(s, failed), ops).live.contains(id),
        forall|x: u64|
            s.live.contains(x) && !failed.contains(x) ==> #[trigger] after_prune(
                s,
                failed,
            ).live.contains(x),
{
    let t = after_prune(s, failed);
    broadcast use vstd::seq_lib::group_filter_ensures;

    assert forall|i: int| 0 <= i < t.live.len() implies t.live[i] != id by {}
    let k = choose|k: int| 0 <= k < s.live.len() && s.live[k] == id;
    assert(id < s.next_id) by {
        assert(s.live[k] < s.next_id);
    }
    lemma_absent_stays_absent(t, ops, id);
}

/// The inbox is broadcast front to back.
proof fn lemma_broadcasts_inbox(s: RelayState)
    ensures
        broadcasts(s, s.inbox.len()) == s.inbox,
    decreases s.inbox.len(),
{
    if s.inbox.len() > 0 {
        lemma_broadcasts_inbox(after_take(s));
        assert(seq![s.inbox[0]] + s.inbox.drop_first() =~= s.inbox);
    } else {
        assert(s.inbox =~= Seq::<Seq<char>>::empty());
    }
}

/// Two messages that arrive one after the other are broadcast in that order,
/// after those that were waiting before them.
pub proof fn lemma_broadcast_order(s: RelayState, m1: Seq<char>, m2: Seq<char>)
    ensures
        broadcasts(after_enqueue(after_enqueue(s, m1), m2), s.inbox.len() + 2) == s.inbox
            + seq![m1, m2],
{
    let t = after_enqueue(after_enqueue(s, m1), m2);
    lemma_broadcasts_inbox(t);
    assert(t.inbox =~= s.inbox + seq![m1, m2]);
}

/// A client whose connection closed before a broadcast gets nothing of a later
/// message: once it is dropped and another client's message arrives at an
/// empty inbox, the next cycle sends that message's frame to every other
/// connection that was live, and not to the closed one.
pub proof fn lemma_closed_client_skipped(s: RelayState, closed: u64, m: Seq<char>)
    requires
        s.wf(),
        s.inbox.len() == 0,
    ensures
        ({
            let t = after_enqueue(after_prune(s, seq![closed]), m);
            &&& t.wf()
            &&& next_cycle(t) matches Some(c) && c.0 == frame_of(encode_utf8(m))
            &&& !next_cycle(t)->Some_0.1.contains(closed)
            &&& forall|x: u64|
                s.live.contains(x) && x != closed ==> #[trigger] next_cycle(t)->Some_0.1.contains(x)
        }),
{
    broadcast use vstd::seq_lib::group_filter_ensures;

    let t = after_enqueue(after_prune(s, seq![closed]), m);
    lemma_prune_wf(s, seq![closed]);
    assert(seq![closed].contains(closed)) by {
        assert(seq![closed][0] == closed);
    }
    assert forall|x: u64| s.live.contains(x) && x != closed implies t.live.contains(x) by {
        assert(!seq![closed].contains(x));
    }
    assert forall|i: int| 0 <= i < t.live.len() implies t.live[i] != closed by {}
}

/// A message that arrives at an empty inbox in a well-formed frame goes out,
/// in the next cycle, to every live connection, its sender included, as that
/// very frame.
pub proof fn lemma_frame_relayed_unchanged(s: RelayState, f: Seq<u8>)
    requires
        s.wf(),
        s.inbox.len() == 0,
        frame_text(f) is Some,
        f == frame_of(payload(f)),
    ensures
        next_cycle(after_enqueue(s, frame_text(f)->Some_0)) == Some((f, s.live)),
{
    decode_utf8_encode_utf8(payload(f));
}

/// One broadcast cycle's work: the frame to write and the connections to
/// write it to.
pub struct Broadcast {
    pub frame: Vec<u8>,
    pub targets: Vec<u64>,
}

/// The broadcaster and its live connection set.
pub struct Relay {
    live: Vec<u64>,
    next_id: u64,
    inbox: Vec<String>,
}

impl View for Relay {
    type V = RelayState;

    closed spec fn view(&self) -> RelayState {
        RelayState {
            live: self.live@,
            next_id: self.next_id,
            inbox: self.inbox@.map_values(|m: String| m@),
        }
    }
}

/// Whether `x` is one of `ids`.
fn holds(ids: &[u64], x: u64) -> (b: bool)
    ensures
        b == ids@.contains(x),
{
    let mut i: usize = 0;
    while i < ids.len()
        invariant
            i <= ids@.len(),
            forall|j: int| 0 <= j < i ==> ids@[j] != x,
        decreases ids@.len() - i,
    {
        if ids[i] == x {
            return true;
        }
        i = i + 1;
    }
    false
}

impl Relay {
    /// The relay's invariant.
    pub open spec fn wf(&self) -> bool {
        self@.wf()
    }

    /// A relay with no connections and no pending messages.
    pub fn new() -> (r: Relay)
        ensures
            r.wf(),
            r@.live.len() == 0,
            r@.next_id == 0,
            r@.inbox.len() == 0,
    {
        let r = Relay { live: Vec::new(), next_id: 0, inbox: Vec::new() };
        assert(r@.inbox =~= Seq::<Seq<char>>::empty());
        r
    }

    /// Admits a newly accepted connection: it joins the live set under a
    /// fresh id, which is returned. `None` once the ids are used up.
    pub fn register(&mut self) -> (id: Option<u64>)
        requires
            old(self).wf(),
        ensures
            final(self).wf(),
            final(self)@ == after_register(old(self)@),
            id == (if old(self)@.next_id < u64::MAX {
                Some(old(self)@.next_id)
            } else {
                None::<u64>
            }),
    {
        if self.next_id == u64::MAX {
            return None;
        }
        let id = self.next_id;
        self.live.push(id);
        self.next_id = id + 1;
        assert(self@.live =~= old(self)@.live.push(id));
        Some(id)
    }

    /// Puts a decoded message at the back of the inbox.
    pub fn enqueue(&mut self, text: String)
        requires
            old(self).wf(),
        ensures
            final(self).wf(),
            final(self)@ == after_enqueue(old(self)@, text@),
    {
        self.inbox.push(text);
        assert(self@.inbox =~= old(self)@.inbox.push(text@));
    }

    /// Drops the connections in `gone` from the live set; the others stay,
    /// in their order.
    pub fn prune(&mut self, gone: &[u64])
        requires
            old(self).wf(),
        ensures
            final(self).wf(),
            final(self)@ == after_prune(old(self)@, gone@),
    {
        let ghost before = self@;
        let mut kept_ids: Vec<u64> = Vec::new();
        let mut i: usize = 0;
        while i < self.live.len()
            invariant
                self@ == before,
                i <= self.live@.len(),
                kept_ids@ == self.live@.take(i as int).filter(kept(gone@)),
            decreases self.live@.len() - i,
        {
            let x = self.live[i];
            proof {
                reveal(Seq::filter);
                assert(self.live@.take(i + 1).drop_last() =~= self.live@.take(i as int));
            }
            if !holds(gone, x) {
                kept_ids.push(x);
            }
            i = i + 1;
        }
        assert(self.live@.take(i as int) =~= self.live@);
        self.live = kept_ids;
        proof {
            lemma_prune_wf(before, gone@);
        }
    }

    /// A connection whose reader stopped leaves the live set at once.
    pub fn close(&mut self, id: u64)
        requires
            old(self).wf(),
        ensures
            final(self).wf(),
            final(self)@ == after_prune(old(self)@, seq![id]),
    {
        let gone = vec![id];
        assert(gone@ =~= seq![id]);
        self.prune(gone.as_slice());
    }

    /// Starts a broadcast cycle: takes the oldest pending message, if any, and
    /// returns its frame with every live connection as a target.
    pub fn next_broadcast(&mut self) -> (r: Option<Broadcast>)
        requires
            old(self).wf(),
        ensures
            final(self).wf(),
            final(self)@ == after_take(old(self)@),
            r is None <==> next_cycle(old(self)@) is None,
            r matches Some(b) ==> next_cycle(old(self)@) == Some((b.frame@, b.targets@)),
    {
        if self.inbox.len() == 0 {
            return None;
        }
        let text = self.inbox.remove(0);
        assert(self@.inbox =~= old(self)@.inbox.drop_first());
        let frame = encode_frame(text.as_str());
        let targets = self.live.clone();
        Some(Broadcast { frame, targets })
    }

    /// The live connections, in the order they were accepted.
    pub fn live(&self) -> (r: &[u64])
        ensures
            r@ == self@.live,
    {
        self.live.as_slice()
    }

    /// The number of messages waiting to be broadcast.
    pub fn pending(&self) -> (n: usize)
        ensures
            n == self@.inbox.len(),
    {
        self.inbox.len()
    }
}

} // verus!
