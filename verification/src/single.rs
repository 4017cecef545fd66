//! The single-mode registry.
//!
//! `SingleRegistry` maps an identifier to the ordered set of its live
//! connections, and, independently, to a FIFO of pending reply slots for
//! ping-pong publishes.  A single-mode publish is unicast: it picks one live
//! subscriber (first in iteration order), pruning dead connections it runs
//! into.  An identifier whose last connection goes away is dropped together
//! with its reply-slot FIFO, which closes every pending slot and unblocks the
//! publishers awaiting them.
//!
//! Reply correlation is by wire order: slots are pushed at the back of the
//! identifier's FIFO and the subscriber's inbound data frames consume slots
//! strictly from the front, so subscribers must reply to requests in the
//! order they receive them.

use vstd::prelude::*;

verus! {

use crate::message::{Message, MessageView, InboundFrame, encode_body, spec_encode, str_eq};
use crate::queue::{OutboundQueue, ReplySender};

// ---------------------------------------------------------------------------
// Delivery mode
// ---------------------------------------------------------------------------

/// How a single-mode publish is delivered: fire-and-forget, or with a
/// synchronous reply awaited from the subscriber.
#[derive(Clone, Copy, Debug, PartialEq, Eq, Structural)]
pub enum Mode {
    Shot,
    PingPong,
}

/// The mode a query-parameter value denotes, if any: the snake-case names
/// `shot` and `ping_pong`.
pub open spec fn spec_parse_mode(s: Seq<char>) -> Option<Mode> {
    if s == "shot"@ {
        Some(Mode::Shot)
    } else if s == "ping_pong"@ {
        Some(Mode::PingPong)
    } else {
        None
    }
}

impl Mode {
    /// Parse a `mode` query-parameter value.
    pub fn parse(s: &str) -> (r: Option<Mode>)
        ensures
            r == spec_parse_mode(s@),
    {
        if str_eq(s, "shot") {
            Some(Mode::Shot)
        } else if str_eq(s, "ping_pong") {
            Some(Mode::PingPong)
        } else {
            None
        }
    }

    /// The mode of a request: absent or unrecognized values fall back to the
    /// default, `Shot`.
    pub fn from_query(q: Option<&str>) -> (r: Mode)
        ensures
            r == (match q {
                Some(s) => (match spec_parse_mode(s@) {
                    Some(m) => m,
                    None => Mode::Shot,
                }),
                None => Mode::Shot,
            }),
    {
        match q {
            Some(s) => (match Mode::parse(s) {
                Some(m) => m,
                None => Mode::Shot,
            }),
            None => Mode::Shot,
        }
    }
}

impl Default for Mode {
    /// The default delivery mode is `Shot`.
    fn default() -> (r: Mode)
        ensures
            r == Mode::Shot,
    {
        Mode::Shot
    }
}

// ---------------------------------------------------------------------------
// Registry data and its abstract value
// ---------------------------------------------------------------------------

/// One live connection under an identifier.
pub struct SubscriberConn {
    /// Unique handle for this socket within its identifier.
    pub conn_id: String,
    /// The connection's outbound queue.
    pub queue: OutboundQueue,
}

/// Abstract value of one connection: its handle and the messages its queue
/// has accepted.
#[verifier::ext_equal]
pub ghost struct ConnView {
    pub conn_id: Seq<char>,
    pub sent: Seq<MessageView>,
}

impl View for SubscriberConn {
    type V = ConnView;

    open spec fn view(&self) -> ConnView {
        ConnView { conn_id: self.conn_id@, sent: self.queue@ }
    }
}

/// The connections registered under one identifier.
pub struct UserEntry {
    pub id: String,
    pub conns: Vec<SubscriberConn>,
}

#[verifier::ext_equal]
pub ghost struct UserView {
    pub id: Seq<char>,
    pub conns: Seq<ConnView>,
}

impl View for UserEntry {
    type V = UserView;

    open spec fn view(&self) -> UserView {
        UserView { id: self.id@, conns: self.conns@.map_values(|c: SubscriberConn| c@) }
    }
}

/// One pending reply slot: the opaque id a timeout uses to find it again,
/// and the channel the reply is delivered through.
pub struct ReplySlot {
    pub slot_id: String,
    pub sender: ReplySender,
}

#[verifier::ext_equal]
pub ghost struct SlotView {
    pub slot_id: Seq<char>,
}

impl View for ReplySlot {
    type V = SlotView;

    open spec fn view(&self) -> SlotView {
        SlotView { slot_id: self.slot_id@ }
    }
}

/// The pending reply slots of one identifier, oldest first.
pub struct SlotQueue {
    pub id: String,
    pub slots: Vec<ReplySlot>,
}

#[verifier::ext_equal]
pub ghost struct FifoView {
    pub id: Seq<char>,
    pub slots: Seq<SlotView>,
}

impl View for SlotQueue {
    type V = FifoView;

    open spec fn view(&self) -> FifoView {
        FifoView { id: self.id@, slots: self.slots@.map_values(|s: ReplySlot| s@) }
    }
}

/// The single-mode registry: connections and reply-slot FIFOs by identifier.
pub struct SingleRegistry {
    pub users: Vec<UserEntry>,
    pub fifos: Vec<SlotQueue>,
}

#[verifier::ext_equal]
pub ghost struct SingleView {
    pub users: Seq<UserView>,
    pub fifos: Seq<FifoView>,
}

impl View for SingleRegistry {
    type V = SingleView;

    open spec fn view(&self) -> SingleView {
        SingleView {
            users: self.users@.map_values(|e: UserEntry| e@),
            fifos: self.fifos@.map_values(|f: SlotQueue| f@),
        }
    }
}

// ---------------------------------------------------------------------------
// Spec-level vocabulary
// ---------------------------------------------------------------------------

pub open spec fn has_user(users: Seq<UserView>, id: Seq<char>) -> bool {
    exists|i: int| 0 <= i < users.len() && users[i].id == id
}

/// The index of the entry for `id`; meaningful only when `has_user` holds
/// and user ids are distinct.
pub open spec fn user_index(users: Seq<UserView>, id: Seq<char>) -> int {
    choose|i: int| 0 <= i < users.len() && users[i].id == id
}

pub open spec fn user_ids_distinct(users: Seq<UserView>) -> bool {
    forall|i: int, j: int| 0 <= i < j < users.len() ==> users[i].id != users[j].id
}

pub open spec fn has_conn_in(cs: Seq<ConnView>, cid: Seq<char>) -> bool {
    exists|i: int| 0 <= i < cs.len() && cs[i].conn_id == cid
}

pub open spec fn conn_ids_distinct(cs: Seq<ConnView>) -> bool {
    forall|i: int, j: int| 0 <= i < j < cs.len() ==> cs[i].conn_id != cs[j].conn_id
}

pub open spec fn has_fifo(fifos: Seq<FifoView>, id: Seq<char>) -> bool {
    exists|i: int| 0 <= i < fifos.len() && fifos[i].id == id
}

pub open spec fn fifo_index(fifos: Seq<FifoView>, id: Seq<char>) -> int {
    choose|i: int| 0 <= i < fifos.len() && fifos[i].id == id
}

pub open spec fn fifo_ids_distinct(fifos: Seq<FifoView>) -> bool {
    forall|i: int, j: int| 0 <= i < j < fifos.len() ==> fifos[i].id != fifos[j].id
}

/// All connections for `id` except those with handle `cid`.
pub open spec fn remove_conns(cs: Seq<ConnView>, cid: Seq<char>) -> Seq<ConnView>
    decreases cs.len(),
{
    if cs.len() == 0 {
        cs
    } else {
        let rest = remove_conns(cs.drop_last(), cid);
        if cs.last().conn_id == cid {
            rest
        } else {
            rest.push(cs.last())
        }
    }
}

/// All FIFO entries except the one (if any) for `id`.
pub open spec fn remove_fifos(fifos: Seq<FifoView>, id: Seq<char>) -> Seq<FifoView>
    decreases fifos.len(),
{
    if fifos.len() == 0 {
        fifos
    } else {
        let rest = remove_fifos(fifos.drop_last(), id);
        if fifos.last().id == id {
            rest
        } else {
            rest.push(fifos.last())
        }
    }
}

/// All slots except those with id `sid`.
pub open spec fn remove_slots(slots: Seq<SlotView>, sid: Seq<char>) -> Seq<SlotView>
    decreases slots.len(),
{
    if slots.len() == 0 {
        slots
    } else {
        let rest = remove_slots(slots.drop_last(), sid);
        if slots.last().slot_id == sid {
            rest
        } else {
            rest.push(slots.last())
        }
    }
}

/// Well-formedness: identifiers are distinct, no identifier is retained with
/// zero connections, connection handles are distinct within an identifier,
/// and every reply-slot FIFO belongs to a registered identifier.
pub open spec fn inv(v: SingleView) -> bool {
    &&& user_ids_distinct(v.users)
    &&& (forall|i: int|
        0 <= i < v.users.len() ==> (#[trigger] v.users[i]).conns.len() > 0 && conn_ids_distinct(
            v.users[i].conns,
        ))
    &&& fifo_ids_distinct(v.fifos)
    &&& (forall|i: int|
        0 <= i < v.fifos.len() ==> has_user(v.users, (#[trigger] v.fifos[i]).id))
}

// ---------------------------------------------------------------------------
// Spec-level transitions
// ---------------------------------------------------------------------------

/// Registering a connection: append to the identifier's connection list, or
/// create the identifier with this one connection.
pub open spec fn spec_connect(v: SingleView, id: Seq<char>, cid: Seq<char>, sent: Seq<MessageView>) -> SingleView {
    let c = ConnView { conn_id: cid, sent };
    if has_user(v.users, id) {
        let u = user_index(v.users, id);
        SingleView {
            users: v.users.update(u, UserView { id, conns: v.users[u].conns.push(c) }),
            fifos: v.fifos,
        }
    } else {
        SingleView { users: v.users.push(UserView { id, conns: seq![c] }), fifos: v.fifos }
    }
}

/// Deregistering a connection: drop it from the identifier's list; when the
/// list becomes empty the identifier goes away, and its reply-slot FIFO with
/// it.
pub open spec fn spec_disconnect(v: SingleView, id: Seq<char>, cid: Seq<char>) -> SingleView {
    if !has_user(v.users, id) {
        v
    } else {
        let u = user_index(v.users, id);
        let cs = remove_conns(v.users[u].conns, cid);
        if cs.len() == 0 {
            SingleView { users: v.users.remove(u), fifos: remove_fifos(v.fifos, id) }
        } else {
            SingleView { users: v.users.update(u, UserView { id, conns: cs }), fifos: v.fifos }
        }
    }
}

/// The number of live connections registered for `id`.
pub open spec fn spec_count(v: SingleView, id: Seq<char>) -> nat {
    if has_user(v.users, id) {
        v.users[user_index(v.users, id)].conns.len()
    } else {
        0
    }
}

// ---------------------------------------------------------------------------
// Lemmas about the vocabulary
// ---------------------------------------------------------------------------

/// Under distinct ids, any index whose entry matches `id` is the
/// `user_index`.
pub proof fn lemma_user_index(users: Seq<UserView>, id: Seq<char>)
    requires
        user_ids_distinct(users),
        has_user(users, id),
    ensures
        0 <= user_index(users, id) < users.len(),
        users[user_index(users, id)].id == id,
        forall|i: int| 0 <= i < users.len() && users[i].id == id ==> i == user_index(users, id),
{
    let u = user_index(users, id);
    assert(0 <= u < users.len() && users[u].id == id);
    assert forall|i: int| 0 <= i < users.len() && users[i].id == id implies i == u by {
        if i != u {
            if i < u {
                assert(users[i].id != users[u].id);
            } else {
                assert(users[u].id != users[i].id);
            }
        }
    }
}

pub proof fn lemma_fifo_index(fifos: Seq<FifoView>, id: Seq<char>)
    requires
        fifo_ids_distinct(fifos),
        has_fifo(fifos, id),
    ensures
        0 <= fifo_index(fifos, id) < fifos.len(),
        fifos[fifo_index(fifos, id)].id == id,
        forall|i: int| 0 <= i < fifos.len() && fifos[i].id == id ==> i == fifo_index(fifos, id),
{
    let u = fifo_index(fifos, id);
    assert(0 <= u < fifos.len() && fifos[u].id == id);
    assert forall|i: int| 0 <= i < fifos.len() && fifos[i].id == id implies i == u by {
        if i != u {
            if i < u {
                assert(fifos[i].id != fifos[u].id);
            } else {
                assert(fifos[u].id != fifos[i].id);
            }
        }
    }
}

/// What pruning keeps: only non-matching connections, all of them drawn from
/// the original list, with distinctness preserved; a list without the handle
/// is untouched.
pub proof fn lemma_remove_conns_props(cs: Seq<ConnView>, cid: Seq<char>)
    ensures
        remove_conns(cs, cid).len() <= cs.len(),
        forall|i: int|
            0 <= i < remove_conns(cs, cid).len() ==> (#[trigger] remove_conns(cs, cid)[i]).conn_id
                != cid && cs.contains(remove_conns(cs, cid)[i]),
        !has_conn_in(cs, cid) ==> remove_conns(cs, cid) == cs,
        conn_ids_distinct(cs) ==> conn_ids_distinct(remove_conns(cs, cid)),
        conn_ids_distinct(cs) && has_conn_in(cs, cid) ==> remove_conns(cs, cid).len() == cs.len()
            - 1,
    decreases cs.len(),
{
    let out = remove_conns(cs, cid);
    if cs.len() == 0 {
        assert(!has_conn_in(cs, cid));
    } else {
        let pre = cs.drop_last();
        let rest = remove_conns(pre, cid);
        lemma_remove_conns_props(pre, cid);
        assert(forall|i: int| 0 <= i < pre.len() ==> pre[i] == cs[i]);
        assert forall|i: int| 0 <= i < rest.len() implies cs.contains(rest[i]) by {
            assert(pre.contains(rest[i]));
            let j = choose|j: int| 0 <= j < pre.len() && pre[j] == rest[i];
            assert(cs[j] == rest[i]);
        }
        if conn_ids_distinct(cs) {
            assert(conn_ids_distinct(pre));
            if cs.last().conn_id != cid {
                // distinctness of rest.push(cs.last()): the last element's id
                // differs from every id in pre, hence from every id in rest
                assert forall|i: int, j: int|
                    0 <= i < j < out.len() implies out[i].conn_id != out[j].conn_id by {
                    if j == out.len() - 1 {
                        assert(out[j] == cs.last());
                        assert(pre.contains(rest[i]));
                        let k = choose|k: int| 0 <= k < pre.len() && pre[k] == rest[i];
                        assert(cs[k].conn_id != cs[cs.len() - 1].conn_id);
                    }
                }
            }
        }
        if !has_conn_in(cs, cid) {
            assert(!has_conn_in(pre, cid)) by {
                if has_conn_in(pre, cid) {
                    let k = choose|k: int| 0 <= k < pre.len() && pre[k].conn_id == cid;
                    assert(cs[k].conn_id == cid);
                }
            }
            assert(cs.last().conn_id != cid);
            assert(out =~= cs);
        }
        if conn_ids_distinct(cs) && has_conn_in(cs, cid) {
            if cs.last().conn_id == cid {
                assert(!has_conn_in(pre, cid)) by {
                    if has_conn_in(pre, cid) {
                        let k = choose|k: int| 0 <= k < pre.len() && pre[k].conn_id == cid;
                        assert(cs[k].conn_id != cs[cs.len() - 1].conn_id);
                    }
                }
            } else {
                assert(has_conn_in(pre, cid)) by {
                    let k = choose|k: int| 0 <= k < cs.len() && cs[k].conn_id == cid;
                    assert(k < cs.len() - 1);
                    assert(pre[k].conn_id == cid);
                }
            }
        }
    }
}

/// Unfolding pruning over a snoc.
pub proof fn lemma_remove_conns_push(cs: Seq<ConnView>, x: ConnView, cid: Seq<char>)
    ensures
        remove_conns(cs.push(x), cid) == (if x.conn_id == cid {
            remove_conns(cs, cid)
        } else {
            remove_conns(cs, cid).push(x)
        }),
{
    assert(cs.push(x).drop_last() =~= cs);
    assert(cs.push(x).last() == x);
}

pub proof fn lemma_remove_fifos_props(fifos: Seq<FifoView>, id: Seq<char>)
    ensures
        remove_fifos(fifos, id).len() <= fifos.len(),
        forall|i: int|
            0 <= i < remove_fifos(fifos, id).len() ==> (#[trigger] remove_fifos(fifos, id)[i]).id
                != id && fifos.contains(remove_fifos(fifos, id)[i]),
        !has_fifo(fifos, id) ==> remove_fifos(fifos, id) == fifos,
        fifo_ids_distinct(fifos) ==> fifo_ids_distinct(remove_fifos(fifos, id)),
    decreases fifos.len(),
{
    let out = remove_fifos(fifos, id);
    if fifos.len() == 0 {
        assert(!has_fifo(fifos, id));
    } else {
        let pre = fifos.drop_last();
        let rest = remove_fifos(pre, id);
        lemma_remove_fifos_props(pre, id);
        assert(forall|i: int| 0 <= i < pre.len() ==> pre[i] == fifos[i]);
        assert forall|i: int| 0 <= i < rest.len() implies fifos.contains(rest[i]) by {
            assert(pre.contains(rest[i]));
            let j = choose|j: int| 0 <= j < pre.len() && pre[j] == rest[i];
            assert(fifos[j] == rest[i]);
        }
        if fifo_ids_distinct(fifos) {
            assert(fifo_ids_distinct(pre));
            if fifos.last().id != id {
                assert forall|i: int, j: int|
                    0 <= i < j < out.len() implies out[i].id != out[j].id by {
                    if j == out.len() - 1 {
                        assert(out[j] == fifos.last());
                        assert(pre.contains(rest[i]));
                        let k = choose|k: int| 0 <= k < pre.len() && pre[k] == rest[i];
                        assert(fifos[k].id != fifos[fifos.len() - 1].id);
                    }
                }
            }
        }
        if !has_fifo(fifos, id) {
            assert(!has_fifo(pre, id)) by {
                if has_fifo(pre, id) {
                    let k = choose|k: int| 0 <= k < pre.len() && pre[k].id == id;
                    assert(fifos[k].id == id);
                }
            }
            assert(fifos.last().id != id);
            assert(out =~= fifos);
        }
    }
}

pub proof fn lemma_remove_fifos_push(fifos: Seq<FifoView>, x: FifoView, id: Seq<char>)
    ensures
        remove_fifos(fifos.push(x), id) == (if x.id == id {
            remove_fifos(fifos, id)
        } else {
            remove_fifos(fifos, id).push(x)
        }),
{
    assert(fifos.push(x).drop_last() =~= fifos);
    assert(fifos.push(x).last() == x);
}

pub proof fn lemma_remove_slots_push(slots: Seq<SlotView>, x: SlotView, sid: Seq<char>)
    ensures
        remove_slots(slots.push(x), sid) == (if x.slot_id == sid {
            remove_slots(slots, sid)
        } else {
            remove_slots(slots, sid).push(x)
        }),
{
    assert(slots.push(x).drop_last() =~= slots);
    assert(slots.push(x).last() == x);
}

// ---------------------------------------------------------------------------
// Registry operations
// ---------------------------------------------------------------------------

/// Whether `id` has a registered connection with handle `cid`.
pub open spec fn spec_has_conn(v: SingleView, id: Seq<char>, cid: Seq<char>) -> bool {
    has_user(v.users, id) && has_conn_in(v.users[user_index(v.users, id)].conns, cid)
}

/// A publish that found every connection of `id` dead: the identifier is
/// dropped, and its reply-slot FIFO with it.
pub open spec fn spec_drop_user(v: SingleView, id: Seq<char>) -> SingleView {
    let u = user_index(v.users, id);
    SingleView { users: v.users.remove(u), fifos: remove_fifos(v.fifos, id) }
}

/// A publish that pruned the first `k` connections of `id` as dead and
/// delivered `msg` to the one after them.
pub open spec fn spec_deliver_success(v: SingleView, id: Seq<char>, k: int, msg: MessageView) -> SingleView {
    let u = user_index(v.users, id);
    let cs = v.users[u].conns;
    let c = cs[k];
    let cs2 = cs.subrange(k, cs.len() as int).update(
        0,
        ConnView { conn_id: c.conn_id, sent: c.sent.push(msg) },
    );
    SingleView { users: v.users.update(u, UserView { id, conns: cs2 }), fifos: v.fifos }
}

/// A ping-pong publish queueing a reply slot at the back of the
/// identifier's FIFO, creating the FIFO if it does not exist yet.
pub open spec fn spec_push_slot(v: SingleView, id: Seq<char>, sid: Seq<char>) -> SingleView {
    let s = SlotView { slot_id: sid };
    if has_fifo(v.fifos, id) {
        let f = fifo_index(v.fifos, id);
        SingleView {
            users: v.users,
            fifos: v.fifos.update(f, FifoView { id, slots: v.fifos[f].slots.push(s) }),
        }
    } else {
        SingleView { users: v.users, fifos: v.fifos.push(FifoView { id, slots: seq![s] }) }
    }
}

/// A data frame consuming the slot at the front of the identifier's FIFO.
pub open spec fn spec_pop_slot(v: SingleView, id: Seq<char>) -> SingleView {
    let f = fifo_index(v.fifos, id);
    SingleView {
        users: v.users,
        fifos: v.fifos.update(f, FifoView { id, slots: v.fifos[f].slots.drop_first() }),
    }
}

/// A timed-out publish scanning the identifier's FIFO for its slot.
pub open spec fn spec_remove_slot(v: SingleView, id: Seq<char>, sid: Seq<char>) -> SingleView {
    if has_fifo(v.fifos, id) {
        let f = fifo_index(v.fifos, id);
        SingleView {
            users: v.users,
            fifos: v.fifos.update(f, FifoView { id, slots: remove_slots(v.fifos[f].slots, sid) }),
        }
    } else {
        v
    }
}

/// Whether a data frame from a subscriber of `id` has a slot to service.
pub open spec fn spec_pending(v: SingleView, id: Seq<char>) -> bool {
    has_fifo(v.fifos, id) && v.fifos[fifo_index(v.fifos, id)].slots.len() > 0
}

/// Dropping a dead identifier keeps the registry well-formed.
pub proof fn lemma_drop_user_preserves_inv(v: SingleView, id: Seq<char>)
    requires
        inv(v),
        has_user(v.users, id),
    ensures
        inv(spec_drop_user(v, id)),
{
    lemma_user_index(v.users, id);
    let u = user_index(v.users, id);
    let out = spec_drop_user(v, id);
    lemma_remove_fifos_props(v.fifos, id);
    assert forall|i: int| 0 <= i < out.fifos.len() implies has_user(
        out.users,
        (#[trigger] out.fifos[i]).id,
    ) by {
        assert(v.fifos.contains(out.fifos[i]));
        let fi = choose|fi: int| 0 <= fi < v.fifos.len() && v.fifos[fi] == out.fifos[i];
        assert(has_user(v.users, v.fifos[fi].id));
        let w = choose|w: int| 0 <= w < v.users.len() && v.users[w].id == v.fifos[fi].id;
        assert(w != u);
        if w < u {
            assert(out.users[w].id == out.fifos[i].id);
        } else {
            assert(out.users[w - 1].id == out.fifos[i].id);
        }
    }
}

/// A successful delivery keeps the registry well-formed.
pub proof fn lemma_deliver_preserves_inv(v: SingleView, id: Seq<char>, k: int, msg: MessageView)
    requires
        inv(v),
        has_user(v.users, id),
        0 <= k < v.users[user_index(v.users, id)].conns.len(),
    ensures
        inv(spec_deliver_success(v, id, k, msg)),
{
    lemma_user_index(v.users, id);
    let u = user_index(v.users, id);
    let cs = v.users[u].conns;
    let out = spec_deliver_success(v, id, k, msg);
    let cs2 = out.users[u].conns;
    assert(conn_ids_distinct(cs2)) by {
        assert forall|i: int, j: int|
            0 <= i < j < cs2.len() implies cs2[i].conn_id != cs2[j].conn_id by {
            assert(cs2[i].conn_id == cs[k + i].conn_id);
            assert(cs2[j].conn_id == cs[k + j].conn_id);
        }
    }
    assert forall|i: int| 0 <= i < out.fifos.len() implies has_user(
        out.users,
        (#[trigger] out.fifos[i]).id,
    ) by {
        assert(has_user(v.users, v.fifos[i].id));
        let w = choose|w: int| 0 <= w < v.users.len() && v.users[w].id == v.fifos[i].id;
        assert(out.users[w].id == v.fifos[i].id);
    }
}

/// Queueing a reply slot keeps the registry well-formed.
pub proof fn lemma_push_slot_preserves_inv(v: SingleView, id: Seq<char>, sid: Seq<char>)
    requires
        inv(v),
        has_user(v.users, id),
    ensures
        inv(spec_push_slot(v, id, sid)),
{
    let out = spec_push_slot(v, id, sid);
    if has_fifo(v.fifos, id) {
        lemma_fifo_index(v.fifos, id);
        assert forall|i: int| 0 <= i < out.fifos.len() implies has_user(
            out.users,
            (#[trigger] out.fifos[i]).id,
        ) by {
            if i == fifo_index(v.fifos, id) {
            } else {
                assert(out.fifos[i] == v.fifos[i]);
            }
        }
    }
}

/// Dropping a dead identifier erases the slot a failed ping-pong publish had
/// just queued: the FIFO goes away entirely either way.
pub proof fn lemma_drop_after_push_slot(v: SingleView, id: Seq<char>, sid: Seq<char>)
    requires
        inv(v),
        has_user(v.users, id),
    ensures
        spec_drop_user(spec_push_slot(v, id, sid), id) == spec_drop_user(v, id),
{
    let mid = spec_push_slot(v, id, sid);
    assert(mid.users == v.users);
    let a = spec_drop_user(mid, id);
    let b = spec_drop_user(v, id);
    assert(a.users == b.users);
    if has_fifo(v.fifos, id) {
        lemma_fifo_index(v.fifos, id);
        let f = fifo_index(v.fifos, id);
        lemma_remove_fifos_update_matching(v.fifos, f, FifoView { id, slots: v.fifos[f].slots.push(SlotView { slot_id: sid }) }, id);
    } else {
        lemma_remove_fifos_push(v.fifos, FifoView { id, slots: seq![SlotView { slot_id: sid }] }, id);
    }
    assert(a.fifos == b.fifos);
    assert(a =~= b);
}

/// Replacing an entry that pruning would discard anyway does not change what
/// pruning produces.
pub proof fn lemma_remove_fifos_update_matching(fifos: Seq<FifoView>, f: int, x: FifoView, id: Seq<char>)
    requires
        0 <= f < fifos.len(),
        fifos[f].id == id,
        x.id == id,
    ensures
        remove_fifos(fifos.update(f, x), id) == remove_fifos(fifos, id),
    decreases fifos.len(),
{
    let pre = fifos.drop_last();
    if f == fifos.len() - 1 {
        assert(fifos.update(f, x).drop_last() =~= pre);
    } else {
        assert(fifos.update(f, x).drop_last() =~= pre.update(f, x));
        assert(fifos.update(f, x).last() == fifos.last());
        lemma_remove_fifos_update_matching(pre, f, x, id);
    }
}

impl SingleRegistry {
    pub open spec fn wf(&self) -> bool {
        inv(self@)
    }

    /// An empty registry.
    pub fn new() -> (r: SingleRegistry)
        ensures
            r.wf(),
            r@.users == Seq::<UserView>::empty(),
            r@.fifos == Seq::<FifoView>::empty(),
    {
        let r = SingleRegistry { users: Vec::new(), fifos: Vec::new() };
        proof {
            assert(r@.users =~= Seq::<UserView>::empty());
            assert(r@.fifos =~= Seq::<FifoView>::empty());
        }
        r
    }

    fn find_user(&self, id: &str) -> (r: Option<usize>)
        ensures
            r matches Some(u) ==> u < self.users.len() && self@.users[u as int].id == id@,
            r is None ==> !has_user(self@.users, id@),
    {
        let mut i: usize = 0;
        let n = self.users.len();
        while i < n
            invariant
                i <= n,
                n == self.users.len(),
                forall|j: int| 0 <= j < i ==> (#[trigger] self@.users[j]).id != id@,
            decreases n - i,
        {
            if str_eq(self.users[i].id.as_str(), id) {
                return Some(i);
            }
            i = i + 1;
        }
        None
    }

    fn find_conn(cs: &Vec<SubscriberConn>, cid: &str) -> (r: Option<usize>)
        ensures
            r matches Some(j) ==> j < cs.len() && cs@.map_values(|c: SubscriberConn| c@)[j as int].conn_id
                == cid@,
            r is None ==> !has_conn_in(cs@.map_values(|c: SubscriberConn| c@), cid@),
    {
        let mut i: usize = 0;
        let n = cs.len();
        while i < n
            invariant
                i <= n,
                n == cs.len(),
                forall|j: int| 0 <= j < i ==> (#[trigger] cs@[j])@.conn_id != cid@,
            decreases n - i,
        {
            if str_eq(cs[i].conn_id.as_str(), cid) {
                return Some(i);
            }
            i = i + 1;
        }
        None
    }

    /// Drop the reply-slot FIFO (if any) registered for `id`.
    fn prune_fifo(&mut self, id: &str)
        ensures
            final(self)@.users == old(self)@.users,
            final(self)@.fifos == remove_fifos(old(self)@.fifos, id@),
    {
        let ghost f0 = old(self)@.fifos;
        let mut kept: Vec<SlotQueue> = Vec::new();
        proof {
            assert(kept@.map_values(|f: SlotQueue| f@) =~= remove_fifos(
                f0.subrange(0, 0),
                id@,
            ));
        }
        while self.fifos.len() > 0
            invariant
                self@.users == old(self)@.users,
                self.fifos@.len() <= f0.len(),
                self.fifos@.map_values(|f: SlotQueue| f@) =~= f0.subrange(
                    f0.len() - self.fifos@.len(),
                    f0.len() as int,
                ),
                kept@.map_values(|f: SlotQueue| f@) == remove_fifos(
                    f0.subrange(0, f0.len() - self.fifos@.len()),
                    id@,
                ),
            decreases self.fifos.len(),
        {
            let ghost k = f0.len() - self.fifos@.len();
            let f = self.fifos.remove(0);
            proof {
                assert(f@ == f0.subrange(k, f0.len() as int)[0]);
                assert(f@ == f0[k]);
                assert(self.fifos@.map_values(|f: SlotQueue| f@) =~= f0.subrange(
                    k + 1,
                    f0.len() as int,
                )) by {
                    assert forall|j: int| 0 <= j < self.fifos@.len() implies self.fifos@[j]@
                        == f0.subrange(k + 1, f0.len() as int)[j] by {
                        assert(self.fifos@[j]@ == f0.subrange(k, f0.len() as int)[j + 1]);
                    }
                }
                assert(f0.subrange(0, k + 1) =~= f0.subrange(0, k).push(f0[k]));
                lemma_remove_fifos_push(f0.subrange(0, k), f0[k], id@);
            }
            if !str_eq(f.id.as_str(), id) {
                let ghost kv = kept@.map_values(|f: SlotQueue| f@);
                kept.push(f);
                proof {
                    assert(kept@.map_values(|f: SlotQueue| f@) =~= kv.push(f0[k]));
                }
            }
        }
        proof {
            assert(f0.subrange(0, f0.len() as int) =~= f0);
        }
        self.fifos = kept;
    }

    /// Register a connection under `id`.
    ///
    /// Returns false, leaving the registry unchanged, if a connection with
    /// this handle is already registered for `id`; handles are expected to be
    /// unique for the lifetime of the live connection.
    pub fn user_connected(&mut self, id: String, conn_id: String, queue: OutboundQueue) -> (r: bool)
        requires
            old(self).wf(),
            id@.len() > 0,
        ensures
            final(self).wf(),
            r == !spec_has_conn(old(self)@, id@, conn_id@),
            r ==> final(self)@ == spec_connect(old(self)@, id@, conn_id@, queue@),
            !r ==> final(self)@ == old(self)@,
    {
        let ghost v0 = old(self)@;
        let ghost cnew = (ConnView { conn_id: conn_id@, sent: queue@ });
        match self.find_user(id.as_str()) {
            Some(u) => {
                proof {
                    lemma_user_index(v0.users, id@);
                    assert(u as int == user_index(v0.users, id@));
                }
                if Self::find_conn(&self.users[u].conns, conn_id.as_str()).is_some() {
                    return false;
                }
                let eref = &mut self.users[u];
                eref.conns.push(SubscriberConn { conn_id, queue });
                proof {
                    let vc = spec_connect(v0, id@, conn_id@, queue@);
                    assert(self@.users[u as int].conns =~= v0.users[u as int].conns.push(cnew));
                    assert(self@.users[u as int] =~= vc.users[u as int]);
                    assert(self@.users =~= vc.users);
                    assert(self@.fifos =~= vc.fifos);
                    assert(self@ =~= vc);
                    lemma_connect_preserves_inv(v0, id@, conn_id@, queue@);
                }
                true
            },
            None => {
                let mut cs: Vec<SubscriberConn> = Vec::new();
                cs.push(SubscriberConn { conn_id, queue });
                self.users.push(UserEntry { id, conns: cs });
                proof {
                    let vc = spec_connect(v0, id@, conn_id@, queue@);
                    assert(self@.users[v0.users.len() as int].conns =~= seq![cnew]);
                    assert(self@.users[v0.users.len() as int] =~= vc.users[v0.users.len() as int]);
                    assert(self@.users =~= vc.users);
                    assert(self@.fifos =~= vc.fifos);
                    assert(self@ =~= vc);
                    lemma_connect_preserves_inv(v0, id@, conn_id@, queue@);
                }
                true
            },
        }
    }

    /// Deregister a connection: the clean path taken when its reader exits,
    /// and the recovery path taken when a publish observes its queue closed.
    /// When the identifier's last connection goes, the identifier and its
    /// reply-slot FIFO go with it.
    pub fn user_disconnected(&mut self, id: &str, conn_id: &str)
        requires
            old(self).wf(),
        ensures
            final(self).wf(),
            final(self)@ == spec_disconnect(old(self)@, id@, conn_id@),
    {
        let ghost v0 = old(self)@;
        let u = match self.find_user(id) {
            Some(u) => u,
            None => {
                return;
            },
        };
        proof {
            lemma_user_index(v0.users, id@);
            assert(u as int == user_index(v0.users, id@));
        }
        let e = self.users.remove(u);
        let UserEntry { id: eid, conns: mut cs } = e;
        proof {
            assert(eid@ == v0.users[u as int].id);
        }
        let ghost cs0 = v0.users[u as int].conns;
        proof {
            assert(cs@.map_values(|c: SubscriberConn| c@) == cs0);
        }
        let mut kept: Vec<SubscriberConn> = Vec::new();
        proof {
            assert(kept@.map_values(|c: SubscriberConn| c@) =~= remove_conns(
                cs0.subrange(0, 0),
                conn_id@,
            ));
        }
        while cs.len() > 0
            invariant
                cs@.len() <= cs0.len(),
                cs@.map_values(|c: SubscriberConn| c@) =~= cs0.subrange(
                    cs0.len() - cs@.len(),
                    cs0.len() as int,
                ),
                kept@.map_values(|c: SubscriberConn| c@) == remove_conns(
                    cs0.subrange(0, cs0.len() - cs@.len()),
                    conn_id@,
                ),
            decreases cs.len(),
        {
            let ghost k = cs0.len() - cs@.len();
            let c = cs.remove(0);
            proof {
                assert(c@ == cs0.subrange(k, cs0.len() as int)[0]);
                assert(c@ == cs0[k]);
                assert(cs@.map_values(|c: SubscriberConn| c@) =~= cs0.subrange(
                    k + 1,
                    cs0.len() as int,
                )) by {
                    assert forall|j: int| 0 <= j < cs@.len() implies cs@[j]@ == cs0.subrange(
                        k + 1,
                        cs0.len() as int,
                    )[j] by {
                        assert(cs@[j]@ == cs0.subrange(k, cs0.len() as int)[j + 1]);
                    }
                }
                assert(cs0.subrange(0, k + 1) =~= cs0.subrange(0, k).push(cs0[k]));
                lemma_remove_conns_push(cs0.subrange(0, k), cs0[k], conn_id@);
            }
            if !str_eq(c.conn_id.as_str(), conn_id) {
                let ghost kv = kept@.map_values(|c: SubscriberConn| c@);
                kept.push(c);
                proof {
                    assert(kept@.map_values(|c: SubscriberConn| c@) =~= kv.push(cs0[k]));
                }
            }
        }
        proof {
            assert(cs0.subrange(0, cs0.len() as int) =~= cs0);
            assert(kept@.map_values(|c: SubscriberConn| c@) == remove_conns(cs0, conn_id@));
        }
        if kept.len() == 0 {
            self.prune_fifo(id);
            proof {
                let vd = spec_disconnect(v0, id@, conn_id@);
                assert(remove_conns(v0.users[u as int].conns, conn_id@).len() == 0);
                assert(self@.users =~= vd.users);
                assert(self@ =~= vd);
                lemma_disconnect_preserves_inv(v0, id@, conn_id@);
            }
        } else {
            self.users.insert(u, UserEntry { id: eid, conns: kept });
            proof {
                let vd = spec_disconnect(v0, id@, conn_id@);
                assert(remove_conns(v0.users[u as int].conns, conn_id@).len() > 0);
                assert(self@.users[u as int] =~= vd.users[u as int]);
                assert(self@.users =~= vd.users);
                assert(self@.fifos =~= vd.fifos);
                assert(self@ =~= vd);
                lemma_disconnect_preserves_inv(v0, id@, conn_id@);
            }
        }
    }

    /// The number of live connections currently registered for `id`.
    pub fn connections(&self, id: &str) -> (n: usize)
        requires
            self.wf(),
        ensures
            n == spec_count(self@, id@),
    {
        match self.find_user(id) {
            Some(u) => {
                proof {
                    lemma_user_index(self@.users, id@);
                }
                self.users[u].conns.len()
            },
            None => 0,
        }
    }

    /// Whether any connection is registered for `id`.
    pub fn contains_id(&self, id: &str) -> (r: bool)
        ensures
            r == has_user(self@.users, id@),
    {
        self.find_user(id).is_some()
    }

    /// Whether a reply-slot FIFO is registered for `id`.
    pub fn has_reply_fifo(&self, id: &str) -> (r: bool)
        ensures
            r == has_fifo(self@.fifos, id@),
    {
        self.find_fifo(id).is_some()
    }

    /// The number of reply slots pending for `id`.
    pub fn pending_replies(&self, id: &str) -> (n: usize)
        requires
            self.wf(),
        ensures
            n == spec_slots(self@, id@).len(),
    {
        match self.find_fifo(id) {
            Some(f) => {
                proof {
                    lemma_fifo_index(self@.fifos, id@);
                }
                self.fifos[f].slots.len()
            },
            None => 0,
        }
    }

    fn find_fifo(&self, id: &str) -> (r: Option<usize>)
        ensures
            r matches Some(f) ==> f < self.fifos.len() && self@.fifos[f as int].id == id@,
            r is None ==> !has_fifo(self@.fifos, id@),
    {
        let mut i: usize = 0;
        let n = self.fifos.len();
        while i < n
            invariant
                i <= n,
                n == self.fifos.len(),
                forall|j: int| 0 <= j < i ==> (#[trigger] self@.fifos[j]).id != id@,
            decreases n - i,
        {
            if str_eq(self.fifos[i].id.as_str(), id) {
                return Some(i);
            }
            i = i + 1;
        }
        None
    }

    /// Queue a reply slot at the back of the identifier's FIFO.
    fn push_slot(&mut self, id: &str, slot_id: String, sender: ReplySender)
        requires
            old(self).wf(),
            has_user(old(self)@.users, id@),
        ensures
            final(self).wf(),
            final(self)@ == spec_push_slot(old(self)@, id@, slot_id@),
    {
        let ghost v0 = old(self)@;
        let ghost snew = (SlotView { slot_id: slot_id@ });
        match self.find_fifo(id) {
            Some(f) => {
                proof {
                    lemma_fifo_index(v0.fifos, id@);
                    assert(f as int == fifo_index(v0.fifos, id@));
                }
                let fref = &mut self.fifos[f];
                fref.slots.push(ReplySlot { slot_id, sender });
                proof {
                    let vp = spec_push_slot(v0, id@, slot_id@);
                    assert(self@.fifos[f as int].slots =~= v0.fifos[f as int].slots.push(snew));
                    assert(self@.fifos[f as int] =~= vp.fifos[f as int]);
                    assert(self@.fifos =~= vp.fifos);
                    assert(self@ =~= vp);
                    lemma_push_slot_preserves_inv(v0, id@, slot_id@);
                }
            },
            None => {
                let mut ss: Vec<ReplySlot> = Vec::new();
                ss.push(ReplySlot { slot_id, sender });
                self.fifos.push(SlotQueue { id: id.to_owned(), slots: ss });
                proof {
                    let vp = spec_push_slot(v0, id@, slot_id@);
                    assert(self@.fifos[v0.fifos.len() as int].slots =~= seq![snew]);
                    assert(self@.fifos[v0.fifos.len() as int] =~= vp.fifos[v0.fifos.len() as int]);
                    assert(self@.fifos =~= vp.fifos);
                    assert(self@ =~= vp);
                    lemma_push_slot_preserves_inv(v0, id@, slot_id@);
                }
            },
        }
    }

    /// Unicast `msg` to the first live connection of `id`, pruning the dead
    /// connections tried before it; when every connection turns out dead the
    /// identifier is dropped together with its reply-slot FIFO.
    fn try_deliver(&mut self, id: &str, u: usize, msg: &Message) -> (ok: bool)
        requires
            old(self).wf(),
            u < old(self)@.users.len(),
            old(self)@.users[u as int].id == id@,
        ensures
            final(self).wf(),
            ok ==> exists|k: int|
                0 <= k < old(self)@.users[u as int].conns.len() && final(self)@
                    == spec_deliver_success(old(self)@, id@, k, msg@),
            !ok ==> final(self)@ == spec_drop_user(old(self)@, id@),
    {
        let ghost v0 = old(self)@;
        proof {
            lemma_user_index(v0.users, id@);
            assert(u as int == user_index(v0.users, id@));
        }
        let e = self.users.remove(u);
        let UserEntry { id: eid, conns: mut cs } = e;
        proof {
            assert(eid@ == v0.users[u as int].id);
        }
        let ghost cs0 = v0.users[u as int].conns;
        proof {
            assert(cs@.map_values(|c: SubscriberConn| c@) == cs0);
        }
        while cs.len() > 0
            invariant
                old(self).wf(),
                u < v0.users.len(),
                u as int == user_index(v0.users, id@),
                v0 == old(self)@,
                v0.users[u as int].id == id@,
                cs0 == v0.users[u as int].conns,
                eid@ == id@,
                cs@.len() <= cs0.len(),
                cs@.map_values(|c: SubscriberConn| c@) =~= cs0.subrange(
                    cs0.len() - cs@.len(),
                    cs0.len() as int,
                ),
                self@.users =~= v0.users.remove(u as int),
                self@.fifos == v0.fifos,
            decreases cs.len(),
        {
            let ghost k = cs0.len() - cs@.len();
            let mut c = cs.remove(0);
            proof {
                assert(c@ == cs0.subrange(k, cs0.len() as int)[0]);
                assert(c@ == cs0[k]);
                assert(cs@.map_values(|c: SubscriberConn| c@) =~= cs0.subrange(
                    k + 1,
                    cs0.len() as int,
                )) by {
                    assert forall|j: int| 0 <= j < cs@.len() implies cs@[j]@ == cs0.subrange(
                        k + 1,
                        cs0.len() as int,
                    )[j] by {
                        assert(cs@[j]@ == cs0.subrange(k, cs0.len() as int)[j + 1]);
                    }
                }
            }
            let sent = c.queue.enqueue(msg.duplicate());
            if sent {
                proof {
                    assert(c@ == (ConnView {
                        conn_id: cs0[k].conn_id,
                        sent: cs0[k].sent.push(msg@),
                    }));
                }
                cs.insert(0, c);
                proof {
                    assert(cs@.map_values(|c: SubscriberConn| c@) =~= cs0.subrange(
                        k,
                        cs0.len() as int,
                    ).update(
                        0,
                        ConnView { conn_id: cs0[k].conn_id, sent: cs0[k].sent.push(msg@) },
                    )) by {
                        assert forall|j: int|
                            1 <= j < cs@.len() implies cs@[j]@ == cs0.subrange(
                            k,
                            cs0.len() as int,
                        )[j] by {
                            assert(cs@[j]@ == cs0.subrange(k + 1, cs0.len() as int)[j - 1]);
                        }
                    }
                }
                proof {
                    assert(self@.users.len() == v0.users.remove(u as int).len());
                    assert(self.users@.len() == self@.users.len());
                }
                self.users.insert(u, UserEntry { id: eid, conns: cs });
                proof {
                    let vd = spec_deliver_success(v0, id@, k, msg@);
                    assert(v0.users[u as int].id == id@);
                    assert(has_user(v0.users, id@));
                    let prev = v0.users.remove(u as int);
                    assert forall|i: int|
                        0 <= i < self@.users.len() implies self@.users[i] == vd.users[i] by {
                        if i == u as int {
                            assert(self@.users[i] =~= vd.users[i]);
                        } else if i < u as int {
                            assert(self@.users[i] == prev[i]);
                            assert(prev[i] == v0.users[i]);
                            assert(vd.users[i] == v0.users[i]);
                        } else {
                            assert(self@.users[i] == prev[i - 1]);
                            assert(prev[i - 1] == v0.users[i]);
                            assert(vd.users[i] == v0.users[i]);
                        }
                    }
                    assert(self@.users =~= vd.users);
                    assert(self@ =~= vd);
                    lemma_deliver_preserves_inv(v0, id@, k, msg@);
                }
                return true;
            }
            // the queue is closed: this connection is dead, leave it out
        }
        self.prune_fifo(id);
        proof {
            let vd = spec_drop_user(v0, id@);
            assert(self@.users =~= vd.users);
            assert(self@ =~= vd);
            lemma_drop_user_preserves_inv(v0, id@);
        }
        false
    }

    /// Handle one publish request addressed to `id`.
    ///
    /// The body is encoded according to its content type; in `Shot` mode the
    /// frame is unicast to one live connection, in `PingPong` mode a reply
    /// slot is queued first and the caller is handed the slot id to await
    /// `reply`'s receiving half on.  Dead connections discovered on the way
    /// are pruned, and an identifier left without connections is dropped
    /// together with its reply-slot FIFO.
    pub fn publish_message(&mut self, id: &str, mode: Mode, content_type: &str, body: Vec<u8>, reply: ReplySender) -> (r: PublishOutcome)
        requires
            old(self).wf(),
        ensures
            final(self).wf(),
            spec_publish(old(self)@, final(self)@, id@, mode, content_type@, body@, r),
    {
        let ghost v0 = old(self)@;
        if id.is_empty() {
            return PublishOutcome::EmptyId;
        }
        let u = match self.find_user(id) {
            Some(u) => u,
            None => {
                return PublishOutcome::NotFound;
            },
        };
        proof {
            lemma_user_index(v0.users, id@);
            assert(u as int == user_index(v0.users, id@));
        }
        let msg = match encode_body(content_type, body) {
            Ok(m) => m,
            Err(_) => {
                return PublishOutcome::InvalidUtf8;
            },
        };
        match mode {
            Mode::Shot => {
                let ok = self.try_deliver(id, u, &msg);
                let r = if ok {
                    PublishOutcome::Delivered
                } else {
                    PublishOutcome::NotFound
                };
                proof {
                    if ok {
                        let k = choose|k: int|
                            0 <= k < v0.users[u as int].conns.len() && self@
                                == spec_deliver_success(v0, id@, k, msg@);
                        assert(0 <= k < v0.users[user_index(v0.users, id@)].conns.len() && self@
                            == spec_deliver_success(v0, id@, k, msg@));
                    }
                    assert(spec_publish(v0, self@, id@, mode, content_type@, body@, r));
                }
                r
            },
            Mode::PingPong => {
                let slot_id = generate_slot_id();
                let ghost sidv = slot_id@;
                self.push_slot(id, slot_id.clone(), reply);
                let ghost v1 = self@;
                proof {
                    assert(v1 == spec_push_slot(v0, id@, sidv));
                    assert(v1.users == v0.users);
                }
                let ok = self.try_deliver(id, u, &msg);
                let r = if ok {
                    PublishOutcome::AwaitingReply(slot_id)
                } else {
                    PublishOutcome::NotFound
                };
                proof {
                    if ok {
                        assert(r matches PublishOutcome::AwaitingReply(sid) && sid@ == sidv);
                        let k = choose|k: int|
                            0 <= k < v1.users[u as int].conns.len() && self@
                                == spec_deliver_success(v1, id@, k, msg@);
                        assert(0 <= k < v0.users[user_index(v0.users, id@)].conns.len() && self@
                            == spec_deliver_success(spec_push_slot(v0, id@, sidv), id@, k, msg@));
                    } else {
                        lemma_drop_after_push_slot(v0, id@, sidv);
                    }
                    assert(spec_publish(v0, self@, id@, mode, content_type@, body@, r));
                }
                r
            },
        }
    }

    /// Handle one inbound frame from a subscriber of `id`.
    ///
    /// A data frame (text or binary) services the slot at the front of the
    /// identifier's reply-slot FIFO, delivering the frame's payload through
    /// it, and reports the serviced slot's id; with no waiting slot the frame
    /// is dropped.  Ping, pong and close frames carry no reply.
    pub fn single_on_frame(&mut self, id: &str, frame: InboundFrame) -> (r: Option<String>)
        requires
            old(self).wf(),
        ensures
            final(self).wf(),
            !frame.is_data() ==> final(self)@ == old(self)@ && r is None,
            frame.is_data() && !spec_pending(old(self)@, id@) ==> final(self)@ == old(self)@ && r
                is None,
            frame.is_data() && spec_pending(old(self)@, id@) ==> final(self)@ == spec_pop_slot(
                old(self)@,
                id@,
            ) && (r matches Some(sid) && sid@ == old(self)@.fifos[fifo_index(
                old(self)@.fifos,
                id@,
            )].slots[0].slot_id),
    {
        match frame {
            InboundFrame::Text(payload) => self.service_reply(id, payload),
            InboundFrame::Binary(payload) => self.service_reply(id, payload),
            InboundFrame::Ping(_) => None,
            InboundFrame::Pong(_) => None,
            InboundFrame::Close => None,
        }
    }

    /// Pop the slot at the front of the identifier's FIFO and deliver
    /// `payload` through it.
    fn service_reply(&mut self, id: &str, payload: Vec<u8>) -> (r: Option<String>)
        requires
            old(self).wf(),
        ensures
            final(self).wf(),
            !spec_pending(old(self)@, id@) ==> final(self)@ == old(self)@ && r is None,
            spec_pending(old(self)@, id@) ==> final(self)@ == spec_pop_slot(old(self)@, id@) && (r
                matches Some(sid) && sid@ == old(self)@.fifos[fifo_index(
                old(self)@.fifos,
                id@,
            )].slots[0].slot_id),
    {
        let ghost v0 = old(self)@;
        let f = match self.find_fifo(id) {
            Some(f) => f,
            None => {
                return None;
            },
        };
        proof {
            lemma_fifo_index(v0.fifos, id@);
            assert(f as int == fifo_index(v0.fifos, id@));
        }
        if self.fifos[f].slots.len() == 0 {
            return None;
        }
        let fref = &mut self.fifos[f];
        let slot = fref.slots.remove(0);
        proof {
            assert(slot@ == v0.fifos[f as int].slots[0]);
        }
        let ReplySlot { slot_id, sender } = slot;
        let _delivered = sender.deliver(payload);
        proof {
            let vp = spec_pop_slot(v0, id@);
            assert(self@.fifos[f as int].slots =~= v0.fifos[f as int].slots.drop_first());
            assert(self@.fifos[f as int] =~= vp.fifos[f as int]);
            assert(self@.fifos =~= vp.fifos);
            assert(self@ =~= vp);
        }
        Some(slot_id)
    }

    /// Remove every slot with id `slot_id` from the identifier's FIFO: the
    /// cleanup a publish performs when its reply wait times out.  Removing a
    /// slot that is already gone is a no-op.
    pub fn remove_slot(&mut self, id: &str, slot_id: &str)
        requires
            old(self).wf(),
        ensures
            final(self).wf(),
            final(self)@ == spec_remove_slot(old(self)@, id@, slot_id@),
    {
        let ghost v0 = old(self)@;
        let f = match self.find_fifo(id) {
            Some(f) => f,
            None => {
                return;
            },
        };
        proof {
            lemma_fifo_index(v0.fifos, id@);
            assert(f as int == fifo_index(v0.fifos, id@));
        }
        let q = self.fifos.remove(f);
        let SlotQueue { id: qid, slots: mut ss } = q;
        proof {
            assert(qid@ == v0.fifos[f as int].id);
        }
        let ghost ss0 = v0.fifos[f as int].slots;
        proof {
            assert(ss@.map_values(|s: ReplySlot| s@) == ss0);
        }
        let mut kept: Vec<ReplySlot> = Vec::new();
        proof {
            assert(kept@.map_values(|s: ReplySlot| s@) =~= remove_slots(
                ss0.subrange(0, 0),
                slot_id@,
            ));
        }
        while ss.len() > 0
            invariant
                ss@.len() <= ss0.len(),
                ss@.map_values(|s: ReplySlot| s@) =~= ss0.subrange(
                    ss0.len() - ss@.len(),
                    ss0.len() as int,
                ),
                kept@.map_values(|s: ReplySlot| s@) == remove_slots(
                    ss0.subrange(0, ss0.len() - ss@.len()),
                    slot_id@,
                ),
            decreases ss.len(),
        {
            let ghost k = ss0.len() - ss@.len();
            let s = ss.remove(0);
            proof {
                assert(s@ == ss0.subrange(k, ss0.len() as int)[0]);
                assert(s@ == ss0[k]);
                assert(ss@.map_values(|s: ReplySlot| s@) =~= ss0.subrange(
                    k + 1,
                    ss0.len() as int,
                )) by {
                    assert forall|j: int| 0 <= j < ss@.len() implies ss@[j]@ == ss0.subrange(
                        k + 1,
                        ss0.len() as int,
                    )[j] by {
                        assert(ss@[j]@ == ss0.subrange(k, ss0.len() as int)[j + 1]);
                    }
                }
                assert(ss0.subrange(0, k + 1) =~= ss0.subrange(0, k).push(ss0[k]));
                lemma_remove_slots_push(ss0.subrange(0, k), ss0[k], slot_id@);
            }
            if !str_eq(s.slot_id.as_str(), slot_id) {
                let ghost kv = kept@.map_values(|s: ReplySlot| s@);
                kept.push(s);
                proof {
                    assert(kept@.map_values(|s: ReplySlot| s@) =~= kv.push(ss0[k]));
                }
            }
        }
        proof {
            assert(ss0.subrange(0, ss0.len() as int) =~= ss0);
        }
        self.fifos.insert(f, SlotQueue { id: qid, slots: kept });
        proof {
            let vr = spec_remove_slot(v0, id@, slot_id@);
            assert(self@.fifos[f as int] =~= vr.fifos[f as int]);
            assert(self@.fifos =~= vr.fifos);
            assert(self@ =~= vr);
        }
    }

    /// One heartbeat tick for a connection: enqueue a ping frame with an
    /// empty payload.  Reports false, leaving the registry unchanged, when
    /// the connection is gone or its queue is closed; the heartbeat task
    /// then terminates and leaves the cleanup to the reader's exit.
    pub fn heartbeat_tick(&mut self, id: &str, conn_id: &str) -> (ok: bool)
        requires
            old(self).wf(),
        ensures
            final(self).wf(),
            ok ==> spec_has_conn(old(self)@, id@, conn_id@) && final(self)@ == spec_ping_conn(
                old(self)@,
                id@,
                conn_id@,
            ),
            !ok ==> final(self)@ == old(self)@,
    {
        let ghost v0 = old(self)@;
        let u = match self.find_user(id) {
            Some(u) => u,
            None => {
                return false;
            },
        };
        proof {
            lemma_user_index(v0.users, id@);
            assert(u as int == user_index(v0.users, id@));
        }
        let j = match Self::find_conn(&self.users[u].conns, conn_id) {
            Some(j) => j,
            None => {
                return false;
            },
        };
        let ghost cs = v0.users[u as int].conns;
        proof {
            lemma_conn_index(cs, conn_id@);
            assert(j as int == conn_index(cs, conn_id@));
        }
        let eref = &mut self.users[u];
        let cref = &mut eref.conns[j];
        let sent = cref.queue.enqueue(Message::Ping(Vec::new()));
        proof {
            if sent {
                let vp = spec_ping_conn(v0, id@, conn_id@);
                assert(self@.users[u as int].conns =~= vp.users[u as int].conns) by {
                    assert(self@.users[u as int].conns[j as int].sent =~= cs[j as int].sent.push(
                        MessageView::Ping(Seq::empty()),
                    ));
                    assert(self@.users[u as int].conns[j as int] =~= vp.users[u as int].conns[j as int]);
                }
                assert(self@.users[u as int] =~= vp.users[u as int]);
                assert(self@.users =~= vp.users);
                assert(self@ =~= vp);
                lemma_ping_preserves_inv(v0, id@, conn_id@);
            } else {
                assert(self@.users[u as int].conns =~= v0.users[u as int].conns);
                assert(self@.users[u as int] =~= v0.users[u as int]);
                assert(self@.users =~= v0.users);
                assert(self@ =~= v0);
            }
        }
        sent
    }
}

/// A fresh opaque slot id.
///
/// Relies on `nanoid::format` with the crate's default RNG and URL-safe
/// alphabet: a random identifier of exactly 21 characters.
#[verifier::external_body]
fn generate_slot_id() -> (r: String)
    ensures
        r@.len() == 21,
{
    nanoid::format(nanoid::rngs::default, &nanoid::alphabet::SAFE, 21)
}

/// What `publish_message` promises: how each outcome relates the registry
/// after the call (`v1`) to the registry before it (`v0`).
///
/// - An empty `id` is rejected (`EmptyId`), an unknown one reported
///   (`NotFound`), and a textual body that is not UTF-8 rejected
///   (`InvalidUtf8`), each leaving the registry unchanged.
/// - A shot either delivers the encoded message to one live connection,
///   pruning the dead ones tried before it (`Delivered`), or exhausts them
///   all and drops the identifier (`NotFound`).
/// - A ping-pong does the same after queueing a reply slot; on success the
///   outcome carries the slot's id, on failure the identifier goes away, the
///   just-queued slot with it.
pub open spec fn spec_publish(
    v0: SingleView,
    v1: SingleView,
    id: Seq<char>,
    mode: Mode,
    ct: Seq<char>,
    body: Seq<u8>,
    r: PublishOutcome,
) -> bool {
    &&& (id.len() == 0 ==> r is EmptyId && v1 == v0)
    &&& (id.len() > 0 && !has_user(v0.users, id) ==> r is NotFound && v1 == v0)
    &&& (id.len() > 0 && has_user(v0.users, id) ==> (match spec_encode(ct, body) {
        None => r is InvalidUtf8 && v1 == v0,
        Some(m) => (match mode {
            Mode::Shot => {
                &&& (r is Delivered || r is NotFound)
                &&& (r is Delivered ==> exists|k: int|
                    0 <= k < v0.users[user_index(v0.users, id)].conns.len() && v1
                        == spec_deliver_success(v0, id, k, m))
                &&& (r is NotFound ==> v1 == spec_drop_user(v0, id))
            },
            Mode::PingPong => {
                &&& (r is AwaitingReply || r is NotFound)
                &&& (r matches PublishOutcome::AwaitingReply(sid) ==> exists|k: int|
                    0 <= k < v0.users[user_index(v0.users, id)].conns.len() && v1
                        == spec_deliver_success(spec_push_slot(v0, id, sid@), id, k, m))
                &&& (r is NotFound ==> v1 == spec_drop_user(v0, id))
            },
        }),
    }))
}

/// How one publish request was resolved at dispatch time.
pub enum PublishOutcome {
    /// The `id` query parameter was missing or empty.
    EmptyId,
    /// No live subscriber: the identifier was unknown, or every one of its
    /// connections turned out dead.
    NotFound,
    /// The content type asked for text but the body is not valid UTF-8.
    InvalidUtf8,
    /// Shot mode: the message was enqueued to one live connection.
    Delivered,
    /// Ping-pong mode: the message was enqueued and a reply slot with this id
    /// awaits the subscriber's next data frame.
    AwaitingReply(String),
}

/// What a ping-pong publisher's bounded wait on its reply channel observed.
pub enum ReplyAwaited {
    /// The subscriber answered with these bytes.
    Reply(Vec<u8>),
    /// The reply channel was closed without an answer: the subscriber
    /// disconnected while the publisher waited.
    ChannelClosed,
    /// No answer within the bound.
    TimedOut,
}

/// The HTTP status a ping-pong wait resolves to.
pub open spec fn spec_reply_status(r: ReplyAwaited) -> u16 {
    match r {
        ReplyAwaited::Reply(_) => 200,
        ReplyAwaited::ChannelClosed => 204,
        ReplyAwaited::TimedOut => 408,
    }
}

/// Map what the reply wait observed to its HTTP status: a reply gives 200, a
/// closed channel 204 (no content), a timeout 408.  Exactly one of the three
/// applies to any wait.
pub fn reply_status(r: &ReplyAwaited) -> (code: u16)
    ensures
        code == spec_reply_status(*r),
{
    match r {
        ReplyAwaited::Reply(_) => 200,
        ReplyAwaited::ChannelClosed => 204,
        ReplyAwaited::TimedOut => 408,
    }
}

/// The index of the connection with handle `cid`; meaningful only when
/// `has_conn_in` holds and handles are distinct.
pub open spec fn conn_index(cs: Seq<ConnView>, cid: Seq<char>) -> int {
    choose|i: int| 0 <= i < cs.len() && cs[i].conn_id == cid
}

pub proof fn lemma_conn_index(cs: Seq<ConnView>, cid: Seq<char>)
    requires
        conn_ids_distinct(cs),
        has_conn_in(cs, cid),
    ensures
        0 <= conn_index(cs, cid) < cs.len(),
        cs[conn_index(cs, cid)].conn_id == cid,
        forall|i: int| 0 <= i < cs.len() && cs[i].conn_id == cid ==> i == conn_index(cs, cid),
{
    let u = conn_index(cs, cid);
    assert(0 <= u < cs.len() && cs[u].conn_id == cid);
    assert forall|i: int| 0 <= i < cs.len() && cs[i].conn_id == cid implies i == u by {
        if i != u {
            if i < u {
                assert(cs[i].conn_id != cs[u].conn_id);
            } else {
                assert(cs[u].conn_id != cs[i].conn_id);
            }
        }
    }
}

/// A heartbeat ping appended to one connection's queue.
pub open spec fn spec_ping_conn(v: SingleView, id: Seq<char>, cid: Seq<char>) -> SingleView {
    let u = user_index(v.users, id);
    let cs = v.users[u].conns;
    let j = conn_index(cs, cid);
    let c2 = ConnView { conn_id: cs[j].conn_id, sent: cs[j].sent.push(MessageView::Ping(Seq::empty())) };
    SingleView {
        users: v.users.update(u, UserView { id: v.users[u].id, conns: cs.update(j, c2) }),
        fifos: v.fifos,
    }
}

// ---------------------------------------------------------------------------
// Laws
// ---------------------------------------------------------------------------

/// The reply slots pending for `id`, oldest first.
pub open spec fn spec_slots(v: SingleView, id: Seq<char>) -> Seq<SlotView> {
    if has_fifo(v.fifos, id) {
        v.fifos[fifo_index(v.fifos, id)].slots
    } else {
        Seq::empty()
    }
}

/// A disconnect decrements the identifier's connection count exactly once,
/// and no entry for that connection remains.
pub proof fn lemma_disconnect_decrements(v: SingleView, id: Seq<char>, cid: Seq<char>)
    requires
        inv(v),
        spec_has_conn(v, id, cid),
    ensures
        spec_count(spec_disconnect(v, id, cid), id) == spec_count(v, id) - 1,
        !spec_has_conn(spec_disconnect(v, id, cid), id, cid),
{
    lemma_user_index(v.users, id);
    let u = user_index(v.users, id);
    let cs = v.users[u].conns;
    lemma_remove_conns_props(cs, cid);
    lemma_disconnect_preserves_inv(v, id, cid);
    let out = spec_disconnect(v, id, cid);
    let cs2 = remove_conns(cs, cid);
    if cs2.len() == 0 {
        assert(!has_user(out.users, id)) by {
            if has_user(out.users, id) {
                let w = choose|w: int| 0 <= w < out.users.len() && out.users[w].id == id;
                if w < u {
                    assert(v.users[w].id == id);
                    assert(w == u);
                } else {
                    assert(v.users[w + 1].id == id);
                    assert(w + 1 == u);
                }
            }
        }
        assert(spec_count(out, id) == 0);
    } else {
        assert(out.users[u].id == id);
        assert(has_user(out.users, id));
        lemma_user_index(out.users, id);
        assert(user_index(out.users, id) == u);
        assert(spec_count(out, id) == cs2.len());
        assert(!has_conn_in(cs2, cid)) by {
            if has_conn_in(cs2, cid) {
                let j = choose|j: int| 0 <= j < cs2.len() && cs2[j].conn_id == cid;
                assert(cs2[j].conn_id != cid);
            }
        }
    }
}

/// Reply correlation is by wire order: queueing a slot appends it at the
/// back of the identifier's FIFO, and a data frame consumes exactly the slot
/// at the front.
pub proof fn lemma_reply_fifo_order(v: SingleView, id: Seq<char>, sid: Seq<char>)
    requires
        inv(v),
        has_user(v.users, id),
    ensures
        spec_slots(spec_push_slot(v, id, sid), id) == spec_slots(v, id).push(
            SlotView { slot_id: sid },
        ),
        spec_pending(v, id) ==> spec_slots(spec_pop_slot(v, id), id) == spec_slots(
            v,
            id,
        ).drop_first(),
{
    lemma_push_slot_preserves_inv(v, id, sid);
    let vp = spec_push_slot(v, id, sid);
    if has_fifo(v.fifos, id) {
        lemma_fifo_index(v.fifos, id);
        let f = fifo_index(v.fifos, id);
        assert(vp.fifos[f].id == id);
        assert(has_fifo(vp.fifos, id));
        lemma_fifo_index(vp.fifos, id);
        assert(fifo_index(vp.fifos, id) == f);
        if spec_pending(v, id) {
            let vq = spec_pop_slot(v, id);
            assert(vq.fifos[f].id == id);
            assert(has_fifo(vq.fifos, id));
            assert(fifo_ids_distinct(vq.fifos)) by {
                assert forall|i: int, j: int|
                    0 <= i < j < vq.fifos.len() implies vq.fifos[i].id != vq.fifos[j].id by {
                    assert(vq.fifos[i].id == v.fifos[i].id);
                    assert(vq.fifos[j].id == v.fifos[j].id);
                }
            }
            lemma_fifo_index(vq.fifos, id);
            assert(fifo_index(vq.fifos, id) == f);
        }
    } else {
        let n = v.fifos.len();
        assert(vp.fifos[n as int].id == id);
        assert(has_fifo(vp.fifos, id));
        assert(fifo_ids_distinct(vp.fifos)) by {
            assert forall|i: int, j: int|
                0 <= i < j < vp.fifos.len() implies vp.fifos[i].id != vp.fifos[j].id by {
                if j < n as int {
                    assert(vp.fifos[i].id == v.fifos[i].id);
                    assert(vp.fifos[j].id == v.fifos[j].id);
                } else {
                    assert(vp.fifos[i].id == v.fifos[i].id);
                    assert(!has_fifo(v.fifos, id));
                    assert(v.fifos[i].id != id);
                }
            }
        }
        lemma_fifo_index(vp.fifos, id);
        assert(fifo_index(vp.fifos, id) == n as int);
        assert(spec_slots(vp, id) =~= spec_slots(v, id).push(SlotView { slot_id: sid }));
    }
}

/// Two slots queued into an empty FIFO are serviced in push order: the first
/// data frame consumes the first, the next frame the second.
pub proof fn lemma_two_replies_in_push_order(v: SingleView, id: Seq<char>, sid1: Seq<char>, sid2: Seq<char>)
    requires
        inv(v),
        has_user(v.users, id),
        spec_slots(v, id).len() == 0,
    ensures
        ({
            let vq = spec_push_slot(spec_push_slot(v, id, sid1), id, sid2);
            &&& spec_slots(vq, id)[0].slot_id == sid1
            &&& spec_slots(spec_pop_slot(vq, id), id)[0].slot_id == sid2
        }),
{
    lemma_reply_fifo_order(v, id, sid1);
    let v1 = spec_push_slot(v, id, sid1);
    lemma_push_slot_preserves_inv(v, id, sid1);
    assert(v1.users == v.users);
    lemma_reply_fifo_order(v1, id, sid2);
    let v2 = spec_push_slot(v1, id, sid2);
    lemma_push_slot_preserves_inv(v1, id, sid2);
    assert(spec_slots(v2, id) =~= seq![SlotView { slot_id: sid1 }, SlotView { slot_id: sid2 }]);
    assert(v2.users == v.users);
    assert(spec_pending(v2, id)) by {
        assert(spec_slots(v2, id).len() == 2);
    }
    lemma_reply_fifo_order(v2, id, sid2);
    assert(spec_slots(spec_pop_slot(v2, id), id) =~= seq![SlotView { slot_id: sid2 }]);
}

/// When an identifier's last connection disconnects, both the connection
/// mapping and the reply-slot FIFO for it are gone from the registry.
pub proof fn lemma_last_disconnect_clears(v: SingleView, id: Seq<char>, cid: Seq<char>)
    requires
        inv(v),
        has_user(v.users, id),
        v.users[user_index(v.users, id)].conns =~= seq![
            ConnView { conn_id: cid, sent: v.users[user_index(v.users, id)].conns[0].sent },
        ],
    ensures
        !has_user(spec_disconnect(v, id, cid).users, id),
        !has_fifo(spec_disconnect(v, id, cid).fifos, id),
{
    lemma_user_index(v.users, id);
    let u = user_index(v.users, id);
    let cs = v.users[u].conns;
    assert(remove_conns(cs, cid) =~= Seq::<ConnView>::empty()) by {
        assert(cs.drop_last() =~= Seq::<ConnView>::empty());
        assert(remove_conns(cs.drop_last(), cid) =~= Seq::<ConnView>::empty());
        assert(cs.last().conn_id == cid);
    }
    let out = spec_disconnect(v, id, cid);
    assert(out.users == v.users.remove(u));
    assert(!has_user(out.users, id)) by {
        if has_user(out.users, id) {
            let w = choose|w: int| 0 <= w < out.users.len() && out.users[w].id == id;
            if w < u {
                assert(v.users[w].id == id);
                assert(w == u);
            } else {
                assert(v.users[w + 1].id == id);
                assert(w + 1 == u);
            }
        }
    }
    lemma_remove_fifos_props(v.fifos, id);
    assert(!has_fifo(out.fifos, id)) by {
        if has_fifo(out.fifos, id) {
            let w = choose|w: int| 0 <= w < out.fifos.len() && out.fifos[w].id == id;
            assert(out.fifos[w].id != id);
        }
    }
}

/// Subscribing a connection under a fresh identifier and then disconnecting
/// it restores the registry exactly; with distinct fresh identifiers this
/// composes to a round trip for any number of them.
pub proof fn lemma_connect_disconnect_roundtrip(v: SingleView, id: Seq<char>, cid: Seq<char>, sent: Seq<MessageView>)
    requires
        inv(v),
        !has_user(v.users, id),
        !has_fifo(v.fifos, id),
    ensures
        spec_disconnect(spec_connect(v, id, cid, sent), id, cid) == v,
{
    let v1 = spec_connect(v, id, cid, sent);
    let n = v.users.len();
    let c = ConnView { conn_id: cid, sent };
    assert(v1.users == v.users.push(UserView { id, conns: seq![c] }));
    assert(v1.users[n as int].id == id);
    assert(has_user(v1.users, id));
    lemma_connect_preserves_inv(v, id, cid, sent);
    lemma_user_index(v1.users, id);
    assert(user_index(v1.users, id) == n as int);
    let cs = v1.users[n as int].conns;
    assert(remove_conns(cs, cid) =~= Seq::<ConnView>::empty()) by {
        assert(cs.drop_last() =~= Seq::<ConnView>::empty());
        assert(remove_conns(cs.drop_last(), cid) =~= Seq::<ConnView>::empty());
        assert(cs.last().conn_id == cid);
    }
    let out = spec_disconnect(v1, id, cid);
    assert(out.users =~= v.users);
    lemma_remove_fifos_props(v.fifos, id);
    assert(out.fifos == remove_fifos(v.fifos, id));
    assert(out.fifos == v.fifos);
    assert(out =~= v);
}

/// Pruning the same dead connection twice is a no-op: disconnecting an
/// already-disconnected connection changes nothing.
pub proof fn lemma_prune_idempotent(v: SingleView, id: Seq<char>, cid: Seq<char>)
    requires
        inv(v),
    ensures
        spec_disconnect(spec_disconnect(v, id, cid), id, cid) == spec_disconnect(v, id, cid),
{
    let v1 = spec_disconnect(v, id, cid);
    lemma_disconnect_preserves_inv(v, id, cid);
    if !has_user(v.users, id) {
        assert(v1 == v);
    } else {
        lemma_user_index(v.users, id);
        let u = user_index(v.users, id);
        let cs = v.users[u].conns;
        let cs2 = remove_conns(cs, cid);
        lemma_remove_conns_props(cs, cid);
        if cs2.len() == 0 {
            assert(!has_user(v1.users, id)) by {
                if has_user(v1.users, id) {
                    let w = choose|w: int| 0 <= w < v1.users.len() && v1.users[w].id == id;
                    if w < u {
                        assert(v.users[w].id == id);
                        assert(w == u);
                    } else {
                        assert(v.users[w + 1].id == id);
                        assert(w + 1 == u);
                    }
                }
            }
            assert(spec_disconnect(v1, id, cid) == v1);
        } else {
            assert(v1.users[u].id == id);
            assert(has_user(v1.users, id));
            lemma_user_index(v1.users, id);
            assert(user_index(v1.users, id) == u);
            assert(!has_conn_in(cs2, cid)) by {
                if has_conn_in(cs2, cid) {
                    let j = choose|j: int| 0 <= j < cs2.len() && cs2[j].conn_id == cid;
                    assert(cs2[j].conn_id != cid);
                }
            }
            lemma_remove_conns_props(cs2, cid);
            assert(remove_conns(cs2, cid) == cs2);
            let out = spec_disconnect(v1, id, cid);
            assert(out.users =~= v1.users) by {
                assert(v1.users[u] == (UserView { id, conns: cs2 }));
                assert(out.users == v1.users.update(u, UserView { id, conns: cs2 }));
                assert forall|i: int| 0 <= i < out.users.len() implies out.users[i]
                    == v1.users[i] by {}
            }
            assert(out =~= v1);
        }
    }
}

/// A successful shot leaves the published message at the tail of one live
/// connection's queue for the identifier.
pub proof fn lemma_shot_reaches_queue(v: SingleView, id: Seq<char>, k: int, m: MessageView)
    requires
        inv(v),
        has_user(v.users, id),
        0 <= k < v.users[user_index(v.users, id)].conns.len(),
    ensures
        ({
            let out = spec_deliver_success(v, id, k, m);
            &&& has_user(out.users, id)
            &&& out.users[user_index(out.users, id)].conns.len() > 0
            &&& out.users[user_index(out.users, id)].conns[0].sent.len() > 0
            &&& out.users[user_index(out.users, id)].conns[0].sent.last() == m
        }),
{
    lemma_user_index(v.users, id);
    let u = user_index(v.users, id);
    lemma_deliver_preserves_inv(v, id, k, m);
    let out = spec_deliver_success(v, id, k, m);
    assert(out.users[u].id == id);
    assert(has_user(out.users, id));
    lemma_user_index(out.users, id);
    assert(user_index(out.users, id) == u);
    let cs = v.users[u].conns;
    assert(out.users[u].conns[0].sent == cs[k].sent.push(m));
}

/// A ping-pong wait resolves to exactly one of three statuses: a reply
/// within the bound (200), the subscriber gone while waiting (204), or a
/// timeout (408); the fourth resolution of a ping-pong publish, no live
/// subscriber at dispatch time (404), never reaches the wait at all.
pub proof fn lemma_ping_pong_resolution(r: ReplyAwaited)
    ensures
        spec_reply_status(r) == 200 || spec_reply_status(r) == 204 || spec_reply_status(r) == 408,
        (spec_reply_status(r) == 200) <==> (r is Reply),
        (spec_reply_status(r) == 204) <==> (r is ChannelClosed),
        (spec_reply_status(r) == 408) <==> (r is TimedOut),
{
}

/// A heartbeat ping keeps the registry well-formed.
pub proof fn lemma_ping_preserves_inv(v: SingleView, id: Seq<char>, cid: Seq<char>)
    requires
        inv(v),
        spec_has_conn(v, id, cid),
    ensures
        inv(spec_ping_conn(v, id, cid)),
{
    lemma_user_index(v.users, id);
    let u = user_index(v.users, id);
    let cs = v.users[u].conns;
    lemma_conn_index(cs, cid);
    let j = conn_index(cs, cid);
    let out = spec_ping_conn(v, id, cid);
    assert(conn_ids_distinct(out.users[u].conns)) by {
        assert forall|a: int, b: int|
            0 <= a < b < out.users[u].conns.len() implies out.users[u].conns[a].conn_id
            != out.users[u].conns[b].conn_id by {
            assert(out.users[u].conns[a].conn_id == cs[a].conn_id);
            assert(out.users[u].conns[b].conn_id == cs[b].conn_id);
        }
    }
    assert forall|i: int| 0 <= i < out.fifos.len() implies has_user(
        out.users,
        (#[trigger] out.fifos[i]).id,
    ) by {
        assert(has_user(v.users, v.fifos[i].id));
        let w = choose|w: int| 0 <= w < v.users.len() && v.users[w].id == v.fifos[i].id;
        assert(out.users[w].id == v.fifos[i].id);
    }
}

/// Registering a well-formed connection keeps the registry well-formed.
pub proof fn lemma_connect_preserves_inv(v: SingleView, id: Seq<char>, cid: Seq<char>, sent: Seq<MessageView>)
    requires
        inv(v),
        !spec_has_conn(v, id, cid),
    ensures
        inv(spec_connect(v, id, cid, sent)),
{
    let out = spec_connect(v, id, cid, sent);
    if has_user(v.users, id) {
        lemma_user_index(v.users, id);
        let u = user_index(v.users, id);
        let cs2 = v.users[u].conns.push(ConnView { conn_id: cid, sent });
        assert(conn_ids_distinct(cs2)) by {
            assert forall|i: int, j: int|
                0 <= i < j < cs2.len() implies cs2[i].conn_id != cs2[j].conn_id by {
                if j == cs2.len() - 1 {
                    assert(!has_conn_in(v.users[u].conns, cid));
                    assert(v.users[u].conns[i].conn_id != cid);
                }
            }
        }
        assert forall|i: int| 0 <= i < out.fifos.len() implies has_user(
            out.users,
            (#[trigger] out.fifos[i]).id,
        ) by {
            assert(has_user(v.users, v.fifos[i].id));
            let w = choose|w: int| 0 <= w < v.users.len() && v.users[w].id == v.fifos[i].id;
            assert(out.users[w].id == v.fifos[i].id);
        }
    } else {
        assert forall|i: int| 0 <= i < out.fifos.len() implies has_user(
            out.users,
            (#[trigger] out.fifos[i]).id,
        ) by {
            assert(has_user(v.users, v.fifos[i].id));
            let w = choose|w: int| 0 <= w < v.users.len() && v.users[w].id == v.fifos[i].id;
            assert(out.users[w].id == v.fifos[i].id);
        }
    }
}

/// Deregistering a connection keeps the registry well-formed.
pub proof fn lemma_disconnect_preserves_inv(v: SingleView, id: Seq<char>, cid: Seq<char>)
    requires
        inv(v),
    ensures
        inv(spec_disconnect(v, id, cid)),
{
    if has_user(v.users, id) {
        lemma_user_index(v.users, id);
        let u = user_index(v.users, id);
        let cs = remove_conns(v.users[u].conns, cid);
        lemma_remove_conns_props(v.users[u].conns, cid);
        let out = spec_disconnect(v, id, cid);
        if cs.len() == 0 {
            lemma_remove_fifos_props(v.fifos, id);
            assert forall|i: int| 0 <= i < out.fifos.len() implies has_user(
                out.users,
                (#[trigger] out.fifos[i]).id,
            ) by {
                assert(v.fifos.contains(out.fifos[i]));
                let fi = choose|fi: int| 0 <= fi < v.fifos.len() && v.fifos[fi] == out.fifos[i];
                assert(has_user(v.users, v.fifos[fi].id));
                let w = choose|w: int| 0 <= w < v.users.len() && v.users[w].id == v.fifos[fi].id;
                assert(w != u);
                if w < u {
                    assert(out.users[w].id == out.fifos[i].id);
                } else {
                    assert(out.users[w - 1].id == out.fifos[i].id);
                }
            }
        } else {
            assert forall|i: int| 0 <= i < out.fifos.len() implies has_user(
                out.users,
                (#[trigger] out.fifos[i]).id,
            ) by {
                assert(has_user(v.users, v.fifos[i].id));
                let w = choose|w: int| 0 <= w < v.users.len() && v.users[w].id == v.fifos[i].id;
                assert(out.users[w].id == v.fifos[i].id);
            }
        }
    }
}

} // verus!
