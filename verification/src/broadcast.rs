//! The broadcast registry.
//!
//! `BroadcastRegistry` maps an identifier to the ordered list of its live
//! connections.  A broadcast publish fans the encoded frame out to every
//! connection of the identifier, records the connections whose queue turned
//! out closed, and prunes them afterwards; an identifier left without
//! connections is dropped.  Publishing to an identifier nobody subscribed to
//! is not an error.

use vstd::prelude::*;

verus! {

use crate::message::{Message, MessageView, encode_body, spec_encode};
use crate::queue::OutboundQueue;
use crate::message::str_eq;

/// One live connection under an identifier.
pub struct BroadcastConn {
    /// Unique handle for this socket, drawn from a process-wide counter.
    pub connection_id: u64,
    /// The connection's outbound queue.
    pub queue: OutboundQueue,
}

/// Abstract value of one connection: its handle and the messages its queue
/// has accepted.
#[verifier::ext_equal]
pub ghost struct BConnView {
    pub connection_id: u64,
    pub sent: Seq<MessageView>,
}

impl View for BroadcastConn {
    type V = BConnView;

    open spec fn view(&self) -> BConnView {
        BConnView { connection_id: self.connection_id, sent: self.queue@ }
    }
}

/// The connections registered under one identifier.
pub struct BroadcastEntry {
    pub id: String,
    pub conns: Vec<BroadcastConn>,
}

#[verifier::ext_equal]
pub ghost struct BUserView {
    pub id: Seq<char>,
    pub conns: Seq<BConnView>,
}

impl View for BroadcastEntry {
    type V = BUserView;

    open spec fn view(&self) -> BUserView {
        BUserView { id: self.id@, conns: self.conns@.map_values(|c: BroadcastConn| c@) }
    }
}

/// The broadcast registry: connection lists by identifier.
pub struct BroadcastRegistry {
    pub users: Vec<BroadcastEntry>,
}

impl View for BroadcastRegistry {
    type V = Seq<BUserView>;

    open spec fn view(&self) -> Seq<BUserView> {
        self.users@.map_values(|e: BroadcastEntry| e@)
    }
}

// ---------------------------------------------------------------------------
// Spec-level vocabulary
// ---------------------------------------------------------------------------

pub open spec fn b_has_user(users: Seq<BUserView>, id: Seq<char>) -> bool {
    exists|i: int| 0 <= i < users.len() && users[i].id == id
}

/// The index of the entry for `id`; meaningful only when `b_has_user` holds
/// and user ids are distinct.
pub open spec fn b_user_index(users: Seq<BUserView>, id: Seq<char>) -> int {
    choose|i: int| 0 <= i < users.len() && users[i].id == id
}

pub open spec fn b_user_ids_distinct(users: Seq<BUserView>) -> bool {
    forall|i: int, j: int| 0 <= i < j < users.len() ==> users[i].id != users[j].id
}

pub open spec fn b_has_conn_in(cs: Seq<BConnView>, cid: u64) -> bool {
    exists|i: int| 0 <= i < cs.len() && cs[i].connection_id == cid
}

pub open spec fn b_conn_ids_distinct(cs: Seq<BConnView>) -> bool {
    forall|i: int, j: int| 0 <= i < j < cs.len() ==> cs[i].connection_id != cs[j].connection_id
}

/// All connections except those with handle `cid`.
pub open spec fn b_remove_conns(cs: Seq<BConnView>, cid: u64) -> Seq<BConnView>
    decreases cs.len(),
{
    if cs.len() == 0 {
        cs
    } else {
        let rest = b_remove_conns(cs.drop_last(), cid);
        if cs.last().connection_id == cid {
            rest
        } else {
            rest.push(cs.last())
        }
    }
}

/// A fan-out pass: every connection whose handle is not among the failed
/// ones has `m` appended to its queue; the failed ones are pruned.
pub open spec fn spec_fan_out(cs: Seq<BConnView>, failed: Seq<u64>, m: MessageView) -> Seq<BConnView>
    decreases cs.len(),
{
    if cs.len() == 0 {
        cs
    } else {
        let rest = spec_fan_out(cs.drop_last(), failed, m);
        let c = cs.last();
        if failed.contains(c.connection_id) {
            rest
        } else {
            rest.push(BConnView { connection_id: c.connection_id, sent: c.sent.push(m) })
        }
    }
}

/// Well-formedness: identifiers are distinct, no identifier is retained with
/// zero connections, and connection handles are distinct within an
/// identifier.
pub open spec fn b_inv(users: Seq<BUserView>) -> bool {
    &&& b_user_ids_distinct(users)
    &&& (forall|i: int|
        0 <= i < users.len() ==> (#[trigger] users[i]).conns.len() > 0 && b_conn_ids_distinct(
            users[i].conns,
        ))
}

// ---------------------------------------------------------------------------
// Spec-level transitions
// ---------------------------------------------------------------------------

/// Registering a connection.
pub open spec fn spec_b_subscribe(users: Seq<BUserView>, id: Seq<char>, cid: u64, sent: Seq<MessageView>) -> Seq<BUserView> {
    let c = BConnView { connection_id: cid, sent };
    if b_has_user(users, id) {
        let u = b_user_index(users, id);
        users.update(u, BUserView { id, conns: users[u].conns.push(c) })
    } else {
        users.push(BUserView { id, conns: seq![c] })
    }
}

/// Deregistering a connection; the identifier goes away with its last one.
pub open spec fn spec_b_disconnect(users: Seq<BUserView>, id: Seq<char>, cid: u64) -> Seq<BUserView> {
    if !b_has_user(users, id) {
        users
    } else {
        let u = b_user_index(users, id);
        let cs = b_remove_conns(users[u].conns, cid);
        if cs.len() == 0 {
            users.remove(u)
        } else {
            users.update(u, BUserView { id, conns: cs })
        }
    }
}

/// A broadcast publish: fan out to the identifier's connections and prune
/// the failed ones; with none left the identifier goes away.  An unknown
/// identifier changes nothing.
pub open spec fn spec_b_publish(users: Seq<BUserView>, id: Seq<char>, failed: Seq<u64>, m: MessageView) -> Seq<BUserView> {
    if !b_has_user(users, id) {
        users
    } else {
        let u = b_user_index(users, id);
        let ds = spec_fan_out(users[u].conns, failed, m);
        if ds.len() == 0 {
            users.remove(u)
        } else {
            users.update(u, BUserView { id, conns: ds })
        }
    }
}

/// Whether the broadcast publish accepted the request; delivery plays no
/// part in it.
pub enum BroadcastOutcome {
    /// Fanned out to whoever was there (possibly nobody).
    Accepted,
    /// The `id` query parameter was missing or empty.
    EmptyId,
    /// The content type asked for text but the body is not valid UTF-8.
    InvalidUtf8,
}

impl BroadcastOutcome {
    /// The HTTP status this outcome resolves to.
    pub fn status_code(&self) -> (code: u16)
        ensures
            code == (match self {
                BroadcastOutcome::Accepted => 200u16,
                BroadcastOutcome::EmptyId => 400u16,
                BroadcastOutcome::InvalidUtf8 => 400u16,
            }),
    {
        match self {
            BroadcastOutcome::Accepted => 200,
            BroadcastOutcome::EmptyId => 400,
            BroadcastOutcome::InvalidUtf8 => 400,
        }
    }
}

// ---------------------------------------------------------------------------
// Lemmas
// ---------------------------------------------------------------------------

pub proof fn lemma_b_user_index(users: Seq<BUserView>, id: Seq<char>)
    requires
        b_user_ids_distinct(users),
        b_has_user(users, id),
    ensures
        0 <= b_user_index(users, id) < users.len(),
        users[b_user_index(users, id)].id == id,
        forall|i: int| 0 <= i < users.len() && users[i].id == id ==> i == b_user_index(users, id),
{
    let u = b_user_index(users, id);
    assert(0 <= u < users.len() && users[u].id == id);
    assert forall|i: int| 0 <= i < users.len() && users[i].id == id implies i == u by {
        if i != u {
            if i < u {
                assert(users[i].id != users[u].id);
            } else {
                assert(users[u].id != users[i].id);
            }
        }
    }
}

pub proof fn lemma_b_remove_conns_props(cs: Seq<BConnView>, cid: u64)
    ensures
        b_remove_conns(cs, cid).len() <= cs.len(),
        forall|i: int|
            0 <= i < b_remove_conns(cs, cid).len() ==> (#[trigger] b_remove_conns(
                cs,
                cid,
            )[i]).connection_id != cid && cs.contains(b_remove_conns(cs, cid)[i]),
        !b_has_conn_in(cs, cid) ==> b_remove_conns(cs, cid) == cs,
        b_conn_ids_distinct(cs) ==> b_conn_ids_distinct(b_remove_conns(cs, cid)),
        b_conn_ids_distinct(cs) && b_has_conn_in(cs, cid) ==> b_remove_conns(cs, cid).len()
            == cs.len() - 1,
    decreases cs.len(),
{
    let out = b_remove_conns(cs, cid);
    if cs.len() == 0 {
        assert(!b_has_conn_in(cs, cid));
    } else {
        let pre = cs.drop_last();
        let rest = b_remove_conns(pre, cid);
        lemma_b_remove_conns_props(pre, cid);
        assert(forall|i: int| 0 <= i < pre.len() ==> pre[i] == cs[i]);
        assert forall|i: int| 0 <= i < rest.len() implies cs.contains(rest[i]) by {
            assert(pre.contains(rest[i]));
            let j = choose|j: int| 0 <= j < pre.len() && pre[j] == rest[i];
            assert(cs[j] == rest[i]);
        }
        if b_conn_ids_distinct(cs) {
            assert(b_conn_ids_distinct(pre));
            if cs.last().connection_id != cid {
                assert forall|i: int, j: int|
                    0 <= i < j < out.len() implies out[i].connection_id
                    != out[j].connection_id by {
                    if j == out.len() - 1 {
                        assert(out[j] == cs.last());
                        assert(pre.contains(rest[i]));
                        let k = choose|k: int| 0 <= k < pre.len() && pre[k] == rest[i];
                        assert(cs[k].connection_id != cs[cs.len() - 1].connection_id);
                    }
                }
            }
        }
        if !b_has_conn_in(cs, cid) {
            assert(!b_has_conn_in(pre, cid)) by {
                if b_has_conn_in(pre, cid) {
                    let k = choose|k: int| 0 <= k < pre.len() && pre[k].connection_id == cid;
                    assert(cs[k].connection_id == cid);
                }
            }
            assert(cs.last().connection_id != cid);
            assert(out =~= cs);
        }
        if b_conn_ids_distinct(cs) && b_has_conn_in(cs, cid) {
            if cs.last().connection_id == cid {
                assert(!b_has_conn_in(pre, cid)) by {
                    if b_has_conn_in(pre, cid) {
                        let k = choose|k: int| 0 <= k < pre.len() && pre[k].connection_id == cid;
                        assert(cs[k].connection_id != cs[cs.len() - 1].connection_id);
                    }
                }
            } else {
                assert(b_has_conn_in(pre, cid)) by {
                    let k = choose|k: int| 0 <= k < cs.len() && cs[k].connection_id == cid;
                    assert(k < cs.len() - 1);
                    assert(pre[k].connection_id == cid);
                }
            }
        }
    }
}

pub proof fn lemma_b_remove_conns_push(cs: Seq<BConnView>, x: BConnView, cid: u64)
    ensures
        b_remove_conns(cs.push(x), cid) == (if x.connection_id == cid {
            b_remove_conns(cs, cid)
        } else {
            b_remove_conns(cs, cid).push(x)
        }),
{
    assert(cs.push(x).drop_last() =~= cs);
    assert(cs.push(x).last() == x);
}

pub proof fn lemma_fan_out_push(cs: Seq<BConnView>, x: BConnView, failed: Seq<u64>, m: MessageView)
    ensures
        spec_fan_out(cs.push(x), failed, m) == (if failed.contains(x.connection_id) {
            spec_fan_out(cs, failed, m)
        } else {
            spec_fan_out(cs, failed, m).push(
                BConnView { connection_id: x.connection_id, sent: x.sent.push(m) },
            )
        }),
{
    assert(cs.push(x).drop_last() =~= cs);
    assert(cs.push(x).last() == x);
}

/// A handle that none of the connections carries makes no difference to the
/// fan-out.
pub proof fn lemma_fan_out_failed_irrelevant(cs: Seq<BConnView>, failed: Seq<u64>, f: u64, m: MessageView)
    requires
        !b_has_conn_in(cs, f),
    ensures
        spec_fan_out(cs, failed.push(f), m) == spec_fan_out(cs, failed, m),
    decreases cs.len(),
{
    if cs.len() > 0 {
        let pre = cs.drop_last();
        assert(!b_has_conn_in(pre, f)) by {
            if b_has_conn_in(pre, f) {
                let k = choose|k: int| 0 <= k < pre.len() && pre[k].connection_id == f;
                assert(cs[k].connection_id == f);
            }
        }
        lemma_fan_out_failed_irrelevant(pre, failed, f, m);
        assert(cs.last().connection_id != f);
        assert(failed.push(f).contains(cs.last().connection_id) == failed.contains(
            cs.last().connection_id,
        )) by {
            if failed.push(f).contains(cs.last().connection_id) {
                let k = choose|k: int|
                    0 <= k < failed.push(f).len() && failed.push(f)[k] == cs.last().connection_id;
                assert(k < failed.len());
            }
            if failed.contains(cs.last().connection_id) {
                let k = choose|k: int| 0 <= k < failed.len() && failed[k] == cs.last().connection_id;
                assert(failed.push(f)[k] == cs.last().connection_id);
            }
        }
    }
}

/// What a fan-out pass keeps: connections the failed handles do not name,
/// each with the message appended, handles preserved and still distinct.
pub proof fn lemma_fan_out_props(cs: Seq<BConnView>, failed: Seq<u64>, m: MessageView)
    ensures
        spec_fan_out(cs, failed, m).len() <= cs.len(),
        forall|i: int|
            0 <= i < spec_fan_out(cs, failed, m).len() ==> !failed.contains(
                (#[trigger] spec_fan_out(cs, failed, m)[i]).connection_id,
            ) && b_has_conn_in(cs, spec_fan_out(cs, failed, m)[i].connection_id),
        b_conn_ids_distinct(cs) ==> b_conn_ids_distinct(spec_fan_out(cs, failed, m)),
        failed.len() == 0 ==> spec_fan_out(cs, failed, m).len() == cs.len(),
    decreases cs.len(),
{
    let out = spec_fan_out(cs, failed, m);
    if cs.len() > 0 {
        let pre = cs.drop_last();
        let rest = spec_fan_out(pre, failed, m);
        lemma_fan_out_props(pre, failed, m);
        assert(forall|i: int| 0 <= i < pre.len() ==> pre[i] == cs[i]);
        assert forall|i: int| 0 <= i < rest.len() implies b_has_conn_in(
            cs,
            rest[i].connection_id,
        ) by {
            assert(b_has_conn_in(pre, rest[i].connection_id));
            let j = choose|j: int| 0 <= j < pre.len() && pre[j].connection_id
                == rest[i].connection_id;
            assert(cs[j].connection_id == rest[i].connection_id);
        }
        if b_conn_ids_distinct(cs) {
            assert(b_conn_ids_distinct(pre));
            if !failed.contains(cs.last().connection_id) {
                assert forall|i: int, j: int|
                    0 <= i < j < out.len() implies out[i].connection_id
                    != out[j].connection_id by {
                    if j == out.len() - 1 {
                        assert(out[j].connection_id == cs.last().connection_id);
                        assert(b_has_conn_in(pre, out[i].connection_id));
                        let k = choose|k: int| 0 <= k < pre.len() && pre[k].connection_id
                            == out[i].connection_id;
                        assert(cs[k].connection_id != cs[cs.len() - 1].connection_id);
                    }
                }
            }
        }
    }
}

/// The index of the connection with handle `cid`; meaningful only when
/// `b_has_conn_in` holds and handles are distinct.
pub open spec fn b_conn_index(cs: Seq<BConnView>, cid: u64) -> int {
    choose|i: int| 0 <= i < cs.len() && cs[i].connection_id == cid
}

pub proof fn lemma_b_conn_index(cs: Seq<BConnView>, cid: u64)
    requires
        b_conn_ids_distinct(cs),
        b_has_conn_in(cs, cid),
    ensures
        0 <= b_conn_index(cs, cid) < cs.len(),
        cs[b_conn_index(cs, cid)].connection_id == cid,
        forall|i: int|
            0 <= i < cs.len() && cs[i].connection_id == cid ==> i == b_conn_index(cs, cid),
{
    let u = b_conn_index(cs, cid);
    assert(0 <= u < cs.len() && cs[u].connection_id == cid);
    assert forall|i: int| 0 <= i < cs.len() && cs[i].connection_id == cid implies i == u by {
        if i != u {
            if i < u {
                assert(cs[i].connection_id != cs[u].connection_id);
            } else {
                assert(cs[u].connection_id != cs[i].connection_id);
            }
        }
    }
}

/// A heartbeat ping appended to one connection's queue.
pub open spec fn spec_b_ping(users: Seq<BUserView>, id: Seq<char>, cid: u64) -> Seq<BUserView> {
    let u = b_user_index(users, id);
    let cs = users[u].conns;
    let j = b_conn_index(cs, cid);
    let c2 = BConnView {
        connection_id: cs[j].connection_id,
        sent: cs[j].sent.push(MessageView::Ping(Seq::empty())),
    };
    users.update(u, BUserView { id: users[u].id, conns: cs.update(j, c2) })
}

/// A heartbeat ping keeps the registry well-formed.
pub proof fn lemma_b_ping_preserves_inv(users: Seq<BUserView>, id: Seq<char>, cid: u64)
    requires
        b_inv(users),
        b_has_user(users, id),
        b_has_conn_in(users[b_user_index(users, id)].conns, cid),
    ensures
        b_inv(spec_b_ping(users, id, cid)),
{
    lemma_b_user_index(users, id);
    let u = b_user_index(users, id);
    let cs = users[u].conns;
    lemma_b_conn_index(cs, cid);
    let j = b_conn_index(cs, cid);
    let out = spec_b_ping(users, id, cid);
    assert(b_conn_ids_distinct(out[u].conns)) by {
        assert forall|a: int, b: int|
            0 <= a < b < out[u].conns.len() implies out[u].conns[a].connection_id
            != out[u].conns[b].connection_id by {
            assert(out[u].conns[a].connection_id == cs[a].connection_id);
            assert(out[u].conns[b].connection_id == cs[b].connection_id);
        }
    }
}

/// Registering a well-formed connection keeps the registry well-formed.
pub proof fn lemma_b_subscribe_preserves_inv(users: Seq<BUserView>, id: Seq<char>, cid: u64, sent: Seq<MessageView>)
    requires
        b_inv(users),
        !(b_has_user(users, id) && b_has_conn_in(users[b_user_index(users, id)].conns, cid)),
    ensures
        b_inv(spec_b_subscribe(users, id, cid, sent)),
{
    if b_has_user(users, id) {
        lemma_b_user_index(users, id);
        let u = b_user_index(users, id);
        let cs2 = users[u].conns.push(BConnView { connection_id: cid, sent });
        assert(b_conn_ids_distinct(cs2)) by {
            assert forall|i: int, j: int|
                0 <= i < j < cs2.len() implies cs2[i].connection_id != cs2[j].connection_id by {
                if j == cs2.len() - 1 {
                    assert(!b_has_conn_in(users[u].conns, cid));
                    assert(users[u].conns[i].connection_id != cid);
                }
            }
        }
    }
}

/// Deregistering a connection keeps the registry well-formed.
pub proof fn lemma_b_disconnect_preserves_inv(users: Seq<BUserView>, id: Seq<char>, cid: u64)
    requires
        b_inv(users),
    ensures
        b_inv(spec_b_disconnect(users, id, cid)),
{
    if b_has_user(users, id) {
        lemma_b_user_index(users, id);
        lemma_b_remove_conns_props(users[b_user_index(users, id)].conns, cid);
    }
}

/// A broadcast publish keeps the registry well-formed.
pub proof fn lemma_b_publish_preserves_inv(users: Seq<BUserView>, id: Seq<char>, failed: Seq<u64>, m: MessageView)
    requires
        b_inv(users),
    ensures
        b_inv(spec_b_publish(users, id, failed, m)),
{
    if b_has_user(users, id) {
        lemma_b_user_index(users, id);
        lemma_fan_out_props(users[b_user_index(users, id)].conns, failed, m);
    }
}

// ---------------------------------------------------------------------------
// Laws
// ---------------------------------------------------------------------------

/// With every queue live, a fan-out delivers to every connection of the
/// identifier: each one's queue accepts exactly the published message, in
/// place.
pub proof fn lemma_fan_out_all_live(cs: Seq<BConnView>, m: MessageView)
    ensures
        spec_fan_out(cs, Seq::empty(), m).len() == cs.len(),
        forall|i: int|
            0 <= i < cs.len() ==> #[trigger] spec_fan_out(cs, Seq::empty(), m)[i] == (BConnView {
                connection_id: cs[i].connection_id,
                sent: cs[i].sent.push(m),
            }),
    decreases cs.len(),
{
    let failed = Seq::<u64>::empty();
    if cs.len() > 0 {
        let pre = cs.drop_last();
        lemma_fan_out_all_live(pre, m);
        assert(!failed.contains(cs.last().connection_id));
        assert(forall|i: int| 0 <= i < pre.len() ==> pre[i] == cs[i]);
    }
}

/// Subscribing a connection under a fresh identifier and then disconnecting
/// it restores the broadcast registry exactly; with distinct fresh
/// identifiers this composes to a round trip for any number of them.
pub proof fn lemma_b_roundtrip(users: Seq<BUserView>, id: Seq<char>, cid: u64, sent: Seq<MessageView>)
    requires
        b_inv(users),
        !b_has_user(users, id),
    ensures
        spec_b_disconnect(spec_b_subscribe(users, id, cid, sent), id, cid) == users,
{
    let v1 = spec_b_subscribe(users, id, cid, sent);
    let n = users.len();
    let c = BConnView { connection_id: cid, sent };
    assert(v1 == users.push(BUserView { id, conns: seq![c] }));
    assert(v1[n as int].id == id);
    assert(b_has_user(v1, id));
    lemma_b_subscribe_preserves_inv(users, id, cid, sent);
    lemma_b_user_index(v1, id);
    assert(b_user_index(v1, id) == n as int);
    let cs = v1[n as int].conns;
    assert(b_remove_conns(cs, cid) =~= Seq::<BConnView>::empty()) by {
        assert(cs.drop_last() =~= Seq::<BConnView>::empty());
        assert(b_remove_conns(cs.drop_last(), cid) =~= Seq::<BConnView>::empty());
        assert(cs.last().connection_id == cid);
    }
    assert(spec_b_disconnect(v1, id, cid) =~= users);
}

/// The number of live connections registered for `id`.
pub open spec fn spec_b_count(users: Seq<BUserView>, id: Seq<char>) -> nat {
    if b_has_user(users, id) {
        users[b_user_index(users, id)].conns.len()
    } else {
        0
    }
}

/// A disconnect decrements the identifier's connection count exactly once,
/// and no entry for that connection remains.
pub proof fn lemma_b_disconnect_decrements(users: Seq<BUserView>, id: Seq<char>, cid: u64)
    requires
        b_inv(users),
        b_has_user(users, id),
        b_has_conn_in(users[b_user_index(users, id)].conns, cid),
    ensures
        spec_b_count(spec_b_disconnect(users, id, cid), id) == spec_b_count(users, id) - 1,
{
    lemma_b_user_index(users, id);
    let u = b_user_index(users, id);
    let cs = users[u].conns;
    lemma_b_remove_conns_props(cs, cid);
    lemma_b_disconnect_preserves_inv(users, id, cid);
    let out = spec_b_disconnect(users, id, cid);
    let cs2 = b_remove_conns(cs, cid);
    if cs2.len() == 0 {
        assert(!b_has_user(out, id)) by {
            if b_has_user(out, id) {
                let w = choose|w: int| 0 <= w < out.len() && out[w].id == id;
                if w < u {
                    assert(users[w].id == id);
                    assert(w == u);
                } else {
                    assert(users[w + 1].id == id);
                    assert(w + 1 == u);
                }
            }
        }
        assert(spec_b_count(out, id) == 0);
    } else {
        assert(out[u].id == id);
        assert(b_has_user(out, id));
        lemma_b_user_index(out, id);
        assert(b_user_index(out, id) == u);
    }
}

/// Pruning the same dead connection twice is a no-op: disconnecting an
/// already-disconnected connection changes nothing.
pub proof fn lemma_b_prune_idempotent(users: Seq<BUserView>, id: Seq<char>, cid: u64)
    requires
        b_inv(users),
    ensures
        spec_b_disconnect(spec_b_disconnect(users, id, cid), id, cid) == spec_b_disconnect(
            users,
            id,
            cid,
        ),
{
    let v1 = spec_b_disconnect(users, id, cid);
    lemma_b_disconnect_preserves_inv(users, id, cid);
    if b_has_user(users, id) {
        lemma_b_user_index(users, id);
        let u = b_user_index(users, id);
        let cs = users[u].conns;
        let cs2 = b_remove_conns(cs, cid);
        lemma_b_remove_conns_props(cs, cid);
        if cs2.len() == 0 {
            assert(!b_has_user(v1, id)) by {
                if b_has_user(v1, id) {
                    let w = choose|w: int| 0 <= w < v1.len() && v1[w].id == id;
                    if w < u {
                        assert(users[w].id == id);
                        assert(w == u);
                    } else {
                        assert(users[w + 1].id == id);
                        assert(w + 1 == u);
                    }
                }
            }
        } else {
            assert(v1[u].id == id);
            assert(b_has_user(v1, id));
            lemma_b_user_index(v1, id);
            assert(b_user_index(v1, id) == u);
            assert(!b_has_conn_in(cs2, cid)) by {
                if b_has_conn_in(cs2, cid) {
                    let j = choose|j: int| 0 <= j < cs2.len() && cs2[j].connection_id == cid;
                    assert(cs2[j].connection_id != cid);
                }
            }
            lemma_b_remove_conns_props(cs2, cid);
            assert(b_remove_conns(cs2, cid) == cs2);
            let out = spec_b_disconnect(v1, id, cid);
            assert(out =~= v1) by {
                assert(v1[u] == (BUserView { id, conns: cs2 }));
                assert(out == v1.update(u, BUserView { id, conns: cs2 }));
                assert forall|i: int| 0 <= i < out.len() implies out[i] == v1[i] by {}
            }
        }
    }
}

// ---------------------------------------------------------------------------
// Registry operations
// ---------------------------------------------------------------------------

impl BroadcastRegistry {
    pub open spec fn wf(&self) -> bool {
        b_inv(self@)
    }

    /// An empty registry.
    pub fn new() -> (r: BroadcastRegistry)
        ensures
            r.wf(),
            r@ == Seq::<BUserView>::empty(),
    {
        let r = BroadcastRegistry { users: Vec::new() };
        proof {
            assert(r@ =~= Seq::<BUserView>::empty());
        }
        r
    }

    fn find_user(&self, id: &str) -> (r: Option<usize>)
        ensures
            r matches Some(u) ==> u < self.users.len() && self@[u as int].id == id@,
            r is None ==> !b_has_user(self@, id@),
    {
        let mut i: usize = 0;
        let n = self.users.len();
        while i < n
            invariant
                i <= n,
                n == self.users.len(),
                forall|j: int| 0 <= j < i ==> (#[trigger] self@[j]).id != id@,
            decreases n - i,
        {
            if str_eq(self.users[i].id.as_str(), id) {
                return Some(i);
            }
            i = i + 1;
        }
        None
    }

    fn find_conn(cs: &Vec<BroadcastConn>, cid: u64) -> (r: Option<usize>)
        ensures
            r matches Some(j) ==> j < cs.len() && cs@.map_values(|c: BroadcastConn| c@)[j as int].connection_id
                == cid,
            r is None ==> !b_has_conn_in(cs@.map_values(|c: BroadcastConn| c@), cid),
    {
        let mut i: usize = 0;
        let n = cs.len();
        while i < n
            invariant
                i <= n,
                n == cs.len(),
                forall|j: int| 0 <= j < i ==> (#[trigger] cs@[j])@.connection_id != cid,
            decreases n - i,
        {
            if cs[i].connection_id == cid {
                return Some(i);
            }
            i = i + 1;
        }
        None
    }

    /// Register a connection under `id`.
    ///
    /// Returns false, leaving the registry unchanged, if a connection with
    /// this handle is already registered for `id`; handles are expected to be
    /// unique for the lifetime of the live connection.
    pub fn broadcast_subscribe(&mut self, id: String, connection_id: u64, queue: OutboundQueue) -> (r: bool)
        requires
            old(self).wf(),
            id@.len() > 0,
        ensures
            final(self).wf(),
            r == !(b_has_user(old(self)@, id@) && b_has_conn_in(
                old(self)@[b_user_index(old(self)@, id@)].conns,
                connection_id,
            )),
            r ==> final(self)@ == spec_b_subscribe(old(self)@, id@, connection_id, queue@),
            !r ==> final(self)@ == old(self)@,
    {
        let ghost v0 = old(self)@;
        let ghost cnew = (BConnView { connection_id, sent: queue@ });
        match self.find_user(id.as_str()) {
            Some(u) => {
                proof {
                    lemma_b_user_index(v0, id@);
                    assert(u as int == b_user_index(v0, id@));
                }
                if Self::find_conn(&self.users[u].conns, connection_id).is_some() {
                    return false;
                }
                let eref = &mut self.users[u];
                eref.conns.push(BroadcastConn { connection_id, queue });
                proof {
                    let vc = spec_b_subscribe(v0, id@, connection_id, cnew.sent);
                    assert(self@[u as int].conns =~= v0[u as int].conns.push(cnew));
                    assert(self@[u as int] =~= vc[u as int]);
                    assert(self@ =~= vc);
                    lemma_b_subscribe_preserves_inv(v0, id@, connection_id, cnew.sent);
                }
                true
            },
            None => {
                let mut cs: Vec<BroadcastConn> = Vec::new();
                cs.push(BroadcastConn { connection_id, queue });
                self.users.push(BroadcastEntry { id, conns: cs });
                proof {
                    let vc = spec_b_subscribe(v0, id@, connection_id, cnew.sent);
                    assert(self@[v0.len() as int].conns =~= seq![cnew]);
                    assert(self@[v0.len() as int] =~= vc[v0.len() as int]);
                    assert(self@ =~= vc);
                    lemma_b_subscribe_preserves_inv(v0, id@, connection_id, cnew.sent);
                }
                true
            },
        }
    }

    /// Deregister a connection: taken when its reader exits.  When the
    /// identifier's last connection goes, the identifier goes with it.
    /// Removing a connection that is already gone is a no-op.
    pub fn broadcast_user_disconnected(&mut self, id: &str, connection_id: u64)
        requires
            old(self).wf(),
        ensures
            final(self).wf(),
            final(self)@ == spec_b_disconnect(old(self)@, id@, connection_id),
    {
        let ghost v0 = old(self)@;
        let u = match self.find_user(id) {
            Some(u) => u,
            None => {
                return;
            },
        };
        proof {
            lemma_b_user_index(v0, id@);
            assert(u as int == b_user_index(v0, id@));
        }
        let e = self.users.remove(u);
        let BroadcastEntry { id: eid, conns: mut cs } = e;
        proof {
            assert(eid@ == v0[u as int].id);
        }
        let ghost cs0 = v0[u as int].conns;
        proof {
            assert(cs@.map_values(|c: BroadcastConn| c@) == cs0);
        }
        let mut kept: Vec<BroadcastConn> = Vec::new();
        proof {
            assert(kept@.map_values(|c: BroadcastConn| c@) =~= b_remove_conns(
                cs0.subrange(0, 0),
                connection_id,
            ));
        }
        while cs.len() > 0
            invariant
                cs@.len() <= cs0.len(),
                cs@.map_values(|c: BroadcastConn| c@) =~= cs0.subrange(
                    cs0.len() - cs@.len(),
                    cs0.len() as int,
                ),
                kept@.map_values(|c: BroadcastConn| c@) == b_remove_conns(
                    cs0.subrange(0, cs0.len() - cs@.len()),
                    connection_id,
                ),
            decreases cs.len(),
        {
            let ghost k = cs0.len() - cs@.len();
            let c = cs.remove(0);
            proof {
                assert(c@ == cs0.subrange(k, cs0.len() as int)[0]);
                assert(c@ == cs0[k]);
                assert(cs@.map_values(|c: BroadcastConn| c@) =~= cs0.subrange(
                    k + 1,
                    cs0.len() as int,
                )) by {
                    assert forall|j: int| 0 <= j < cs@.len() implies cs@[j]@ == cs0.subrange(
                        k + 1,
                        cs0.len() as int,
                    )[j] by {
                        assert(cs@[j]@ == cs0.subrange(k, cs0.len() as int)[j + 1]);
                    }
                }
                assert(cs0.subrange(0, k + 1) =~= cs0.subrange(0, k).push(cs0[k]));
                lemma_b_remove_conns_push(cs0.subrange(0, k), cs0[k], connection_id);
            }
            if c.connection_id != connection_id {
                let ghost kv = kept@.map_values(|c: BroadcastConn| c@);
                kept.push(c);
                proof {
                    assert(kept@.map_values(|c: BroadcastConn| c@) =~= kv.push(cs0[k]));
                }
            }
        }
        proof {
            assert(cs0.subrange(0, cs0.len() as int) =~= cs0);
        }
        if kept.len() == 0 {
            proof {
                let vd = spec_b_disconnect(v0, id@, connection_id);
                assert(b_remove_conns(v0[u as int].conns, connection_id).len() == 0);
                assert(self@ =~= vd);
                lemma_b_disconnect_preserves_inv(v0, id@, connection_id);
            }
        } else {
            self.users.insert(u, BroadcastEntry { id: eid, conns: kept });
            proof {
                let vd = spec_b_disconnect(v0, id@, connection_id);
                assert(b_remove_conns(v0[u as int].conns, connection_id).len() > 0);
                assert(self@[u as int] =~= vd[u as int]);
                assert(self@ =~= vd);
                lemma_b_disconnect_preserves_inv(v0, id@, connection_id);
            }
        }
    }

    /// Whether any connection is registered for `id`.
    pub fn contains_id(&self, id: &str) -> (r: bool)
        ensures
            r == b_has_user(self@, id@),
    {
        self.find_user(id).is_some()
    }

    /// The number of live connections currently registered for `id`.
    pub fn connection_count(&self, id: &str) -> (n: usize)
        requires
            self.wf(),
        ensures
            n == spec_b_count(self@, id@),
    {
        match self.find_user(id) {
            Some(u) => {
                proof {
                    lemma_b_user_index(self@, id@);
                }
                self.users[u].conns.len()
            },
            None => 0,
        }
    }

    /// One heartbeat tick for a connection: enqueue a ping frame with an
    /// empty payload.  Reports false, leaving the registry unchanged, when
    /// the connection is gone or its queue is closed; the heartbeat task
    /// then terminates and leaves the cleanup to the reader's exit.
    pub fn heartbeat_tick(&mut self, id: &str, connection_id: u64) -> (ok: bool)
        requires
            old(self).wf(),
        ensures
            final(self).wf(),
            ok ==> b_has_user(old(self)@, id@) && final(self)@ == spec_b_ping(
                old(self)@,
                id@,
                connection_id,
            ),
            !ok ==> final(self)@ == old(self)@,
    {
        let ghost v0 = old(self)@;
        let u = match self.find_user(id) {
            Some(u) => u,
            None => {
                return false;
            },
        };
        proof {
            lemma_b_user_index(v0, id@);
            assert(u as int == b_user_index(v0, id@));
        }
        let j = match Self::find_conn(&self.users[u].conns, connection_id) {
            Some(j) => j,
            None => {
                return false;
            },
        };
        let ghost cs = v0[u as int].conns;
        proof {
            lemma_b_conn_index(cs, connection_id);
            assert(j as int == b_conn_index(cs, connection_id));
        }
        let eref = &mut self.users[u];
        let cref = &mut eref.conns[j];
        let sent = cref.queue.enqueue(Message::Ping(Vec::new()));
        proof {
            if sent {
                let vp = spec_b_ping(v0, id@, connection_id);
                assert(self@[u as int].conns =~= vp[u as int].conns) by {
                    assert(self@[u as int].conns[j as int].sent =~= cs[j as int].sent.push(
                        MessageView::Ping(Seq::empty()),
                    ));
                    assert(self@[u as int].conns[j as int] =~= vp[u as int].conns[j as int]);
                }
                assert(self@[u as int] =~= vp[u as int]);
                assert(self@ =~= vp);
                lemma_b_ping_preserves_inv(v0, id@, connection_id);
            } else {
                assert(self@[u as int].conns =~= v0[u as int].conns);
                assert(self@[u as int] =~= v0[u as int]);
                assert(self@ =~= v0);
            }
        }
        sent
    }

    /// Handle one broadcast publish addressed to `id`.
    ///
    /// The body is encoded according to its content type and fanned out to
    /// every connection of the identifier.  The handles of the connections
    /// whose queue turned out closed come back with the outcome; they are
    /// pruned before the call returns, and an identifier left without
    /// connections is dropped.  A request with a non-empty identifier and a
    /// well-encoded body is accepted no matter how many recipients are left.
    pub fn broadcast_publish(&mut self, id: &str, content_type: &str, body: Vec<u8>) -> (r: (BroadcastOutcome, Vec<u64>))
        requires
            old(self).wf(),
        ensures
            final(self).wf(),
            id@.len() == 0 ==> r.0 is EmptyId && final(self)@ == old(self)@ && r.1@.len() == 0,
            id@.len() > 0 ==> (match spec_encode(content_type@, body@) {
                None => r.0 is InvalidUtf8 && final(self)@ == old(self)@ && r.1@.len() == 0,
                Some(m) => r.0 is Accepted && final(self)@ == spec_b_publish(
                    old(self)@,
                    id@,
                    r.1@,
                    m,
                ) && (forall|j: int|
                    0 <= j < r.1@.len() ==> b_has_user(old(self)@, id@) && b_has_conn_in(
                        old(self)@[b_user_index(old(self)@, id@)].conns,
                        #[trigger] r.1@[j],
                    )),
            }),
    {
        let ghost v0 = old(self)@;
        if id.is_empty() {
            return (BroadcastOutcome::EmptyId, Vec::new());
        }
        let msg = match encode_body(content_type, body) {
            Ok(m) => m,
            Err(_) => {
                return (BroadcastOutcome::InvalidUtf8, Vec::new());
            },
        };
        let u = match self.find_user(id) {
            Some(u) => u,
            None => {
                return (BroadcastOutcome::Accepted, Vec::new());
            },
        };
        proof {
            lemma_b_user_index(v0, id@);
            assert(u as int == b_user_index(v0, id@));
        }
        let e = self.users.remove(u);
        let BroadcastEntry { id: eid, conns: mut cs } = e;
        proof {
            assert(eid@ == v0[u as int].id);
        }
        let ghost cs0 = v0[u as int].conns;
        proof {
            assert(cs@.map_values(|c: BroadcastConn| c@) == cs0);
        }
        let mut kept: Vec<BroadcastConn> = Vec::new();
        let mut failed: Vec<u64> = Vec::new();
        proof {
            assert(kept@.map_values(|c: BroadcastConn| c@) =~= spec_fan_out(
                cs0.subrange(0, 0),
                failed@,
                msg@,
            ));
        }
        while cs.len() > 0
            invariant
                old(self).wf(),
                u < v0.len(),
                v0[u as int].id == id@,
                cs0 == v0[u as int].conns,
                b_conn_ids_distinct(cs0),
                cs@.len() <= cs0.len(),
                cs@.map_values(|c: BroadcastConn| c@) =~= cs0.subrange(
                    cs0.len() - cs@.len(),
                    cs0.len() as int,
                ),
                kept@.map_values(|c: BroadcastConn| c@) == spec_fan_out(
                    cs0.subrange(0, cs0.len() - cs@.len()),
                    failed@,
                    msg@,
                ),
                forall|j: int|
                    0 <= j < failed@.len() ==> exists|i: int|
                        0 <= i < cs0.len() - cs@.len() && cs0[i].connection_id == #[trigger] failed@[j],
            decreases cs.len(),
        {
            let ghost k = cs0.len() - cs@.len();
            let ghost prefix = cs0.subrange(0, k);
            let mut c = cs.remove(0);
            proof {
                assert(c@ == cs0.subrange(k, cs0.len() as int)[0]);
                assert(c@ == cs0[k]);
                assert(cs@.map_values(|c: BroadcastConn| c@) =~= cs0.subrange(
                    k + 1,
                    cs0.len() as int,
                )) by {
                    assert forall|j: int| 0 <= j < cs@.len() implies cs@[j]@ == cs0.subrange(
                        k + 1,
                        cs0.len() as int,
                    )[j] by {
                        assert(cs@[j]@ == cs0.subrange(k, cs0.len() as int)[j + 1]);
                    }
                }
                assert(cs0.subrange(0, k + 1) =~= prefix.push(cs0[k]));
            }
            let sent = c.queue.enqueue(msg.duplicate());
            if sent {
                proof {
                    // the handle at position k is in none of the failed set:
                    // every failed handle lies in the strict prefix and the
                    // handles are distinct
                    assert(!failed@.contains(cs0[k].connection_id)) by {
                        if failed@.contains(cs0[k].connection_id) {
                            let j = choose|j: int|
                                0 <= j < failed@.len() && failed@[j] == cs0[k].connection_id;
                            let i = choose|i: int|
                                0 <= i < k && cs0[i].connection_id == failed@[j];
                            assert(cs0[i].connection_id != cs0[k].connection_id);
                        }
                    }
                    lemma_fan_out_push(prefix, cs0[k], failed@, msg@);
                }
                let ghost kv = kept@.map_values(|c: BroadcastConn| c@);
                kept.push(c);
                proof {
                    assert(kept@.map_values(|c: BroadcastConn| c@) =~= kv.push(
                        BConnView {
                            connection_id: cs0[k].connection_id,
                            sent: cs0[k].sent.push(msg@),
                        },
                    ));
                }
            } else {
                proof {
                    assert(forall|i: int|
                        0 <= i < prefix.len() ==> (#[trigger] prefix[i]).connection_id
                            != cs0[k].connection_id);
                    assert(!b_has_conn_in(prefix, cs0[k].connection_id));
                    lemma_fan_out_failed_irrelevant(prefix, failed@, cs0[k].connection_id, msg@);
                    lemma_fan_out_push(prefix, cs0[k], failed@.push(cs0[k].connection_id), msg@);
                    assert(failed@.push(cs0[k].connection_id).contains(cs0[k].connection_id)) by {
                        assert(failed@.push(cs0[k].connection_id)[failed@.len() as int] == cs0[k].connection_id);
                    }
                }
                failed.push(c.connection_id);
            }
        }
        proof {
            assert(cs0.subrange(0, cs0.len() as int) =~= cs0);
            assert(kept@.map_values(|c: BroadcastConn| c@) == spec_fan_out(cs0, failed@, msg@));
        }
        if kept.len() == 0 {
            proof {
                let vp = spec_b_publish(v0, id@, failed@, msg@);
                assert(spec_fan_out(cs0, failed@, msg@).len() == 0);
                assert(self@ =~= vp);
                lemma_b_publish_preserves_inv(v0, id@, failed@, msg@);
            }
            (BroadcastOutcome::Accepted, failed)
        } else {
            self.users.insert(u, BroadcastEntry { id: eid, conns: kept });
            proof {
                let vp = spec_b_publish(v0, id@, failed@, msg@);
                assert(spec_fan_out(cs0, failed@, msg@).len() > 0);
                assert(self@[u as int] =~= vp[u as int]);
                assert(self@ =~= vp);
                lemma_b_publish_preserves_inv(v0, id@, failed@, msg@);
            }
            (BroadcastOutcome::Accepted, failed)
        }
    }
}

} // verus!
