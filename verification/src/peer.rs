//! The peer role: joins via seeds, keeps up to four neighbors, floods
//! gossip with duplicate suppression, and evicts neighbors that stop
//! answering liveness probes.  Every method here is a pure state step; the
//! caller performs the sends these steps prescribe.

use vstd::prelude::*;

use crate::bytes::bytes_eq;
use crate::bytes::contains_bytes;
use crate::bytes::insert_unique;
use crate::bytes::push_all;
use crate::bytes::views;
use crate::clock::format_timestamp;
use crate::clock::now_unix_millis;
use crate::clock::is_valid_timestamp;
use crate::clock::timestamp_str;
use crate::clock::timestamp_value;
use crate::codec::dead_node_frame;
use crate::codec::extract_nodes;
use crate::codec::extract_nodes_spec;
use crate::codec::get_nodes_frame;
use crate::codec::join_frame;
use crate::codec::gossip_frame;
use crate::codec::liveness_reply_frame;
use crate::codec::liveness_reply_tag;
use crate::codec::liveness_request_frame;
use crate::codec::liveness_request_tag;
use crate::codec::parse_fields;
use crate::codec::parsed_fields;
use crate::sampler::select_k_nodes;

verus! {

/// A neighbor's last-seen record: endpoint and the local-clock millisecond
/// of its most recent liveness reply.
pub open spec fn times_view(v: Seq<(Vec<u8>, i32)>) -> Seq<(Seq<u8>, i32)> {
    v.map_values(|p: (Vec<u8>, i32)| (p.0@, p.1))
}

/// The message list after a gossip payload arrives: sets never hold a
/// payload twice.
pub open spec fn receive_gossip(msgs: Seq<Seq<u8>>, m: Seq<u8>) -> Seq<Seq<u8>> {
    if msgs.contains(m) {
        msgs
    } else {
        msgs.push(m)
    }
}

/// Whether a peer floods a gossip payload onward: only one it has never
/// observed before.
pub open spec fn gossip_floods(msgs: Seq<Seq<u8>>, m: Seq<u8>) -> bool {
    !msgs.contains(m)
}

/// A payload received twice is flooded at most once: after any receipt of
/// `m` the message list holds `m`, a further receipt does not flood, and
/// the list no longer changes.
pub proof fn lemma_flood_at_most_once(msgs: Seq<Seq<u8>>, m: Seq<u8>)
    ensures
        receive_gossip(msgs, m).contains(m),
        !gossip_floods(receive_gossip(msgs, m), m),
        receive_gossip(receive_gossip(msgs, m), m) == receive_gossip(msgs, m),
{
    if !msgs.contains(m) {
        assert(receive_gossip(msgs, m)[msgs.len() as int] == m);
    }
}

/// Inserts `tok` into the node set unless it names `local` itself.
fn insert_unless_local(nodes: &mut Vec<Vec<u8>>, tok: &[u8], local: &[u8])
    requires
        views(old(nodes)@).no_duplicates(),
        !views(old(nodes)@).contains(local@),
    ensures
        views(final(nodes)@).no_duplicates(),
        !views(final(nodes)@).contains(local@),
        views(final(nodes)@) == if tok@ == local@ || views(old(nodes)@).contains(tok@) {
            views(old(nodes)@)
        } else {
            views(old(nodes)@).push(tok@)
        },
{
    if !bytes_eq(tok, local) {
        let mut c: Vec<u8> = Vec::new();
        push_all(&mut c, tok);
        proof {
            assert(c@ =~= tok@);
        }
        let ghost nb0 = views(nodes@);
        insert_unique(nodes, c);
        proof {
            broadcast use vstd::seq_lib::lemma_seq_contains_after_push;

            assert(views(nodes@) == nb0 || views(nodes@) == nb0.push(tok@));
        }
    }
}

/// The node set after the tokens of one directory reply are folded in, in
/// order: each token is appended unless it is `local` or already present.
pub open spec fn absorb_model(n0: Seq<Seq<u8>>, toks: Seq<Seq<u8>>, local: Seq<u8>) -> Seq<Seq<u8>>
    decreases toks.len(),
{
    if toks.len() == 0 {
        n0
    } else {
        let prev = absorb_model(n0, toks.drop_last(), local);
        if toks.last() == local || prev.contains(toks.last()) {
            prev
        } else {
            prev.push(toks.last())
        }
    }
}

/// What `absorb_model` holds: the old nodes plus every token that is
/// neither the peer itself nor a duplicate.
pub proof fn lemma_absorb_model(n0: Seq<Seq<u8>>, toks: Seq<Seq<u8>>, local: Seq<u8>)
    requires
        n0.no_duplicates(),
        !n0.contains(local),
    ensures
        absorb_model(n0, toks, local).no_duplicates(),
        !absorb_model(n0, toks, local).contains(local),
        forall|a: Seq<u8>|
            #[trigger] absorb_model(n0, toks, local).contains(a) <==> (n0.contains(a) || (
            toks.contains(a) && a != local)),
    decreases toks.len(),
{
    broadcast use vstd::seq_lib::lemma_seq_contains_after_push;

    if toks.len() == 0 {
    } else {
        lemma_absorb_model(n0, toks.drop_last(), local);
        assert(toks =~= toks.drop_last().push(toks.last()));
        assert(forall|a: Seq<u8>| #[trigger] toks.contains(a) <==> (toks.drop_last().contains(a)
            || a == toks.last()));
        let prev = absorb_model(n0, toks.drop_last(), local);
        if !(toks.last() == local || prev.contains(toks.last())) {
            assert(absorb_model(n0, toks, local) == prev.push(toks.last()));
            assert(absorb_model(n0, toks, local).no_duplicates());
        }
    }
}

/// Inserts every token but `local` into the node set, keeping it a set.
fn absorb_tokens(nodes: &mut Vec<Vec<u8>>, tokens: &Vec<Vec<u8>>, local: &[u8])
    requires
        views(old(nodes)@).no_duplicates(),
        !views(old(nodes)@).contains(local@),
    ensures
        views(final(nodes)@).no_duplicates(),
        !views(final(nodes)@).contains(local@),
        views(final(nodes)@) == absorb_model(views(old(nodes)@), views(tokens@), local@),
{
    let ghost n0 = views(old(nodes)@);
    let ghost toks = views(tokens@);
    let mut i: usize = 0;
    proof {
        assert(toks.take(0).len() == 0);
        assert(absorb_model(n0, toks.take(0), local@) == n0);
    }
    while i < tokens.len()
        invariant
            0 <= i <= tokens@.len(),
            toks == views(tokens@),
            n0 == views(old(nodes)@),
            n0.no_duplicates(),
            !n0.contains(local@),
            views(nodes@).no_duplicates(),
            !views(nodes@).contains(local@),
            views(nodes@) == absorb_model(n0, toks.take(i as int), local@),
        decreases tokens@.len() - i,
    {
        let ghost iprev: int = i as int;
        let tok = tokens[i].as_slice();
        let ghost cur = toks[iprev];
        proof {
            assert(cur == tok@);
        }
        insert_unless_local(nodes, tok, local);
        proof {
            let t1 = toks.take(iprev + 1);
            assert(t1.drop_last() =~= toks.take(iprev));
            assert(t1.last() == cur);
            assert(absorb_model(n0, t1, local@) == views(nodes@));
        }
        i += 1;
        proof {
            assert(toks.take(i as int) == toks.take(iprev + 1));
        }
    }
    proof {
        assert(toks.take(toks.len() as int) =~= toks);
    }
}

/// The last-seen table after a liveness reply from `who`: that neighbor's
/// stamp becomes `now`; every other entry is untouched.  A reply from an
/// endpoint with no entry changes nothing.
pub open spec fn touch_times(tv: Seq<(Seq<u8>, i32)>, who: Seq<u8>, now: i32) -> Seq<
    (Seq<u8>, i32),
> {
    Seq::new(
        tv.len(),
        |j: int|
            if tv[j].0 == who {
                (tv[j].0, now)
            } else {
                tv[j]
            },
    )
}

/// The keys of a last-seen table.
pub open spec fn times_keys(tv: Seq<(Seq<u8>, i32)>) -> Seq<Seq<u8>> {
    tv.map_values(|e: (Seq<u8>, i32)| e.0)
}

/// The neighbors the sweeper schedules for eviction: those whose last
/// liveness reply lies more than 39000 ms in the past — three missed
/// probes.
pub open spec fn stale_keys(tv: Seq<(Seq<u8>, i32)>, now: i32) -> Seq<Seq<u8>>
    decreases tv.len(),
{
    if tv.len() == 0 {
        Seq::empty()
    } else {
        let prev = stale_keys(tv.drop_last(), now);
        if now - tv.last().1 > 39000 {
            prev.push(tv.last().0)
        } else {
            prev
        }
    }
}

/// The last-seen entries that survive one sweep.
pub open spec fn live_entries(tv: Seq<(Seq<u8>, i32)>, now: i32) -> Seq<(Seq<u8>, i32)>
    decreases tv.len(),
{
    if tv.len() == 0 {
        Seq::empty()
    } else {
        let prev = live_entries(tv.drop_last(), now);
        if now - tv.last().1 > 39000 {
            prev
        } else {
            prev.push(tv.last())
        }
    }
}

/// The node set without the dead endpoints, order kept.
pub open spec fn remove_all(nodes: Seq<Seq<u8>>, dead: Seq<Seq<u8>>) -> Seq<Seq<u8>>
    decreases nodes.len(),
{
    if nodes.len() == 0 {
        Seq::empty()
    } else {
        let prev = remove_all(nodes.drop_last(), dead);
        if dead.contains(nodes.last()) {
            prev
        } else {
            prev.push(nodes.last())
        }
    }
}

/// The `(seed, frame)` sends of one sweep: for each evicted endpoint, one
/// `DEAD_NODE` frame addressed to each seed, in order.
pub open spec fn dead_pairs(
    dead: Seq<Seq<u8>>,
    seeds: Seq<Seq<u8>>,
    ts: Seq<u8>,
    local: Seq<u8>,
) -> Seq<(Seq<u8>, Seq<u8>)>
    decreases dead.len(),
{
    if dead.len() == 0 {
        Seq::empty()
    } else {
        dead_pairs(dead.drop_last(), seeds, ts, local) + Seq::new(
            seeds.len(),
            |j: int| (seeds[j], dead_node_frame(dead.last(), ts, local)),
        )
    }
}

/// The views of a sequence of `(seed, frame)` pairs.
pub open spec fn pair_views(v: Seq<(Vec<u8>, Vec<u8>)>) -> Seq<(Seq<u8>, Seq<u8>)> {
    v.map_values(|p: (Vec<u8>, Vec<u8>)| (p.0@, p.1@))
}

/// Eviction is exact: an endpoint is scheduled by the sweeper if and only
/// if some entry of the table names it with a stamp more than 39000 ms
/// old.
pub proof fn lemma_stale_keys(tv: Seq<(Seq<u8>, i32)>, now: i32)
    ensures
        forall|k: Seq<u8>|
            #[trigger] stale_keys(tv, now).contains(k) <==> exists|j: int|
                0 <= j < tv.len() && (#[trigger] tv[j]).0 == k && now - tv[j].1 > 39000,
    decreases tv.len(),
{
    broadcast use vstd::seq_lib::lemma_seq_contains_after_push;

    if tv.len() == 0 {
    } else {
        lemma_stale_keys(tv.drop_last(), now);
        let d = tv.drop_last();
        assert forall|k: Seq<u8>|
            #[trigger] stale_keys(tv, now).contains(k) <==> exists|j: int|
                0 <= j < tv.len() && (#[trigger] tv[j]).0 == k && now - tv[j].1 > 39000 by {
            if stale_keys(tv, now).contains(k) {
                if stale_keys(d, now).contains(k) {
                    let j = choose|j: int|
                        0 <= j < d.len() && (#[trigger] d[j]).0 == k && now - d[j].1 > 39000;
                    assert(tv[j].0 == k && now - tv[j].1 > 39000);
                } else {
                    assert(tv[tv.len() - 1].0 == k && now - tv[tv.len() - 1].1 > 39000);
                }
            }
            if exists|j: int|
                0 <= j < tv.len() && (#[trigger] tv[j]).0 == k && now - tv[j].1 > 39000 {
                let j = choose|j: int|
                    0 <= j < tv.len() && (#[trigger] tv[j]).0 == k && now - tv[j].1 > 39000;
                if j < tv.len() - 1 {
                    assert(d[j].0 == k && now - d[j].1 > 39000);
                    assert(stale_keys(d, now).contains(k));
                }
            }
        }
    }
}

/// What survives a sweep: entries of the old table, stamps fresh enough,
/// keys distinct and none of them stale.
proof fn lemma_sweep_partition(tv: Seq<(Seq<u8>, i32)>, now: i32)
    requires
        times_keys(tv).no_duplicates(),
    ensures
        times_keys(live_entries(tv, now)).no_duplicates(),
        forall|j: int|
            0 <= j < live_entries(tv, now).len() ==> tv.contains(
                #[trigger] live_entries(tv, now)[j],
            ) && !stale_keys(tv, now).contains(live_entries(tv, now)[j].0),
    decreases tv.len(),
{
    broadcast use vstd::seq_lib::lemma_seq_contains_after_push;

    if tv.len() == 0 {
    } else {
        let d = tv.drop_last();
        assert forall|t: int, u: int|
            0 <= t < d.len() && 0 <= u < d.len() && t != u implies times_keys(d)[t] != times_keys(
            d,
        )[u] by {
            assert(times_keys(tv)[t] == times_keys(d)[t]);
            assert(times_keys(tv)[u] == times_keys(d)[u]);
        }
        assert(times_keys(d).no_duplicates());
        lemma_sweep_partition(d, now);
        lemma_stale_keys(tv, now);
        lemma_stale_keys(d, now);
        let live = live_entries(tv, now);
        let ld = live_entries(d, now);
        assert forall|j: int| 0 <= j < ld.len() implies tv.contains(#[trigger] ld[j]) by {
            assert(d.contains(ld[j]));
            let t = choose|t: int| 0 <= t < d.len() && d[t] == ld[j];
            assert(tv[t] == ld[j]);
        }
        assert forall|j: int|
            0 <= j < ld.len() implies !stale_keys(tv, now).contains(ld[j].0) by {
            if stale_keys(tv, now).contains(ld[j].0) {
                let x = choose|x: int|
                    0 <= x < tv.len() && (#[trigger] tv[x]).0 == ld[j].0 && now - tv[x].1 > 39000;
                assert(d.contains(ld[j]));
                let t = choose|t: int| 0 <= t < d.len() && d[t] == ld[j];
                assert(times_keys(tv)[t] == ld[j].0);
                assert(times_keys(tv)[x] == ld[j].0);
                if t != x {
                    assert(false);
                } else {
                    assert(!stale_keys(d, now).contains(ld[j].0));
                    assert(now - tv[t].1 <= 39000) by {
                        if now - d[t].1 > 39000 {
                            assert(stale_keys(d, now).contains(d[t].0));
                        }
                    }
                }
            }
        }
        if now - tv.last().1 > 39000 {
        } else {
            assert(live == ld.push(tv.last()));
            assert forall|t: int, u: int|
                0 <= t < times_keys(live).len() && 0 <= u < times_keys(live).len() && t != u
                implies times_keys(live)[t] != times_keys(live)[u] by {
                if t < ld.len() && u < ld.len() {
                    assert(times_keys(live)[t] == times_keys(ld)[t]);
                    assert(times_keys(live)[u] == times_keys(ld)[u]);
                } else {
                    let w: int = if t < ld.len() { t } else { u };
                    assert(times_keys(live)[w] == times_keys(ld)[w]);
                    assert(tv.contains(ld[w]));
                    let x = choose|x: int| 0 <= x < tv.len() && tv[x] == ld[w];
                    assert(times_keys(tv)[x] == ld[w].0);
                    if ld[w].0 == tv.last().0 {
                        assert(times_keys(tv)[tv.len() - 1] == tv.last().0);
                        if x != tv.len() - 1 {
                            assert(false);
                        } else {
                            assert(d.contains(ld[w]));
                            let y = choose|y: int| 0 <= y < d.len() && d[y] == ld[w];
                            assert(times_keys(tv)[y] == ld[w].0);
                            assert(false);
                        }
                    }
                }
            }
            assert(times_keys(live).no_duplicates());
            assert forall|j: int| 0 <= j < live.len() implies tv.contains(#[trigger] live[j])
                && !stale_keys(tv, now).contains(live[j].0) by {
                if j < ld.len() {
                    assert(live[j] == ld[j]);
                } else {
                    assert(live[j] == tv.last());
                    assert(tv[tv.len() - 1] == tv.last());
                    if stale_keys(tv, now).contains(tv.last().0) {
                        let x = choose|x: int|
                            0 <= x < tv.len() && (#[trigger] tv[x]).0 == tv.last().0 && now
                                - tv[x].1 > 39000;
                        assert(times_keys(tv)[x] == tv.last().0);
                        assert(times_keys(tv)[tv.len() - 1] == tv.last().0);
                        if x != tv.len() - 1 {
                            assert(false);
                        }
                    }
                }
            }
        }
    }
}

/// What `remove_all` holds: the nodes that are not dead, still a set.
pub proof fn lemma_remove_all(nodes: Seq<Seq<u8>>, dead: Seq<Seq<u8>>)
    requires
        nodes.no_duplicates(),
    ensures
        remove_all(nodes, dead).no_duplicates(),
        forall|a: Seq<u8>|
            #[trigger] remove_all(nodes, dead).contains(a) <==> (nodes.contains(a)
                && !dead.contains(a)),
    decreases nodes.len(),
{
    broadcast use vstd::seq_lib::lemma_seq_contains_after_push;

    if nodes.len() == 0 {
    } else {
        let d = nodes.drop_last();
        assert forall|t: int, u: int|
            0 <= t < d.len() && 0 <= u < d.len() && t != u implies d[t] != d[u] by {
            assert(nodes[t] == d[t]);
            assert(nodes[u] == d[u]);
        }
        assert(d.no_duplicates());
        lemma_remove_all(d, dead);
        assert(nodes =~= d.push(nodes.last()));
        assert(forall|a: Seq<u8>| #[trigger] nodes.contains(a) <==> (d.contains(a) || a
            == nodes.last()));
        if !dead.contains(nodes.last()) {
            assert(remove_all(nodes, dead) == remove_all(d, dead).push(nodes.last()));
            if remove_all(d, dead).contains(nodes.last()) {
                assert(d.contains(nodes.last()));
                let t = choose|t: int| 0 <= t < d.len() && d[t] == nodes.last();
                assert(nodes[t] == nodes[nodes.len() - 1]);
                assert(false);
            }
            assert(remove_all(nodes, dead).no_duplicates());
        }
    }
}

/// What a peer does with one inbound frame.
pub enum PeerAction {
    /// Open a fresh connection to `target` and write `frame`.
    Reply { target: Vec<u8>, frame: Vec<u8> },
    /// Write `frame` to every endpoint in `targets`.
    Flood { targets: Vec<Vec<u8>>, frame: Vec<u8> },
    /// Nothing to send.
    Silent,
}

/// A peer process's state.
pub struct Peer {
    /// Small integer identity: the position in the local address file.
    pub peer_no: i32,
    /// This peer's own `ip:port`.
    pub local_addr: Vec<u8>,
    /// The seeds this peer registered with, chosen once at startup.
    pub seed_nodes: Vec<Vec<u8>>,
    /// Neighbor endpoints currently considered alive.
    pub connected_nodes: Vec<Vec<u8>>,
    /// Gossip payloads already observed, for duplicate suppression.
    pub message_list: Vec<Vec<u8>>,
    /// Wall-clock origin of the peer's local `MM:SS:mmm` clock.
    pub creation_ms: i64,
    /// Last-seen local-clock millisecond per probed neighbor.
    pub connection_times: Vec<(Vec<u8>, i32)>,
}

impl Peer {
    /// The neighbor set, as byte strings.
    pub open spec fn neighbors(self) -> Seq<Seq<u8>> {
        views(self.connected_nodes@)
    }

    /// The observed-payload set, as byte strings.
    pub open spec fn messages(self) -> Seq<Seq<u8>> {
        views(self.message_list@)
    }

    /// The chosen seeds, as byte strings.
    pub open spec fn seeds(self) -> Seq<Seq<u8>> {
        views(self.seed_nodes@)
    }

    /// The last-seen table, as byte strings and milliseconds.
    pub open spec fn times(self) -> Seq<(Seq<u8>, i32)> {
        times_view(self.connection_times@)
    }

    /// Well-formed peer state: neighbors and messages are sets, the peer is
    /// not its own neighbor, the last-seen table tracks only neighbors, and
    /// every last-seen stamp lies inside the hour the clock can express.
    pub open spec fn wf(self) -> bool {
        &&& self.neighbors().no_duplicates()
        &&& !self.neighbors().contains(self.local_addr@)
        &&& self.messages().no_duplicates()
        &&& self.times().map_values(|e: (Seq<u8>, i32)| e.0).no_duplicates()
        &&& forall|j: int|
            0 <= j < self.times().len() ==> self.neighbors().contains(
                (#[trigger] self.times()[j]).0,
            )
        &&& forall|j: int| 0 <= j < self.times().len() ==> 0 <= (#[trigger] self.times()[j]).1
            < 3600000
    }

    /// A fresh peer: empty neighbor, message and last-seen sets; the clock
    /// origin is read from the wall clock now.
    pub fn new(peer_no: i32, local_addr: Vec<u8>, seed_nodes: Vec<Vec<u8>>) -> (r: Peer)
        ensures
            r.wf(),
            r.peer_no == peer_no,
            r.local_addr@ == local_addr@,
            r.seeds() == views(seed_nodes@),
            r.neighbors().len() == 0,
            r.messages().len() == 0,
            r.times().len() == 0,
    {
        let creation_ms = now_unix_millis();
        let r = Peer {
            peer_no,
            local_addr,
            seed_nodes,
            connected_nodes: Vec::new(),
            message_list: Vec::new(),
            creation_ms,
            connection_times: Vec::new(),
        };
        proof {
            assert(r.neighbors() =~= Seq::<Seq<u8>>::empty());
            assert(r.messages() =~= Seq::<Seq<u8>>::empty());
            assert(r.times() =~= Seq::<(Seq<u8>, i32)>::empty());
            assert(r.times().map_values(|e: (Seq<u8>, i32)| e.0) =~= Seq::<Seq<u8>>::empty());
        }
        r
    }

    /// Milliseconds of the peer's local clock, inside its hour window.
    pub fn elapsed_ms(&self) -> (r: i32)
        ensures
            0 <= r < 3600000,
    {
        let now = now_unix_millis();
        let d: i128 = now as i128 - self.creation_ms as i128;
        if d <= 0 {
            0
        } else {
            (d % 3600000) as i32
        }
    }

    /// The peer's local timestamp `MM:SS:mmm`, read from the clock now.
    pub fn elapsed_time(&self) -> (r: Vec<u8>)
        ensures
            is_valid_timestamp(r@),
            0 <= timestamp_value(r@) < 3600000,
    {
        let ms = self.elapsed_ms();
        format_timestamp(ms as u64)
    }

    /// The registration frame to send to every chosen seed.
    pub fn make_join_request(&self, ts: &[u8]) -> (r: Vec<u8>)
        ensures
            r@ == join_frame(self.local_addr@, ts@),
    {
        crate::codec::build_frame3(
            crate::codec::join_request_tag_vec().as_slice(),
            self.local_addr.as_slice(),
            ts,
        )
    }

    /// The directory request frame to send to every chosen seed.
    pub fn make_get_nodes_request(&self, ts: &[u8]) -> (r: Vec<u8>)
        ensures
            r@ == get_nodes_frame(self.local_addr@, ts@),
    {
        crate::codec::build_frame3(
            crate::codec::get_nodes_tag_vec().as_slice(),
            self.local_addr.as_slice(),
            ts,
        )
    }

    /// The failure report: one `DEAD_NODE` frame addressed to each of this
    /// peer's seeds, as `(seed, frame)` pairs.
    pub fn declare_node_dead(&self, dead_node: &[u8], ts: &[u8]) -> (r: Vec<(Vec<u8>, Vec<u8>)>)
        ensures
            r@.len() == self.seeds().len(),
            forall|j: int|
                0 <= j < r@.len() ==> (#[trigger] r@[j]).0@ == self.seeds()[j] && r@[j].1@
                    == dead_node_frame(dead_node@, ts@, self.local_addr@),
    {
        let mut r: Vec<(Vec<u8>, Vec<u8>)> = Vec::new();
        let mut i: usize = 0;
        while i < self.seed_nodes.len()
            invariant
                0 <= i <= self.seed_nodes@.len(),
                r@.len() == i,
                forall|j: int|
                    0 <= j < i ==> (#[trigger] r@[j]).0@ == self.seeds()[j] && r@[j].1@
                        == dead_node_frame(dead_node@, ts@, self.local_addr@),
            decreases self.seed_nodes@.len() - i,
        {
            let mut seed: Vec<u8> = Vec::new();
            push_all(&mut seed, self.seed_nodes[i].as_slice());
            let frame = crate::codec::build_frame4(
                crate::codec::dead_node_tag_vec().as_slice(),
                dead_node,
                ts,
                self.local_addr.as_slice(),
            );
            r.push((seed, frame));
            i += 1;
        }
        r
    }

    /// The probe decision: a neighbor still believed alive gets a
    /// `LIVENESS_REQUEST`; anything else ends the probe loop.
    pub fn probe_action(&self, target: &[u8], ts: &[u8]) -> (r: Option<Vec<u8>>)
        ensures
            self.neighbors().contains(target@) ==> r is Some && r->0@ == liveness_request_frame(
                ts@,
                self.local_addr@,
            ),
            !self.neighbors().contains(target@) ==> r is None,
    {
        if contains_bytes(&self.connected_nodes, target) {
            Some(
                crate::codec::build_frame3(
                    crate::codec::liveness_request_tag_vec().as_slice(),
                    ts,
                    self.local_addr.as_slice(),
                ),
            )
        } else {
            None
        }
    }

    /// Folds one seed's directory reply into the neighbor set.  A reply
    /// whose first token is empty contributes nothing; the peer itself is
    /// never inserted.
    pub fn absorb_directory_reply(&mut self, reply: &[u8])
        requires
            old(self).wf(),
        ensures
            final(self).wf(),
            final(self).peer_no == old(self).peer_no,
            final(self).local_addr@ == old(self).local_addr@,
            final(self).seeds() == old(self).seeds(),
            final(self).messages() == old(self).messages(),
            final(self).times() == old(self).times(),
            final(self).creation_ms == old(self).creation_ms,
            ({
                let toks = extract_nodes_spec(reply@);
                &&& (toks[0].len() > 0) ==> forall|a: Seq<u8>|
                    final(self).neighbors().contains(a) <==> (old(self).neighbors().contains(a) || (
                    toks.contains(a) && a != old(self).local_addr@))
                &&& (toks[0].len() == 0) ==> final(self).neighbors() == old(self).neighbors()
            }),
    {
        let tokens = extract_nodes(reply);
        let ghost toks = extract_nodes_spec(reply@);
        if tokens[0].len() > 0 {
            absorb_tokens(&mut self.connected_nodes, &tokens, self.local_addr.as_slice());
            proof {
                lemma_absorb_model(old(self).neighbors(), toks, old(self).local_addr@);
                assert forall|j: int|
                    0 <= j < self.times().len() implies self.neighbors().contains(
                    (#[trigger] self.times()[j]).0,
                ) by {
                    assert(old(self).neighbors().contains(old(self).times()[j].0));
                }
            }
        }
    }

    /// Caps the neighbor set at four entries by a uniform random sample, as
    /// the bootstrap prescribes; a set that small already is kept whole.
    /// Afterwards the peer has at most four neighbors, itself not among
    /// them.
    pub fn cap_neighbors(&mut self)
        requires
            old(self).wf(),
            old(self).times().len() == 0,
        ensures
            final(self).wf(),
            final(self).peer_no == old(self).peer_no,
            final(self).local_addr@ == old(self).local_addr@,
            final(self).seeds() == old(self).seeds(),
            final(self).messages() == old(self).messages(),
            final(self).times() == old(self).times(),
            final(self).creation_ms == old(self).creation_ms,
            final(self).neighbors().len() <= 4,
            forall|a: Seq<u8>|
                #[trigger] final(self).neighbors().contains(a) ==> old(self).neighbors().contains(
                    a,
                ),
            old(self).neighbors().len() <= 4 ==> final(self).neighbors() == old(self).neighbors(),
    {
        if self.connected_nodes.len() > 4 {
            let mut pool: Vec<Vec<u8>> = Vec::new();
            let mut i: usize = 0;
            while i < self.connected_nodes.len()
                invariant
                    0 <= i <= self.connected_nodes@.len(),
                    views(pool@) == self.neighbors().take(i as int),
                decreases self.connected_nodes@.len() - i,
            {
                let mut c: Vec<u8> = Vec::new();
                push_all(&mut c, self.connected_nodes[i].as_slice());
                let ghost p0 = views(pool@);
                pool.push(c);
                proof {
                    assert(views(pool@) =~= p0.push(self.neighbors()[i as int]));
                    assert(self.neighbors().take(i + 1 as int) =~= self.neighbors().take(
                        i as int,
                    ).push(self.neighbors()[i as int]));
                }
                i += 1;
            }
            proof {
                assert(self.neighbors().take(self.neighbors().len() as int) =~= self.neighbors());
            }
            let sample = select_k_nodes(pool, 4);
            let ghost n0 = self.neighbors();
            self.connected_nodes = sample;
            proof {
                assert forall|a: Seq<u8>| #[trigger] self.neighbors().contains(a) implies (
                n0.contains(a) && a != self.local_addr@) by {
                    let t = choose|t: int|
                        0 <= t < self.neighbors().len() && self.neighbors()[t] == a;
                    assert(n0.contains(self.neighbors()[t]));
                }
                assert(self.times() =~= old(self).times());
            }
        }
    }

    /// Starts failure tracking: every current neighbor gets a last-seen
    /// stamp of zero, so one that never answers is evicted on the first
    /// sweep past the threshold.
    pub fn init_connection_times(&mut self)
        requires
            old(self).wf(),
        ensures
            final(self).wf(),
            final(self).peer_no == old(self).peer_no,
            final(self).local_addr@ == old(self).local_addr@,
            final(self).seeds() == old(self).seeds(),
            final(self).messages() == old(self).messages(),
            final(self).neighbors() == old(self).neighbors(),
            final(self).creation_ms == old(self).creation_ms,
            final(self).times().len() == final(self).neighbors().len(),
            forall|j: int|
                0 <= j < final(self).times().len() ==> #[trigger] final(self).times()[j] == (
                final(self).neighbors()[j], 0i32),
    {
        let mut times: Vec<(Vec<u8>, i32)> = Vec::new();
        let mut i: usize = 0;
        while i < self.connected_nodes.len()
            invariant
                0 <= i <= self.connected_nodes@.len(),
                times_view(times@).len() == i,
                forall|j: int|
                    0 <= j < i ==> #[trigger] times_view(times@)[j] == (self.neighbors()[j], 0i32),
            decreases self.connected_nodes@.len() - i,
        {
            let mut c: Vec<u8> = Vec::new();
            push_all(&mut c, self.connected_nodes[i].as_slice());
            proof {
                assert(c@ =~= self.connected_nodes@[i as int]@);
            }
            let ghost t0 = times_view(times@);
            times.push((c, 0));
            proof {
                assert(times_view(times@) =~= t0.push((self.neighbors()[i as int], 0i32)));
            }
            i += 1;
        }
        self.connection_times = times;
        proof {
            let keys = self.times().map_values(|e: (Seq<u8>, i32)| e.0);
            assert(keys =~= self.neighbors());
        }
    }

    /// Handles one inbound frame under the peer's locks, as the listener
    /// does: a `LIVENESS_REQUEST` is answered to its sender, a
    /// `LIVENESS_REPLY` refreshes the responder's last-seen stamp, any
    /// other three-field frame is gossip — flooded to every neighbor
    /// unless its payload was already observed — and anything else is
    /// dropped.  `now_ms` is the peer's local clock at handling time.
    pub fn handle_frame(&mut self, raw: &[u8], now_ms: i32) -> (act: PeerAction)
        requires
            old(self).wf(),
            0 <= now_ms < 3600000,
        ensures
            final(self).wf(),
            final(self).peer_no == old(self).peer_no,
            final(self).local_addr@ == old(self).local_addr@,
            final(self).seeds() == old(self).seeds(),
            final(self).creation_ms == old(self).creation_ms,
            final(self).neighbors() == old(self).neighbors(),
            ({
                let fs = parsed_fields(raw@);
                let local = old(self).local_addr@;
                &&& (fs[0] == liveness_request_tag()) ==> {
                    &&& final(self).messages() == old(self).messages()
                    &&& final(self).times() == old(self).times()
                    &&& fs.len() >= 3 ==> (act matches PeerAction::Reply { target, frame }
                        && target@ == fs[2] && frame@ == liveness_reply_frame(fs[1], fs[2], local))
                    &&& fs.len() < 3 ==> act is Silent
                }
                &&& (fs[0] != liveness_request_tag() && fs[0] == liveness_reply_tag()) ==> {
                    &&& act is Silent
                    &&& final(self).messages() == old(self).messages()
                    &&& fs.len() >= 4 ==> final(self).times() == touch_times(
                        old(self).times(),
                        fs[3],
                        now_ms,
                    )
                    &&& fs.len() < 4 ==> final(self).times() == old(self).times()
                }
                &&& (fs[0] != liveness_request_tag() && fs[0] != liveness_reply_tag() && fs.len()
                    == 3) ==> {
                    let payload = fs[2];
                    &&& final(self).times() == old(self).times()
                    &&& final(self).messages() == receive_gossip(old(self).messages(), payload)
                    &&& gossip_floods(old(self).messages(), payload) ==> (act matches
                        PeerAction::Flood { targets, frame } && views(targets@) == old(
                        self,
                    ).neighbors() && frame@ == gossip_frame(
                        timestamp_str(now_ms as int),
                        local,
                        payload,
                    ))
                    &&& !gossip_floods(old(self).messages(), payload) ==> act is Silent
                }
                &&& (fs[0] != liveness_request_tag() && fs[0] != liveness_reply_tag() && fs.len()
                    != 3) ==> {
                    &&& act is Silent
                    &&& final(self).messages() == old(self).messages()
                    &&& final(self).times() == old(self).times()
                }
            }),
    {
        let fields = parse_fields(raw);
        let ghost fs = parsed_fields(raw@);
        if bytes_eq(fields[0].as_slice(), crate::codec::liveness_request_tag_vec().as_slice()) {
            if fields.len() >= 3 {
                let mut target: Vec<u8> = Vec::new();
                push_all(&mut target, fields[2].as_slice());
                proof {
                    assert(target@ =~= fs[2]);
                }
                let frame = crate::codec::build_frame4(
                    crate::codec::liveness_reply_tag_vec().as_slice(),
                    fields[1].as_slice(),
                    fields[2].as_slice(),
                    self.local_addr.as_slice(),
                );
                PeerAction::Reply { target, frame }
            } else {
                PeerAction::Silent
            }
        } else if bytes_eq(
            fields[0].as_slice(),
            crate::codec::liveness_reply_tag_vec().as_slice(),
        ) {
            if fields.len() >= 4 {
                let who = fields[3].as_slice();
                let ghost tv = old(self).times();
                let mut nt: Vec<(Vec<u8>, i32)> = Vec::new();
                let mut i: usize = 0;
                while i < self.connection_times.len()
                    invariant
                        0 <= i <= self.connection_times@.len(),
                        tv == self.times(),
                        who@ == fs[3],
                        0 <= now_ms < 3600000,
                        times_view(nt@).len() == i,
                        forall|j: int|
                            0 <= j < i ==> #[trigger] times_view(nt@)[j] == touch_times(
                                tv,
                                who@,
                                now_ms,
                            )[j],
                    decreases self.connection_times@.len() - i,
                {
                    let mut key: Vec<u8> = Vec::new();
                    push_all(&mut key, self.connection_times[i].0.as_slice());
                    proof {
                        assert(key@ =~= tv[i as int].0);
                    }
                    let val = self.connection_times[i].1;
                    let ghost t0 = times_view(nt@);
                    if bytes_eq(key.as_slice(), who) {
                        nt.push((key, now_ms));
                    } else {
                        nt.push((key, val));
                    }
                    proof {
                        assert(times_view(nt@) =~= t0.push(touch_times(tv, who@, now_ms)[i as int]));
                    }
                    i += 1;
                }
                self.connection_times = nt;
                proof {
                    assert(self.times() =~= touch_times(tv, who@, now_ms));
                    let keys0 = old(self).times().map_values(|e: (Seq<u8>, i32)| e.0);
                    let keys1 = self.times().map_values(|e: (Seq<u8>, i32)| e.0);
                    assert(keys1 =~= keys0);
                }
                PeerAction::Silent
            } else {
                PeerAction::Silent
            }
        } else if fields.len() == 3 {
            let payload = fields[2].as_slice();
            let ghost pl = fs[2];
            proof {
                assert(pl == payload@);
            }
            if contains_bytes(&self.message_list, payload) {
                PeerAction::Silent
            } else {
                let mut p: Vec<u8> = Vec::new();
                push_all(&mut p, payload);
                proof {
                    assert(p@ =~= pl);
                }
                let ghost m0 = self.messages();
                self.message_list.push(p);
                proof {
                    assert(self.messages() =~= m0.push(pl));
                    assert(self.messages().no_duplicates());
                }
                let ts = format_timestamp(now_ms as u64);
                let frame = crate::codec::build_frame3(
                    ts.as_slice(),
                    self.local_addr.as_slice(),
                    payload,
                );
                let targets = crate::bytes::copy_all(&self.connected_nodes);
                PeerAction::Flood { targets, frame }
            }
        } else {
            PeerAction::Silent
        }
    }

    /// One pass of the sweeper: every neighbor whose last liveness reply
    /// lies more than 39000 ms in the past is evicted — removed from the
    /// neighbor set and the last-seen table — and reported dead.  Returns
    /// the evicted endpoints and the `(seed, frame)` sends they require:
    /// one `DEAD_NODE` frame to each of this peer's seeds per eviction.
    pub fn sweep(&mut self, now_ms: i32) -> (r: (Vec<Vec<u8>>, Vec<(Vec<u8>, Vec<u8>)>))
        requires
            old(self).wf(),
            0 <= now_ms < 3600000,
        ensures
            final(self).wf(),
            final(self).peer_no == old(self).peer_no,
            final(self).local_addr@ == old(self).local_addr@,
            final(self).seeds() == old(self).seeds(),
            final(self).messages() == old(self).messages(),
            final(self).creation_ms == old(self).creation_ms,
            views(r.0@) == stale_keys(old(self).times(), now_ms),
            final(self).times() == live_entries(old(self).times(), now_ms),
            final(self).neighbors() == remove_all(
                old(self).neighbors(),
                stale_keys(old(self).times(), now_ms),
            ),
            pair_views(r.1@) == dead_pairs(
                stale_keys(old(self).times(), now_ms),
                old(self).seeds(),
                timestamp_str(now_ms as int),
                old(self).local_addr@,
            ),
    {
        let ghost tv = old(self).times();
        let ts = format_timestamp(now_ms as u64);
        let mut ev: Vec<Vec<u8>> = Vec::new();
        let mut live: Vec<(Vec<u8>, i32)> = Vec::new();
        let mut i: usize = 0;
        proof {
            assert(tv.take(0).len() == 0);
            assert(views(ev@) =~= stale_keys(tv.take(0), now_ms));
            assert(times_view(live@) =~= live_entries(tv.take(0), now_ms));
        }
        while i < self.connection_times.len()
            invariant
                0 <= i <= self.connection_times@.len(),
                tv == self.times(),
                old(self).wf(),
                tv == old(self).times(),
                0 <= now_ms < 3600000,
                views(ev@) == stale_keys(tv.take(i as int), now_ms),
                times_view(live@) == live_entries(tv.take(i as int), now_ms),
            decreases self.connection_times@.len() - i,
        {
            let ghost iprev: int = i as int;
            let mut key: Vec<u8> = Vec::new();
            push_all(&mut key, self.connection_times[i].0.as_slice());
            let val = self.connection_times[i].1;
            proof {
                assert(key@ =~= tv[iprev].0);
                assert(val == tv[iprev].1);
                let t1 = tv.take(iprev + 1);
                assert(t1.drop_last() =~= tv.take(iprev));
                assert(t1.last() == tv[iprev]);
            }
            if now_ms - val > 39000 {
                let ghost e0 = views(ev@);
                ev.push(key);
                proof {
                    assert(views(ev@) =~= e0.push(tv[iprev].0));
                    assert(views(ev@) == stale_keys(tv.take(iprev + 1), now_ms));
                    assert(times_view(live@) == live_entries(tv.take(iprev + 1), now_ms));
                }
            } else {
                let ghost l0 = times_view(live@);
                live.push((key, val));
                proof {
                    assert((tv[iprev].0, tv[iprev].1) == tv[iprev]);
                    assert(times_view(live@) =~= l0.push(tv[iprev]));
                    assert(views(ev@) == stale_keys(tv.take(iprev + 1), now_ms));
                    assert(times_view(live@) == live_entries(tv.take(iprev + 1), now_ms));
                }
            }
            i += 1;
            proof {
                assert(tv.take(i as int) == tv.take(iprev + 1));
            }
        }
        proof {
            assert(tv.take(tv.len() as int) =~= tv);
        }
        self.connection_times = live;
        let ghost stale = stale_keys(tv, now_ms);
        let mut kept: Vec<Vec<u8>> = Vec::new();
        let ghost n0 = views(self.connected_nodes@);
        let mut k: usize = 0;
        proof {
            assert(n0.take(0).len() == 0);
            assert(views(kept@) =~= remove_all(n0.take(0), views(ev@)));
        }
        while k < self.connected_nodes.len()
            invariant
                0 <= k <= self.connected_nodes@.len(),
                n0 == views(self.connected_nodes@),
                views(ev@) == stale,
                views(kept@) == remove_all(n0.take(k as int), views(ev@)),
            decreases self.connected_nodes@.len() - k,
        {
            let ghost kprev: int = k as int;
            let entry = self.connected_nodes[k].as_slice();
            proof {
                assert(entry@ == n0[kprev]);
                let t1 = n0.take(kprev + 1);
                assert(t1.drop_last() =~= n0.take(kprev));
                assert(t1.last() == n0[kprev]);
            }
            if !contains_bytes(&ev, entry) {
                let mut c: Vec<u8> = Vec::new();
                push_all(&mut c, entry);
                let ghost k0 = views(kept@);
                kept.push(c);
                proof {
                    assert(views(kept@) =~= k0.push(n0[kprev]));
                    assert(views(kept@) == remove_all(n0.take(kprev + 1), views(ev@)));
                }
            } else {
                proof {
                    assert(views(kept@) == remove_all(n0.take(kprev + 1), views(ev@)));
                }
            }
            k += 1;
            proof {
                assert(n0.take(k as int) == n0.take(kprev + 1));
            }
        }
        proof {
            assert(n0.take(n0.len() as int) =~= n0);
        }
        self.connected_nodes = kept;
        let ghost evv = views(ev@);
        let ghost tss = ts@;
        let ghost local = self.local_addr@;
        let ghost seeds = self.seeds();
        let mut pairs: Vec<(Vec<u8>, Vec<u8>)> = Vec::new();
        let mut x: usize = 0;
        proof {
            assert(evv.take(0).len() == 0);
            assert(pair_views(pairs@) =~= dead_pairs(evv.take(0), seeds, tss, local));
        }
        while x < ev.len()
            invariant
                0 <= x <= ev@.len(),
                evv == views(ev@),
                tss == ts@,
                local == self.local_addr@,
                seeds == self.seeds(),
                pair_views(pairs@) == dead_pairs(evv.take(x as int), seeds, tss, local),
            decreases ev@.len() - x,
        {
            let ghost xprev: int = x as int;
            let ghost p0 = pair_views(pairs@);
            let ghost block = Seq::new(
                seeds.len(),
                |j: int| (seeds[j], dead_node_frame(evv[xprev], tss, local)),
            );
            let mut j: usize = 0;
            while j < self.seed_nodes.len()
                invariant
                    0 <= j <= self.seed_nodes@.len(),
                    x < ev@.len(),
                    evv == views(ev@),
                    tss == ts@,
                    local == self.local_addr@,
                    seeds == self.seeds(),
                    xprev == x as int,
                    block == Seq::new(
                        seeds.len(),
                        |t: int| (seeds[t], dead_node_frame(evv[xprev], tss, local)),
                    ),
                    p0 == dead_pairs(evv.take(xprev), seeds, tss, local),
                    pair_views(pairs@) == p0 + block.take(j as int),
                decreases self.seed_nodes@.len() - j,
            {
                let ghost jprev: int = j as int;
                let mut seed: Vec<u8> = Vec::new();
                push_all(&mut seed, self.seed_nodes[j].as_slice());
                let frame = crate::codec::build_frame4(
                    crate::codec::dead_node_tag_vec().as_slice(),
                    ev[x].as_slice(),
                    ts.as_slice(),
                    self.local_addr.as_slice(),
                );
                let ghost q0 = pair_views(pairs@);
                pairs.push((seed, frame));
                proof {
                    assert(seed@ =~= seeds[jprev]);
                    assert(frame@ == dead_node_frame(evv[xprev], tss, local));
                    assert(pair_views(pairs@) =~= q0.push(block[jprev]));
                    assert(block.take(jprev + 1) =~= block.take(jprev).push(block[jprev]));
                    assert(p0 + block.take(jprev + 1) =~= (p0 + block.take(jprev)).push(
                        block[jprev],
                    ));
                }
                j += 1;
                proof {
                    assert(block.take(j as int) == block.take(jprev + 1));
                }
            }
            proof {
                assert(block.take(seeds.len() as int) =~= block);
                let t1 = evv.take(xprev + 1);
                assert(t1.drop_last() =~= evv.take(xprev));
                assert(t1.last() == evv[xprev]);
                assert(dead_pairs(t1, seeds, tss, local) == dead_pairs(
                    evv.take(xprev),
                    seeds,
                    tss,
                    local,
                ) + block);
                assert(pair_views(pairs@) == p0 + block);
            }
            x += 1;
            proof {
                assert(evv.take(x as int) == evv.take(xprev + 1));
            }
        }
        proof {
            assert(evv.take(evv.len() as int) =~= evv);
            lemma_sweep_partition(tv, now_ms);
            lemma_remove_all(old(self).neighbors(), stale);
            assert forall|j: int|
                0 <= j < self.times().len() implies self.neighbors().contains(
                (#[trigger] self.times()[j]).0,
            ) && 0 <= self.times()[j].1 < 3600000 by {
                let e = live_entries(tv, now_ms)[j];
                assert(tv.contains(e));
                let t = choose|t: int| 0 <= t < tv.len() && tv[t] == e;
                assert(old(self).neighbors().contains((#[trigger] tv[t]).0));
                assert(0 <= tv[t].1 < 3600000);
                assert(!stale.contains(e.0));
                assert(remove_all(old(self).neighbors(), stale).contains(e.0));
            }
            assert(self.times().map_values(|e: (Seq<u8>, i32)| e.0).no_duplicates());
        }
        (ev, pairs)
    }

    /// Composes this peer's own gossip round: the greeting payload is
    /// recorded in its message list — so its echo is never re-flooded —
    /// and framed for broadcast to every current neighbor.
    pub fn inject_gossip(&mut self, now_ms: i32) -> (r: (Vec<u8>, Vec<Vec<u8>>))
        requires
            old(self).wf(),
            0 <= now_ms < 3600000,
        ensures
            final(self).wf(),
            final(self).peer_no == old(self).peer_no,
            final(self).local_addr@ == old(self).local_addr@,
            final(self).seeds() == old(self).seeds(),
            final(self).neighbors() == old(self).neighbors(),
            final(self).times() == old(self).times(),
            final(self).creation_ms == old(self).creation_ms,
            final(self).messages() == receive_gossip(
                old(self).messages(),
                hello_payload(old(self).local_addr@),
            ),
            r.0@ == gossip_frame(
                timestamp_str(now_ms as int),
                old(self).local_addr@,
                hello_payload(old(self).local_addr@),
            ),
            views(r.1@) == old(self).neighbors(),
    {
        let mut payload: Vec<u8> = vec![72, 101, 108, 108, 111, 44, 32, 116, 104, 105, 115, 32,
            105, 115, 32, 112, 101, 101, 114, 32, 64];
        proof {
            assert(payload@ =~= hello_prefix());
        }
        push_all(&mut payload, self.local_addr.as_slice());
        payload.push(33);
        proof {
            assert(payload@ =~= hello_payload(self.local_addr@));
        }
        if !contains_bytes(&self.message_list, payload.as_slice()) {
            let mut p: Vec<u8> = Vec::new();
            push_all(&mut p, payload.as_slice());
            proof {
                assert(p@ =~= payload@);
            }
            let ghost m0 = self.messages();
            self.message_list.push(p);
            proof {
                assert(self.messages() =~= m0.push(hello_payload(self.local_addr@)));
                assert(self.messages().no_duplicates());
            }
        }
        let ts = format_timestamp(now_ms as u64);
        let frame = crate::codec::build_frame3(
            ts.as_slice(),
            self.local_addr.as_slice(),
            payload.as_slice(),
        );
        let targets = crate::bytes::copy_all(&self.connected_nodes);
        (frame, targets)
    }
}

/// `Hello, this is peer @` — the greeting each peer gossips about itself.
pub open spec fn hello_prefix() -> Seq<u8> {
    seq![72u8, 101, 108, 108, 111, 44, 32, 116, 104, 105, 115, 32, 105, 115, 32, 112, 101, 101, 114, 32, 64]
}

/// The full greeting payload: `Hello, this is peer @<local_addr>!`.
pub open spec fn hello_payload(local: Seq<u8>) -> Seq<u8> {
    hello_prefix() + local + seq![33u8]
}

/// Dead-node propagation is exact: a sweep that evicts endpoints sends one
/// `DEAD_NODE` frame per evicted endpoint per seed — no more, no fewer —
/// each naming the dead endpoint and the reporting peer.
pub proof fn lemma_dead_pairs_shape(
    dead: Seq<Seq<u8>>,
    seeds: Seq<Seq<u8>>,
    ts: Seq<u8>,
    local: Seq<u8>,
)
    ensures
        dead_pairs(dead, seeds, ts, local).len() == dead.len() * seeds.len(),
        forall|i: int, j: int|
            0 <= i < dead.len() && 0 <= j < seeds.len() ==> dead_pairs(dead, seeds, ts, local)[i
                * seeds.len() + j] == (seeds[j], dead_node_frame(dead[i], ts, local)),
    decreases dead.len(),
{
    let ps = dead_pairs(dead, seeds, ts, local);
    let sl = seeds.len() as int;
    if dead.len() == 0 {
    } else {
        lemma_dead_pairs_shape(dead.drop_last(), seeds, ts, local);
        let d = dead.drop_last();
        let prefix = dead_pairs(d, seeds, ts, local);
        let block = Seq::new(seeds.len(), |j: int| (seeds[j], dead_node_frame(dead.last(), ts, local)));
        assert(dead.len() * sl == (dead.len() - 1) * sl + sl) by (nonlinear_arith);
        assert forall|i: int, j: int|
            0 <= i < dead.len() && 0 <= j < sl implies ps[i * sl + j] == (
            seeds[j],
            dead_node_frame(dead[i], ts, local),
        ) by {
            if i < dead.len() - 1 {
                assert(0 <= i * sl + j && i * sl + j < (dead.len() - 1) * sl) by (nonlinear_arith)
                    requires
                        0 <= i < dead.len() - 1 && 0 <= j < sl,
                ;
                assert(ps[i * sl + j] == prefix[i * sl + j]);
                assert(d[i] == dead[i]);
            } else {
                assert(i * sl + j == (dead.len() - 1) * sl + j);
                assert(ps[i * sl + j] == block[j]);
                assert(dead[i] == dead.last());
            }
        }
    }
}

} // verus!
