//! The seed role: a registry of live peer endpoints.  A seed answers three
//! request kinds — `JOIN_REQUEST` inserts the sender, a directory request is
//! answered with every endpoint but the requester, and `DEAD_NODE` removes
//! the reported endpoint.  Anything else is dropped without a reply.

use vstd::prelude::*;

use crate::bytes::insert_unique;
use crate::bytes::push_all;
use crate::bytes::remove_first;
use crate::bytes::views;
use crate::codec::ack_reply;
use crate::codec::build_ack_reply;
use crate::codec::build_directory_reply;
use crate::codec::dead_node_tag;
use crate::codec::directory_reply;
use crate::codec::get_nodes_tag;
use crate::codec::join_request_tag;
use crate::codec::parse_fields;
use crate::codec::parsed_fields;

verus! {

/// A seed process's state: its identity and the directory of peer
/// endpoints that have joined and not since been reported dead.
pub struct Seed {
    /// Small integer identity, for log lines.
    pub seed_no: i32,
    /// The directory: endpoints of live peers, each listed once.
    pub connected_networks: Vec<Vec<u8>>,
}

impl Seed {
    /// The directory as a sequence of endpoint byte strings.
    pub open spec fn networks(self) -> Seq<Seq<u8>> {
        views(self.connected_networks@)
    }

    /// Well-formed: no endpoint is listed twice.
    pub open spec fn wf(self) -> bool {
        self.networks().no_duplicates()
    }

    /// A fresh seed with an empty directory.
    pub fn new(seed_no: i32) -> (r: Seed)
        ensures
            r.wf(),
            r.seed_no == seed_no,
            r.networks() == Seq::<Seq<u8>>::empty(),
    {
        let r = Seed { seed_no, connected_networks: Vec::new() };
        proof {
            assert(r.networks() =~= Seq::<Seq<u8>>::empty());
        }
        r
    }

    /// Handles one inbound frame and yields the reply to write back, if the
    /// protocol owes one.
    ///
    /// `JOIN_REQUEST|addr|ts` inserts `addr` (idempotently) and acks;
    /// `GET_CONNECTED_NODES_REQUEST|addr|ts` answers with the directory
    /// minus the requester; `DEAD_NODE|addr|ts|reporter` removes `addr`;
    /// any other frame changes nothing and gets no reply.
    pub fn handle_message(&mut self, raw: &[u8]) -> (reply: Option<Vec<u8>>)
        requires
            old(self).wf(),
        ensures
            final(self).wf(),
            final(self).seed_no == old(self).seed_no,
            ({
                let fs = parsed_fields(raw@);
                &&& (fs[0] == join_request_tag() && fs.len() >= 2) ==> {
                    &&& forall|a: Seq<u8>|
                        final(self).networks().contains(a) <==> (
                        old(self).networks().contains(a) || a == fs[1])
                    &&& reply is Some
                    &&& reply->0@ == ack_reply(fs[1])
                }
                &&& (fs[0] == get_nodes_tag() && fs.len() >= 2) ==> {
                    &&& *final(self) == *old(self)
                    &&& reply is Some
                    &&& exists|others: Seq<Seq<u8>>|
                        {
                            &&& reply->0@ == directory_reply(others)
                            &&& others.no_duplicates()
                            &&& forall|a: Seq<u8>|
                                others.contains(a) <==> (old(self).networks().contains(a) && a
                                    != fs[1])
                        }
                }
                &&& (fs[0] == dead_node_tag() && fs.len() >= 4) ==> {
                    &&& forall|a: Seq<u8>|
                        final(self).networks().contains(a) <==> (
                        old(self).networks().contains(a) && a != fs[1])
                    &&& reply is None
                }
                &&& (!(fs[0] == join_request_tag() && fs.len() >= 2) && !(fs[0] == get_nodes_tag()
                    && fs.len() >= 2) && !(fs[0] == dead_node_tag() && fs.len() >= 4)) ==> {
                    &&& *final(self) == *old(self)
                    &&& reply is None
                }
            }),
    {
        let fields = parse_fields(raw);
        let ghost fs = parsed_fields(raw@);
        let tag = fields[0].as_slice();
        if crate::bytes::bytes_eq(tag, crate::codec::join_request_tag_vec().as_slice())
            && fields.len() >= 2 {
            let mut addr: Vec<u8> = Vec::new();
            push_all(&mut addr, fields[1].as_slice());
            proof {
                assert(addr@ =~= fs[1]);
            }
            let ack = build_ack_reply(addr.as_slice());
            let ghost nets0 = self.networks();
            insert_unique(&mut self.connected_networks, addr);
            proof {
                if nets0.contains(fs[1]) {
                    assert forall|a: Seq<u8>|
                        self.networks().contains(a) <==> (nets0.contains(a) || a == fs[1]) by {}
                } else {
                    assert forall|a: Seq<u8>|
                        self.networks().contains(a) <==> (nets0.contains(a) || a == fs[1]) by {
                        if a == fs[1] {
                            assert(self.networks()[self.networks().len() - 1] == fs[1]);
                        } else if self.networks().contains(a) {
                            let t = choose|t: int|
                                0 <= t < self.networks().len() && self.networks()[t] == a;
                            assert(nets0[t] == a);
                        } else if nets0.contains(a) {
                            let t = choose|t: int| 0 <= t < nets0.len() && nets0[t] == a;
                            assert(self.networks()[t] == a);
                        }
                    }
                }
            }
            Some(ack)
        } else if crate::bytes::bytes_eq(tag, crate::codec::get_nodes_tag_vec().as_slice())
            && fields.len() >= 2 {
            let requester = fields[1].as_slice();
            let mut others: Vec<Vec<u8>> = Vec::new();
            let mut i: usize = 0;
            while i < self.connected_networks.len()
                invariant
                    0 <= i <= self.connected_networks@.len(),
                    self.wf(),
                    views(others@).no_duplicates(),
                    forall|a: Seq<u8>|
                        views(others@).contains(a) <==> (exists|j: int|
                            0 <= j < i && #[trigger] self.networks()[j] == a && a != requester@),
                decreases self.connected_networks@.len() - i,
            {
                let entry = self.connected_networks[i].as_slice();
                let ghost cur = self.networks()[i as int];
                proof {
                    assert(cur == entry@);
                }
                if !crate::bytes::bytes_eq(entry, requester) {
                    let mut c: Vec<u8> = Vec::new();
                    push_all(&mut c, entry);
                    proof {
                        assert(c@ =~= entry@);
                    }
                    let ghost o0 = views(others@);
                    others.push(c);
                    proof {
                        assert(views(others@) =~= o0.push(cur));
                        if o0.contains(cur) {
                            let j = choose|j: int|
                                0 <= j < i && #[trigger] self.networks()[j] == cur && cur
                                    != requester@;
                            assert(false);
                        }
                        assert(views(others@).no_duplicates());
                        assert forall|a: Seq<u8>|
                            views(others@).contains(a) <==> (exists|j: int|
                                0 <= j < i + 1 && #[trigger] self.networks()[j] == a && a
                                    != requester@) by {
                            if views(others@).contains(a) {
                                let t = choose|t: int|
                                    0 <= t < views(others@).len() && views(others@)[t] == a;
                                if t < o0.len() {
                                    assert(o0[t] == a);
                                    assert(o0.contains(a));
                                } else {
                                    assert(a == cur);
                                    assert(self.networks()[i as int] == a && a != requester@);
                                }
                            }
                            if exists|j: int|
                                0 <= j < i + 1 && #[trigger] self.networks()[j] == a && a
                                    != requester@ {
                                let j = choose|j: int|
                                    0 <= j < i + 1 && #[trigger] self.networks()[j] == a && a
                                        != requester@;
                                if j < i as int {
                                    assert(o0.contains(a));
                                    let t = choose|t: int| 0 <= t < o0.len() && o0[t] == a;
                                    assert(views(others@)[t] == a);
                                } else {
                                    assert(views(others@)[views(others@).len() - 1] == a);
                                }
                            }
                        }
                    }
                } else {
                    proof {
                        assert(cur == requester@);
                        assert forall|a: Seq<u8>|
                            views(others@).contains(a) <==> (exists|j: int|
                                0 <= j < i + 1 && #[trigger] self.networks()[j] == a && a
                                    != requester@) by {
                            if exists|j: int|
                                0 <= j < i + 1 && #[trigger] self.networks()[j] == a && a
                                    != requester@ {
                                let j = choose|j: int|
                                    0 <= j < i + 1 && #[trigger] self.networks()[j] == a && a
                                        != requester@;
                                assert(j < i as int);
                            }
                        }
                    }
                }
                i += 1;
            }
            let reply = build_directory_reply(&others);
            proof {
                let others_v = views(others@);
                assert forall|a: Seq<u8>|
                    others_v.contains(a) <==> (self.networks().contains(a) && a != fs[1]) by {}
            }
            Some(reply)
        } else if crate::bytes::bytes_eq(tag, crate::codec::dead_node_tag_vec().as_slice())
            && fields.len() >= 4 {
            let dead = fields[1].as_slice();
            let _found = remove_first(&mut self.connected_networks, dead);
            None
        } else {
            None
        }
    }
}

/// Directory replies never name the requester: a reply the seed builds
/// without peer `x` parses, on the peer side, to a token list without `x`.
pub proof fn lemma_directory_reply_excludes_requester(others: Seq<Seq<u8>>, x: Seq<u8>)
    requires
        forall|i: int|
            0 <= i < others.len() ==> crate::codec::is_clean_endpoint(#[trigger] others[i]),
        !others.contains(x),
        x.len() > 0,
    ensures
        !crate::codec::extract_nodes_spec(crate::codec::directory_reply(others)).contains(x),
{
    crate::codec::lemma_extract_directory(others);
    let parsed = crate::codec::extract_nodes_spec(crate::codec::directory_reply(others));
    if others.len() > 0 {
        assert(parsed == others);
    } else {
        assert(parsed == seq![Seq::<u8>::empty()]);
        if parsed.contains(x) {
            let t = choose|t: int| 0 <= t < parsed.len() && parsed[t] == x;
            assert(parsed[0] == x);
        }
    }
}

} // verus!
