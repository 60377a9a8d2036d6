//! The routing/send layer: it splits an outgoing byte payload into bounded
//! fragments carrying the originating session id, resolves the destination
//! in the neighbor table, and pushes the fragments into the neighbor's
//! outbound channel. An unknown destination or a disconnected channel is a
//! routing error reported to the caller, never a panic.

use vstd::prelude::*;
use crate::assembler::{FragModel, Fragment};

verus! {

/// Why a send failed.
#[derive(Debug, PartialEq, Eq)]
pub enum RoutingError {
    /// No neighbor is known under the destination peer id.
    UnknownDestination { dest: u64 },
    /// The neighbor's outbound channel is disconnected.
    ChannelClosed { dest: u64 },
    /// The neighbor's outbound channel has no room.
    ChannelFull { dest: u64 },
    /// The payload is too long for a 32-bit fragment count.
    PayloadTooLarge,
}

/// How the delivery of one fragment failed; the undelivered fragment comes
/// back with the failure.
#[derive(Debug, PartialEq, Eq)]
pub enum DeliveryError {
    /// The channel's buffer is full.
    Full { fragment: Fragment },
    /// The channel is disconnected.
    Disconnected { fragment: Fragment },
}

/// The outbound channel the first table entry for `id` holds, if any.
pub open spec fn spec_handle_in(
    s: Seq<(u64, crossbeam::channel::Sender<Fragment>)>,
    id: u64,
) -> Option<crossbeam::channel::Sender<Fragment>>
    decreases s.len(),
{
    if s.len() == 0 {
        None
    } else if s[0].0 == id {
        Some(s[0].1)
    } else {
        spec_handle_in(s.skip(1), id)
    }
}

/// When no entry among the first `i` carries the id and the `i`-th does,
/// the lookup hands back the `i`-th entry's channel.
pub proof fn lemma_handle_first(
    s: Seq<(u64, crossbeam::channel::Sender<Fragment>)>,
    id: u64,
    i: int,
)
    requires
        0 <= i < s.len(),
        forall|j: int| 0 <= j < i ==> #[trigger] s[j].0 != id,
        s[i].0 == id,
    ensures
        spec_handle_in(s, id) == Some(s[i].1),
    decreases i,
{
    if i > 0 {
        lemma_handle_first(s.skip(1), id, i - 1);
    }
}

/// When no entry carries the id, the lookup comes back empty.
pub proof fn lemma_handle_none(s: Seq<(u64, crossbeam::channel::Sender<Fragment>)>, id: u64)
    requires
        forall|j: int| 0 <= j < s.len() ==> #[trigger] s[j].0 != id,
    ensures
        spec_handle_in(s, id) is None,
    decreases s.len(),
{
    if s.len() > 0 {
        lemma_handle_none(s.skip(1), id);
    }
}

/// Cutting out an entry of another id leaves a lookup unchanged.
pub proof fn lemma_handle_remove(
    s: Seq<(u64, crossbeam::channel::Sender<Fragment>)>,
    i: int,
    x: u64,
)
    requires
        0 <= i < s.len(),
        s[i].0 != x,
    ensures
        spec_handle_in(s.remove(i), x) == spec_handle_in(s, x),
    decreases i,
{
    if i == 0 {
        assert(s.remove(0) =~= s.skip(1));
    } else {
        lemma_handle_remove(s.skip(1), i - 1, x);
        assert(s.remove(i).skip(1) =~= s.skip(1).remove(i - 1));
        assert(s.remove(i)[0] == s[0]);
    }
}

/// Replacing an entry, where neither the old nor the new entry carries the
/// id, leaves a lookup unchanged.
pub proof fn lemma_handle_update(
    s: Seq<(u64, crossbeam::channel::Sender<Fragment>)>,
    i: int,
    e: (u64, crossbeam::channel::Sender<Fragment>),
    x: u64,
)
    requires
        0 <= i < s.len(),
        s[i].0 != x,
        e.0 != x,
    ensures
        spec_handle_in(s.update(i, e), x) == spec_handle_in(s, x),
    decreases i,
{
    if i == 0 {
        assert(s.update(0, e).skip(1) =~= s.skip(1));
    } else {
        lemma_handle_update(s.skip(1), i - 1, e, x);
        assert(s.update(i, e).skip(1) =~= s.skip(1).update(i - 1, e));
        assert(s.update(i, e)[0] == s[0]);
    }
}

/// Appending an entry of another id leaves a lookup unchanged.
pub proof fn lemma_handle_push(
    s: Seq<(u64, crossbeam::channel::Sender<Fragment>)>,
    e: (u64, crossbeam::channel::Sender<Fragment>),
    x: u64,
)
    requires
        e.0 != x,
    ensures
        spec_handle_in(s.push(e), x) == spec_handle_in(s, x),
    decreases s.len(),
{
    if s.len() == 0 {
        assert(s.push(e)[0] == e);
        assert(s.push(e).skip(1) =~= Seq::<(u64, crossbeam::channel::Sender<Fragment>)>::empty());
        assert(spec_handle_in(Seq::<(u64, crossbeam::channel::Sender<Fragment>)>::empty(), x)
            is None);
        assert(spec_handle_in(s.push(e), x) == spec_handle_in(s.push(e).skip(1), x));
    } else {
        lemma_handle_push(s.skip(1), e, x);
        assert(s.push(e).skip(1) =~= s.skip(1).push(e));
        assert(s.push(e)[0] == s[0]);
        if s[0].0 != x {
            assert(spec_handle_in(s.push(e), x) == spec_handle_in(s.skip(1).push(e), x));
            assert(spec_handle_in(s, x) == spec_handle_in(s.skip(1), x));
        }
    }
}

/// The payload cut into pieces of at most `m` bytes: every piece but the
/// last holds exactly `m` bytes, and an empty payload still travels as one
/// empty piece.
pub open spec fn chunks(p: Seq<u8>, m: nat) -> Seq<Seq<u8>>
    decreases p.len(),
    when m >= 1
{
    if p.len() <= m {
        seq![p]
    } else {
        seq![p.take(m as int)] + chunks(p.skip(m as int), m)
    }
}

/// Pieces glued back together in order.
pub open spec fn concat_pieces(ps: Seq<Seq<u8>>) -> Seq<u8>
    decreases ps.len(),
{
    if ps.len() == 0 {
        Seq::empty()
    } else {
        ps[0] + concat_pieces(ps.skip(1))
    }
}

/// Splitting never loses a byte: gluing the pieces back yields the payload.
pub proof fn lemma_chunks_concat(p: Seq<u8>, m: nat)
    requires
        m >= 1,
    ensures
        concat_pieces(chunks(p, m)) == p,
    decreases p.len(),
{
    if p.len() <= m {
        assert(chunks(p, m) == seq![p]);
        assert(concat_pieces(chunks(p, m)) == p + concat_pieces(seq![p].skip(1)));
        assert(seq![p].skip(1).len() == 0);
        assert(concat_pieces(seq![p].skip(1)) == Seq::<u8>::empty());
        assert(p + Seq::<u8>::empty() =~= p);
    } else {
        lemma_chunks_concat(p.skip(m as int), m);
        let cs = chunks(p, m);
        assert(cs == seq![p.take(m as int)] + chunks(p.skip(m as int), m));
        assert(cs[0] == p.take(m as int));
        assert(cs.skip(1) =~= chunks(p.skip(m as int), m));
        assert(concat_pieces(cs) == cs[0] + concat_pieces(cs.skip(1)));
        assert(concat_pieces(cs.skip(1)) == p.skip(m as int));
        assert(p.take(m as int) + p.skip(m as int) =~= p);
    }
}

/// There is at least one piece, and never more pieces than bytes (or one,
/// for an empty payload).
pub proof fn lemma_chunks_len(p: Seq<u8>, m: nat)
    requires
        m >= 1,
    ensures
        1 <= chunks(p, m).len(),
        chunks(p, m).len() <= (if p.len() == 0 {
            1int
        } else {
            p.len() as int
        }),
    decreases p.len(),
{
    if p.len() > m {
        lemma_chunks_len(p.skip(m as int), m);
    }
}

/// The fragments that carry `p` from `origin` under session `sid`: one per
/// piece, indexed in order, all sharing the piece count as their total.
pub open spec fn spec_fragments(origin: u64, sid: u64, p: Seq<u8>, m: nat) -> Seq<FragModel>
    recommends
        m >= 1,
{
    Seq::new(
        chunks(p, m).len(),
        |i: int|
            FragModel {
                origin,
                session_id: sid,
                index: i as u32,
                total: chunks(p, m).len() as u32,
                payload: chunks(p, m)[i],
            },
    )
}

/// The routing layer of one node: its own peer id, the fragment size limit,
/// and the neighbor table from peer id to outbound channel.
pub struct RoutingHandler {
    id: u64,
    max_fragment_size: usize,
    neighbors: Vec<(u64, crossbeam::channel::Sender<Fragment>)>,
}

impl RoutingHandler {
    /// This node's peer id.
    pub closed spec fn node_id(&self) -> u64 {
        self.id
    }

    /// The most payload bytes one fragment carries.
    pub closed spec fn frag_size(&self) -> nat {
        self.max_fragment_size as nat
    }

    /// The outbound channel the table stores for a peer, if it holds one.
    pub closed spec fn spec_handle(&self, id: u64) -> Option<
        crossbeam::channel::Sender<Fragment>,
    > {
        spec_handle_in(self.neighbors@, id)
    }

    /// Whether a destination has an outbound channel.
    pub open spec fn knows(&self, dest: u64) -> bool {
        self.spec_handle(dest) is Some
    }

    /// A fragment size of at least one byte, and one channel per peer.
    pub closed spec fn wf(&self) -> bool {
        &&& self.max_fragment_size >= 1
        &&& forall|i: int, j: int|
            0 <= i < j < self.neighbors@.len() ==> #[trigger] self.neighbors@[i].0
                != #[trigger] self.neighbors@[j].0
    }

    /// A routing layer with no neighbors yet.
    pub fn new(id: u64, max_fragment_size: usize) -> (h: RoutingHandler)
        requires
            max_fragment_size >= 1,
        ensures
            h.wf(),
            h.node_id() == id,
            h.frag_size() == max_fragment_size,
            forall|x: u64| !h.knows(x),
    {
        let h = RoutingHandler { id, max_fragment_size, neighbors: Vec::new() };
        proof {
            assert forall|x: u64| !h.knows(x) by {
                assert(h.neighbors@.len() == 0);
                assert(spec_handle_in(h.neighbors@, x) is None);
            }
        }
        h
    }

    /// Adds the outbound channel of a peer, replacing any channel the
    /// table already stored for it; every other entry stands unchanged.
    pub fn add_neighbor(&mut self, id: u64, handle: crossbeam::channel::Sender<Fragment>)
        requires
            old(self).wf(),
        ensures
            final(self).wf(),
            final(self).spec_handle(id) == Some(handle),
            forall|x: u64| x != id ==> final(self).spec_handle(x) == old(self).spec_handle(x),
            final(self).node_id() == old(self).node_id(),
            final(self).frag_size() == old(self).frag_size(),
    {
        let mut i: usize = 0;
        while i < self.neighbors.len()
            invariant
                self == old(self),
                old(self).wf(),
                i <= self.neighbors.len(),
                forall|j: int| 0 <= j < i ==> #[trigger] self.neighbors@[j].0 != id,
            decreases self.neighbors.len() - i,
        {
            if self.neighbors[i].0 == id {
                let ghost pre = self.neighbors@;
                self.neighbors.remove(i);
                self.neighbors.insert(i, (id, handle));
                proof {
                    assert(self.neighbors@ =~= pre.update(i as int, (id, handle)));
                    assert forall|a: int, b: int|
                        0 <= a < b < self.neighbors@.len() implies #[trigger] self.neighbors@[a].0
                        != #[trigger] self.neighbors@[b].0 by {
                        assert(self.neighbors@[a].0 == pre[a].0);
                        assert(self.neighbors@[b].0 == pre[b].0);
                    }
                    lemma_handle_first(self.neighbors@, id, i as int);
                    assert forall|x: u64| x != id implies self.spec_handle(x) == old(
                        self,
                    ).spec_handle(x) by {
                        lemma_handle_update(pre, i as int, (id, handle), x);
                    }
                }
                return;
            }
            i += 1;
        }
        self.neighbors.push((id, handle));
        proof {
            assert(self.neighbors@ =~= old(self).neighbors@.push((id, handle)));
            assert forall|a: int, b: int|
                0 <= a < b < self.neighbors@.len() implies #[trigger] self.neighbors@[a].0
                != #[trigger] self.neighbors@[b].0 by {
                if b < self.neighbors@.len() - 1 {
                    assert(old(self).neighbors@[a].0 != old(self).neighbors@[b].0);
                } else {
                    assert(self.neighbors@[b].0 == id);
                    assert(old(self).neighbors@[a].0 != id);
                }
            }
            lemma_handle_first(self.neighbors@, id, old(self).neighbors@.len() as int);
            assert forall|x: u64| x != id implies self.spec_handle(x) == old(self).spec_handle(
                x,
            ) by {
                lemma_handle_push(old(self).neighbors@, (id, handle), x);
            }
        }
    }

    /// Removes a peer's outbound channel; removing an unknown peer is a
    /// no-op, not an error. Every other entry stands unchanged.
    pub fn remove_neighbor(&mut self, id: u64)
        requires
            old(self).wf(),
        ensures
            final(self).wf(),
            final(self).spec_handle(id) is None,
            forall|x: u64| x != id ==> final(self).spec_handle(x) == old(self).spec_handle(x),
            final(self).node_id() == old(self).node_id(),
            final(self).frag_size() == old(self).frag_size(),
    {
        let mut i: usize = 0;
        while i < self.neighbors.len()
            invariant
                self == old(self),
                old(self).wf(),
                i <= self.neighbors.len(),
                forall|j: int| 0 <= j < i ==> #[trigger] self.neighbors@[j].0 != id,
            decreases self.neighbors.len() - i,
        {
            if self.neighbors[i].0 == id {
                let ghost pre = self.neighbors@;
                self.neighbors.remove(i);
                proof {
                    assert(self.neighbors@ =~= pre.remove(i as int));
                    assert forall|a: int, b: int|
                        0 <= a < b < self.neighbors@.len() implies #[trigger] self.neighbors@[a].0
                        != #[trigger] self.neighbors@[b].0 by {
                        let a2: int = if a < i as int {
                            a
                        } else {
                            a + 1
                        };
                        let b2: int = if b < i as int {
                            b
                        } else {
                            b + 1
                        };
                        assert(self.neighbors@[a] == pre[a2]);
                        assert(self.neighbors@[b] == pre[b2]);
                        assert(old(self).neighbors@[a2].0 != old(self).neighbors@[b2].0);
                    }
                    assert forall|w: int|
                        0 <= w < self.neighbors@.len() implies #[trigger] self.neighbors@[w].0
                        != id by {
                        let w2: int = if w < i as int {
                            w
                        } else {
                            w + 1
                        };
                        assert(self.neighbors@[w] == pre[w2]);
                        if w2 < i as int {
                            assert(old(self).neighbors@[w2].0 != old(self).neighbors@[i as int].0);
                        } else {
                            assert(old(self).neighbors@[i as int].0 != old(self).neighbors@[w2].0);
                        }
                    }
                    lemma_handle_none(self.neighbors@, id);
                    assert forall|x: u64| x != id implies self.spec_handle(x) == old(
                        self,
                    ).spec_handle(x) by {
                        lemma_handle_remove(pre, i as int, x);
                    }
                }
                return;
            }
            i += 1;
        }
        proof {
            lemma_handle_none(self.neighbors@, id);
        }
    }

    /// The outbound channel of `dest`: exactly the one the table stores.
    fn find_neighbor(&self, dest: u64) -> (r: Option<&crossbeam::channel::Sender<Fragment>>)
        ensures
            match r {
                Some(h) => self.spec_handle(dest) == Some(*h),
                None => self.spec_handle(dest) is None,
            },
    {
        let mut i: usize = 0;
        while i < self.neighbors.len()
            invariant
                i <= self.neighbors.len(),
                forall|j: int| 0 <= j < i ==> #[trigger] self.neighbors@[j].0 != dest,
            decreases self.neighbors.len() - i,
        {
            if self.neighbors[i].0 == dest {
                proof {
                    lemma_handle_first(self.neighbors@, dest, i as int);
                }
                return Some(&self.neighbors[i].1);
            }
            i += 1;
        }
        proof {
            lemma_handle_none(self.neighbors@, dest);
        }
        None
    }

    /// Cuts a payload into the fragments that will carry it under the given
    /// session id: the piece count as every fragment's total, indexes in
    /// order, this node as origin.
    pub fn plan_fragments(&self, payload: &Vec<u8>, session_id: u64) -> (frags: Vec<Fragment>)
        requires
            self.wf(),
            payload@.len() <= 0xffff_fffe,
        ensures
            frags@.map_values(|f: Fragment| f@) == spec_fragments(
                self.node_id(),
                session_id,
                payload@,
                self.frag_size(),
            ),
    {
        let m = self.max_fragment_size;
        let mut pieces: Vec<Vec<u8>> = Vec::new();
        if payload.len() == 0 {
            pieces.push(Vec::new());
            proof {
                assert(payload@ =~= Seq::<u8>::empty());
                assert(pieces@.map_values(|v: Vec<u8>| v@) =~= chunks(payload@, m as nat));
            }
        } else {
            let mut off: usize = 0;
            proof {
                assert(payload@.skip(0) =~= payload@);
                assert(pieces@.map_values(|v: Vec<u8>| v@) =~= Seq::<Seq<u8>>::empty());
                assert(Seq::<Seq<u8>>::empty() + chunks(payload@, m as nat) =~= chunks(
                    payload@,
                    m as nat,
                ));
            }
            while off < payload.len()
                invariant
                    m >= 1,
                    payload@.len() >= 1,
                    off <= payload@.len(),
                    off < payload@.len() ==> chunks(payload@, m as nat) == pieces@.map_values(
                        |v: Vec<u8>| v@,
                    ) + chunks(payload@.skip(off as int), m as nat),
                    off == payload@.len() ==> pieces@.map_values(|v: Vec<u8>| v@) == chunks(
                        payload@,
                        m as nat,
                    ),
                decreases payload@.len() - off,
            {
                let end = if payload.len() - off > m {
                    off + m
                } else {
                    payload.len()
                };
                let piece = crate::protocol::slice_bytes(payload, off, end);
                let ghost pre_pieces = pieces@.map_values(|v: Vec<u8>| v@);
                pieces.push(piece);
                proof {
                    assert(pieces@.map_values(|v: Vec<u8>| v@) =~= pre_pieces.push(
                        payload@.subrange(off as int, end as int),
                    ));
                    let rest = payload@.skip(off as int);
                    if payload@.len() - off > m {
                        assert(rest.take(m as int) =~= payload@.subrange(off as int, end as int));
                        assert(rest.skip(m as int) =~= payload@.skip(end as int));
                        assert(chunks(rest, m as nat) == seq![rest.take(m as int)] + chunks(
                            rest.skip(m as int),
                            m as nat,
                        ));
                        assert(pre_pieces + chunks(rest, m as nat) =~= pre_pieces.push(
                            rest.take(m as int),
                        ) + chunks(payload@.skip(end as int), m as nat));
                    } else {
                        assert(rest =~= payload@.subrange(off as int, end as int));
                        assert(chunks(rest, m as nat) == seq![rest]);
                        assert(pre_pieces + chunks(rest, m as nat) =~= pre_pieces.push(rest));
                    }
                }
                off = end;
            }
        }
        proof {
            lemma_chunks_len(payload@, m as nat);
        }
        let total_count = pieces.len();
        let total = total_count as u32;
        let ghost all_pieces = pieces@.map_values(|v: Vec<u8>| v@);
        let mut frags: Vec<Fragment> = Vec::new();
        let mut idx: usize = 0;
        while pieces.len() > 0
            invariant
                idx + pieces@.len() == total_count,
                total_count == all_pieces.len(),
                total_count <= 0xffff_fffe,
                total == total_count as u32,
                all_pieces == chunks(payload@, self.frag_size()),
                forall|j: int|
                    0 <= j < pieces@.len() ==> #[trigger] pieces@[j]@ == all_pieces[idx + j],
                frags@.len() == idx,
                forall|j: int|
                    0 <= j < idx ==> #[trigger] frags@[j]@ == (FragModel {
                        origin: self.node_id(),
                        session_id,
                        index: j as u32,
                        total: total_count as u32,
                        payload: all_pieces[j],
                    }),
            decreases pieces@.len(),
        {
            let piece = pieces.remove(0);
            let fr = Fragment {
                origin: self.id,
                session_id,
                index: idx as u32,
                total,
                payload: piece,
            };
            frags.push(fr);
            idx += 1;
        }
        proof {
            assert(frags@.map_values(|f: Fragment| f@) =~= spec_fragments(
                self.node_id(),
                session_id,
                payload@,
                self.frag_size(),
            ));
        }
        frags
    }

    /// Fragments the payload and delivers every fragment to `dest`,
    /// correlated to the caller's session id. An unknown destination is
    /// reported, and reported only, when the table holds no channel for it;
    /// with a known destination the send succeeds unless the neighbor's
    /// channel is disconnected or has no room, either of which is reported
    /// to the caller at once, never swallowed and never waited out.
    pub fn send(&self, payload: &Vec<u8>, dest: u64, session_id: u64) -> (r: Result<
        (),
        RoutingError,
    >)
        requires
            self.wf(),
        ensures
            !self.knows(dest) <==> r == Err::<(), RoutingError>(
                RoutingError::UnknownDestination { dest },
            ),
            (self.knows(dest) && payload@.len() > 0xffff_fffe) <==> r == Err::<(), RoutingError>(
                RoutingError::PayloadTooLarge,
            ),
            (self.knows(dest) && payload@.len() <= 0xffff_fffe) ==> (r == Ok::<(), RoutingError>(
                (),
            ) || r == Err::<(), RoutingError>(RoutingError::ChannelClosed { dest }) || r == Err::<
                (),
                RoutingError,
            >(RoutingError::ChannelFull { dest })),
    {
        match self.find_neighbor(dest) {
            None => Err(RoutingError::UnknownDestination { dest }),
            Some(handle) => {
                if payload.len() > 0xffff_fffe {
                    return Err(RoutingError::PayloadTooLarge);
                }
                let mut frags = self.plan_fragments(payload, session_id);
                while frags.len() > 0
                    invariant
                        self.knows(dest),
                        payload@.len() <= 0xffff_fffe,
                    decreases frags@.len(),
                {
                    let fr = frags.remove(0);
                    match crate::ext::send_fragment(handle, fr) {
                        Ok(()) => {},
                        Err(DeliveryError::Full { .. }) => {
                            return Err(RoutingError::ChannelFull { dest });
                        },
                        Err(DeliveryError::Disconnected { .. }) => {
                            return Err(RoutingError::ChannelClosed { dest });
                        },
                    }
                }
                Ok(())
            },
        }
    }
}

} // verus!
