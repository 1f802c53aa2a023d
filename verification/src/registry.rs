//! Session registry: the set of live connections keyed by a small integer
//! identity, with explicit free-identity allocation, unicast and broadcast
//! fan-out.
//!
//! Fan-out here is pure: it computes the ordered list of (identity, event)
//! deliveries; the shell around the crate performs the socket writes in
//! exactly that order.

use vstd::prelude::*;
use vstd::std_specs::vec::vec_index_mut;
use crate::protocol::{ServerMessage, ServerMessageV};

verus! {

/// One live connection: its identity and whether it has joined the world.
#[derive(Clone, Copy, PartialEq, Eq, Structural, Debug)]
pub struct Conn {
    pub id: u8,
    pub joined: bool,
}

/// Whether some live connection carries the given identity.
pub open spec fn spec_has_conn(cs: Seq<Conn>, id: u8) -> bool {
    exists|i: int| 0 <= i < cs.len() && cs[i].id == id
}

/// Whether the connection with the given identity exists and has joined.
pub open spec fn spec_conn_joined(cs: Seq<Conn>, id: u8) -> bool {
    exists|i: int| 0 <= i < cs.len() && cs[i].id == id && cs[i].joined
}

/// No two live connections share an identity.
pub open spec fn spec_conns_distinct(cs: Seq<Conn>) -> bool {
    forall|i: int, j: int| 0 <= i < j < cs.len() ==> cs[i].id != cs[j].id
}

/// The position of the connection with the given identity.
pub open spec fn spec_conn_index(cs: Seq<Conn>, id: u8) -> int {
    choose|i: int| 0 <= i < cs.len() && cs[i].id == id
}

/// The same connections, with the one carrying the given identity marked as
/// joined.
pub open spec fn spec_mark_joined(cs: Seq<Conn>, id: u8) -> Seq<Conn> {
    cs.map_values(
        |c: Conn|
            if c.id == id {
                Conn { id: c.id, joined: true }
            } else {
                c
            },
    )
}

/// The ordered deliveries of one event to every live connection except the
/// optionally excluded one: registry order, one delivery per connection.
pub open spec fn spec_deliveries(cs: Seq<Conn>, except: Option<u8>, m: ServerMessageV) -> Seq<
    (u8, ServerMessageV),
>
    decreases cs.len(),
{
    if cs.len() == 0 {
        Seq::empty()
    } else {
        spec_deliveries(cs.drop_last(), except, m) + (if except == Some(cs.last().id) {
            Seq::<(u8, ServerMessageV)>::empty()
        } else {
            seq![(cs.last().id, m)]
        })
    }
}

/// The mathematical value of an ordered send list.
pub open spec fn spec_sends_view(s: Seq<(u8, ServerMessage)>) -> Seq<(u8, ServerMessageV)> {
    s.map_values(|p: (u8, ServerMessage)| (p.0, p.1@))
}

/// Law: a delivery plan reaches every live connection that is not excluded.
pub proof fn lemma_deliveries_reach(cs: Seq<Conn>, except: Option<u8>, m: ServerMessageV, id: u8)
    requires
        spec_has_conn(cs, id),
        except != Some(id),
    ensures
        exists|k: int|
            0 <= k < spec_deliveries(cs, except, m).len() && spec_deliveries(cs, except, m)[k]
                == (id, m),
    decreases cs.len(),
{
    let d = spec_deliveries(cs, except, m);
    if cs.last().id == id {
        assert(d[d.len() - 1] == (id, m));
    } else {
        let i = choose|i: int| 0 <= i < cs.len() && cs[i].id == id;
        assert(cs.drop_last()[i] == cs[i]);
        lemma_deliveries_reach(cs.drop_last(), except, m, id);
        let k = choose|k: int|
            0 <= k < spec_deliveries(cs.drop_last(), except, m).len() && spec_deliveries(
                cs.drop_last(),
                except,
                m,
            )[k] == (id, m);
        assert(d[k] == (id, m));
    }
}

/// Law: a delivery plan delivers only to live, non-excluded connections,
/// and only the event itself.
pub proof fn lemma_deliveries_exact(cs: Seq<Conn>, except: Option<u8>, m: ServerMessageV, k: int)
    requires
        0 <= k < spec_deliveries(cs, except, m).len(),
    ensures
        spec_deliveries(cs, except, m)[k].1 == m,
        spec_has_conn(cs, spec_deliveries(cs, except, m)[k].0),
        except != Some(spec_deliveries(cs, except, m)[k].0),
    decreases cs.len(),
{
    let d = spec_deliveries(cs, except, m);
    let rest = spec_deliveries(cs.drop_last(), except, m);
    if k < rest.len() {
        lemma_deliveries_exact(cs.drop_last(), except, m, k);
        let id = rest[k].0;
        let i = choose|i: int| 0 <= i < cs.drop_last().len() && cs.drop_last()[i].id == id;
        assert(cs[i].id == id);
    } else {
        assert(cs[cs.len() - 1].id == d[k].0);
    }
}

/// Law: broadcast ordering. When one mutation's deliveries are written out
/// before a second mutation's deliveries, every live connection excluded
/// from neither observes the first event strictly before the second.
pub proof fn lemma_broadcast_order(cs: Seq<Conn>, m1: ServerMessageV, m2: ServerMessageV, id: u8)
    requires
        spec_has_conn(cs, id),
    ensures
        ({
            let d = spec_deliveries(cs, None, m1) + spec_deliveries(cs, None, m2);
            exists|i: int, j: int|
                0 <= i < j < d.len() && d[i] == (id, m1) && d[j] == (id, m2)
        }),
{
    let d1 = spec_deliveries(cs, None, m1);
    let d2 = spec_deliveries(cs, None, m2);
    let d = d1 + d2;
    lemma_deliveries_reach(cs, None, m1, id);
    lemma_deliveries_reach(cs, None, m2, id);
    let i = choose|i: int| 0 <= i < d1.len() && d1[i] == (id, m1);
    let j0 = choose|j: int| 0 <= j < d2.len() && d2[j] == (id, m2);
    assert(d[i] == (id, m1));
    assert(d[d1.len() + j0] == (id, m2));
}

/// Law: identity allocation never returns a live identity, so two
/// connections registered in sequence receive distinct identities, and an
/// identity freed by a disconnect can be reused but never while its
/// previous holder is still live.
pub proof fn lemma_sequential_identities_distinct(cs: Seq<Conn>, id1: u8, id2: u8)
    requires
        !spec_has_conn(cs, id1),
        !spec_has_conn(cs.push(Conn { id: id1, joined: false }), id2),
    ensures
        id1 != id2,
        forall|i: int| 0 <= i < cs.len() ==> cs[i].id != id2,
{
    let cs2 = cs.push(Conn { id: id1, joined: false });
    assert(cs2[cs.len() as int].id == id1);
    assert forall|i: int| 0 <= i < cs.len() implies cs[i].id != id2 by {
        assert(cs2[i] == cs[i]);
    }
}

/// The registry of live connections.
#[derive(Debug)]
pub struct Registry {
    pub conns: Vec<Conn>,
}

impl Registry {
    /// Well-formedness: identities are unique among live connections.
    pub open spec fn wf(&self) -> bool {
        spec_conns_distinct(self.conns@)
    }

    /// An empty registry: no connection is live.
    pub fn new() -> (r: Registry)
        ensures
            r.wf(),
            r.conns@.len() == 0,
    {
        Registry { conns: Vec::new() }
    }

    /// Whether the given identity is live.
    pub fn contains_id(&self, id: u8) -> (r: bool)
        ensures
            r == spec_has_conn(self.conns@, id),
    {
        let n: usize = self.conns.len();
        let mut i: usize = 0;
        while i < n
            invariant
                i <= n,
                n == self.conns@.len(),
                forall|j: int| 0 <= j < i as int ==> self.conns@[j].id != id,
            decreases n - i,
        {
            if self.conns[i].id == id {
                return true;
            }
            i = i + 1;
        }
        false
    }

    /// Whether the given identity is live and has joined the world.
    pub fn is_joined(&self, id: u8) -> (r: bool)
        requires
            self.wf(),
        ensures
            r == spec_conn_joined(self.conns@, id),
    {
        let n: usize = self.conns.len();
        let mut i: usize = 0;
        while i < n
            invariant
                i <= n,
                n == self.conns@.len(),
                forall|j: int|
                    0 <= j < i as int ==> !(self.conns@[j].id == id && self.conns@[j].joined),
            decreases n - i,
        {
            if self.conns[i].id == id && self.conns[i].joined {
                return true;
            }
            i = i + 1;
        }
        false
    }

    /// The lowest identity that no live connection holds, or `None` when
    /// the whole identity space is taken. What it returns is never a live
    /// identity, so a freed identity can be reused but a live one is never
    /// handed out twice.
    pub fn alloc_id(&self) -> (r: Option<u8>)
        requires
            self.wf(),
        ensures
            match r {
                Some(id) => !spec_has_conn(self.conns@, id) && forall|j: u8|
                    j < id ==> spec_has_conn(self.conns@, j),
                None => forall|j: u8| spec_has_conn(self.conns@, j),
            },
    {
        let mut cand: usize = 0;
        while cand < 256
            invariant
                cand <= 256,
                forall|j: u8| (j as int) < (cand as int) ==> spec_has_conn(self.conns@, j),
            decreases 256 - cand,
        {
            if !self.contains_id(cand as u8) {
                return Some(cand as u8);
            }
            cand = cand + 1;
        }
        None
    }

    /// Add a fresh connection, not yet joined.
    pub fn register(&mut self, id: u8)
        requires
            old(self).wf(),
            !spec_has_conn(old(self).conns@, id),
        ensures
            final(self).wf(),
            final(self).conns@ == old(self).conns@.push(Conn { id, joined: false }),
    {
        self.conns.push(Conn { id, joined: false });
    }

    /// Mark the connection with the given identity as joined.
    pub fn mark_joined(&mut self, id: u8)
        requires
            old(self).wf(),
        ensures
            final(self).wf(),
            final(self).conns@ =~= spec_mark_joined(old(self).conns@, id),
    {
        let n: usize = self.conns.len();
        let mut i: usize = 0;
        while i < n
            invariant
                i <= n,
                n == self.conns@.len(),
                forall|j: int|
                    0 <= j < i as int ==> self.conns@[j] == (if old(self).conns@[j].id == id {
                        Conn { id: old(self).conns@[j].id, joined: true }
                    } else {
                        old(self).conns@[j]
                    }),
                forall|j: int| i as int <= j < n as int ==> self.conns@[j] == old(self).conns@[j],
            decreases n - i,
        {
            if self.conns[i].id == id {
                let c = vec_index_mut(&mut self.conns, i);
                c.joined = true;
            }
            i = i + 1;
        }
        proof {
            assert forall|j: int| 0 <= j < n as int implies self.conns@[j] == spec_mark_joined(
                old(self).conns@,
                id,
            )[j] by {
                assert(spec_mark_joined(old(self).conns@, id)[j] == (if old(self).conns@[j].id
                    == id {
                    Conn { id: old(self).conns@[j].id, joined: true }
                } else {
                    old(self).conns@[j]
                }));
            }
            assert(forall|j: int|
                0 <= j < n as int ==> self.conns@[j].id == old(self).conns@[j].id);
        }
    }

    /// Drop the connection with the given identity, if it is live.
    pub fn unregister(&mut self, id: u8)
        requires
            old(self).wf(),
        ensures
            final(self).wf(),
            spec_has_conn(old(self).conns@, id) ==> final(self).conns@ == old(self).conns@.remove(
                spec_conn_index(old(self).conns@, id),
            ),
            !spec_has_conn(old(self).conns@, id) ==> final(self).conns@ == old(self).conns@,
            !spec_has_conn(final(self).conns@, id),
    {
        let n: usize = self.conns.len();
        let mut i: usize = 0;
        while i < n
            invariant
                i <= n,
                n == self.conns@.len(),
                self.conns@ == old(self).conns@,
                spec_conns_distinct(old(self).conns@),
                forall|j: int| 0 <= j < i as int ==> self.conns@[j].id != id,
            decreases n - i,
        {
            if self.conns[i].id == id {
                proof {
                    let cs = old(self).conns@;
                    assert(cs[i as int].id == id);
                    assert(spec_has_conn(cs, id));
                    let k = spec_conn_index(cs, id);
                    assert(0 <= k < cs.len() && cs[k].id == id);
                    if k < i as int {
                        assert(false);
                    }
                    if k > i as int {
                        assert(cs[i as int].id != cs[k].id);
                        assert(false);
                    }
                }
                self.conns.remove(i);
                proof {
                    let cs = old(self).conns@;
                    assert forall|k: int| 0 <= k < self.conns@.len() implies self.conns@[k].id
                        != id by {
                        if k < i as int {
                            assert(self.conns@[k] == cs[k]);
                        } else {
                            assert(self.conns@[k] == cs[k + 1]);
                            assert(cs[i as int].id != cs[k + 1].id);
                        }
                    }
                    assert forall|a: int, b: int|
                        0 <= a < b < self.conns@.len() implies self.conns@[a].id
                        != self.conns@[b].id by {
                        let a2 = if a < i as int {
                            a
                        } else {
                            a + 1
                        };
                        let b2 = if b < i as int {
                            b
                        } else {
                            b + 1
                        };
                        assert(self.conns@[a] == cs[a2]);
                        assert(self.conns@[b] == cs[b2]);
                        assert(cs[a2].id != cs[b2].id);
                    }
                }
                return ;
            }
            i = i + 1;
        }
    }

    /// The one-element delivery plan for a unicast, or the empty plan when
    /// the identity is no longer live (the peer may have just disconnected;
    /// that is not an error).
    pub fn unicast(&self, id: u8, msg: &ServerMessage) -> (out: Vec<(u8, ServerMessage)>)
        ensures
            spec_has_conn(self.conns@, id) ==> spec_sends_view(out@) =~= seq![(id, msg@)],
            !spec_has_conn(self.conns@, id) ==> out@.len() == 0,
    {
        let mut out: Vec<(u8, ServerMessage)> = Vec::new();
        if self.contains_id(id) {
            out.push((id, msg.clone()));
        }
        out
    }

    /// The ordered delivery plan of one event to every live connection
    /// except the optionally excluded one.
    pub fn broadcast(&self, msg: &ServerMessage, except: Option<u8>) -> (out: Vec<
        (u8, ServerMessage),
    >)
        ensures
            spec_sends_view(out@) =~= spec_deliveries(self.conns@, except, msg@),
    {
        let n: usize = self.conns.len();
        let mut out: Vec<(u8, ServerMessage)> = Vec::new();
        let mut i: usize = 0;
        while i < n
            invariant
                i <= n,
                n == self.conns@.len(),
                spec_sends_view(out@) =~= spec_deliveries(
                    self.conns@.subrange(0, i as int),
                    except,
                    msg@,
                ),
            decreases n - i,
        {
            let c = self.conns[i];
            let excluded = match except {
                Some(e) => e == c.id,
                None => false,
            };
            if !excluded {
                out.push((c.id, msg.clone()));
            }
            proof {
                let pre = self.conns@.subrange(0, i as int);
                let cur = self.conns@.subrange(0, i as int + 1);
                assert(cur.drop_last() =~= pre);
                assert(cur.last() == self.conns@[i as int]);
            }
            i = i + 1;
        }
        proof {
            assert(self.conns@.subrange(0, n as int) =~= self.conns@);
        }
        out
    }
}

} // verus!
