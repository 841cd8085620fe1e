use vstd::prelude::*;
use std::collections::HashMap;
use vstd::std_specs::hash::spec_keys_iter;
use vstd::std_specs::iter::IteratorSpec;
use crate::codec::{Tftp, PacketView, encode_spec};
use crate::session::{
    Session, SessionView, Action, TickAction, TickView, datagrams, fresh_view, is_live, wf,
    receive_spec, loaded_spec, tick_spec, is_transferring, lemma_duplicate_ack_ignored,
};

verus! {

broadcast use vstd::std_specs::hash::group_hash_axioms;

fn keys_of<V>(m: &HashMap<u64, V>) -> (r: Vec<u64>)
    ensures
        r@.to_set() == m@.dom(),
        r@.no_duplicates(),
{
    let mut r: Vec<u64> = Vec::new();
    let ghost keys = spec_keys_iter(m).remaining().unref();
    for k in it: m.keys()
        invariant
            keys == spec_keys_iter(m).remaining().unref(),
            keys.to_set() == m@.dom(),
            keys.no_duplicates(),
            r@ == keys.take(it.index()),
            it.seq().unref() == keys,
    {
        r.push(*k);
        assert(r@ =~= keys.take(it.index() + 1));
    }
    assert(r@ =~= keys);
    r
}

/// How long a session may stay silent before the supervisor acts, in the
/// caller's clock units (milliseconds by default).
pub const DEFAULT_TIMEOUT: u64 = 1000;
pub const DEFAULT_MAX_RETRIES: u32 = 5;

/// Owns every live session, keyed by client identity.
pub struct Registry {
    pub sessions: HashMap<u64, Session>,
    pub timeout: u64,
    pub max_retries: u32,
}

/// The session of `client`, or a fresh one when there is none.
pub open spec fn session_or_fresh(m: Map<u64, SessionView>, client: u64) -> SessionView {
    if m.contains_key(client) {
        m[client]
    } else {
        fresh_view()
    }
}

/// The registry after `client`'s session became `v`: a finished session
/// is evicted, a live one kept.
pub open spec fn store(m: Map<u64, SessionView>, client: u64, v: SessionView) -> Map<
    u64,
    SessionView,
> {
    if is_live(v.state) {
        m.insert(client, v)
    } else {
        m.remove(client)
    }
}

/// The registry after a supervisor round at `now`.
pub open spec fn tick_all(m: Map<u64, SessionView>, now: u64, timeout: u64, max_retries: u32) -> Map<
    u64,
    SessionView,
> {
    Map::new(
        |k: u64| m.contains_key(k) && is_live(tick_spec(m[k], now, timeout, max_retries).0.state),
        |k: u64| tick_spec(m[k], now, timeout, max_retries).0,
    )
}

impl View for Registry {
    type V = Map<u64, SessionView>;

    open spec fn view(&self) -> Map<u64, SessionView> {
        self.sessions@.map_values(|s: Session| s@)
    }
}

impl Registry {
    /// Every stored session is well formed and live.
    pub open spec fn inv(&self) -> bool {
        forall|k: u64| #[trigger]
            self.sessions@.contains_key(k) ==> wf(self.sessions@[k]@) && is_live(
                self.sessions@[k].state,
            )
    }

    pub fn new(timeout: u64, max_retries: u32) -> (r: Self)
        ensures
            r@ == Map::<u64, SessionView>::empty(),
            r.inv(),
            r.timeout == timeout,
            r.max_retries == max_retries,
    {
        let r = Registry { sessions: HashMap::new(), timeout, max_retries };
        assert(r@ =~= Map::<u64, SessionView>::empty());
        r
    }

    /// Routes a datagram from `client` to its session, creating the session
    /// on first contact and evicting it once it is completed or aborted.
    pub fn receive(&mut self, client: u64, data: &[u8], now: u64) -> (r: Action)
        requires
            old(self).inv(),
        ensures
            ({
                let (v, a) = receive_spec(session_or_fresh(old(self)@, client), data@, now);
                &&& final(self)@ == store(old(self)@, client, v)
                &&& r@ == a
            }),
            final(self).inv(),
            final(self).timeout == old(self).timeout,
            final(self).max_retries == old(self).max_retries,
    {
        let ghost m0 = self@;
        let mut session = match self.sessions.remove(&client) {
            Some(s) => s,
            None => Session::new(),
        };
        assert(session@ == session_or_fresh(m0, client));
        let r = Tftp::handle(&mut session, data, now);
        let ghost v = session@;
        if session.state != crate::session::SessionState::Completed && session.state
            != crate::session::SessionState::Aborted {
            self.sessions.insert(client, session);
        }
        assert(self@ =~= store(m0, client, v));
        r
    }

    /// Hands `client`'s session the outcome of loading its resource.
    /// Without a session for `client`, nothing happens.
    pub fn resource_loaded(&mut self, client: u64, content: Option<Vec<u8>>, now: u64) -> (r: Vec<
        Vec<u8>,
    >)
        requires
            old(self).inv(),
        ensures
            old(self)@.contains_key(client) ==> ({
                let (v, out) = loaded_spec(
                    old(self)@[client],
                    match content {
                        Some(c) => Some(c@),
                        None => None,
                    },
                    now,
                );
                &&& final(self)@ == store(old(self)@, client, v)
                &&& datagrams(r@) == out
            }),
            !old(self)@.contains_key(client) ==> final(self)@ == old(self)@ && r@.len() == 0,
            final(self).inv(),
            final(self).timeout == old(self).timeout,
            final(self).max_retries == old(self).max_retries,
    {
        let ghost m0 = self@;
        let mut session = match self.sessions.remove(&client) {
            Some(s) => s,
            None => {
                assert(self@ =~= m0);
                return Vec::new();
            },
        };
        let r = session.resource_loaded(content, now);
        let ghost v = session@;
        if session.state != crate::session::SessionState::Completed && session.state
            != crate::session::SessionState::Aborted {
            self.sessions.insert(client, session);
        }
        assert(self@ =~= store(m0, client, v));
        r
    }

    /// Evicts `client`'s session, if any.
    pub fn remove(&mut self, client: u64)
        requires
            old(self).inv(),
        ensures
            final(self)@ == old(self)@.remove(client),
            final(self).inv(),
            final(self).timeout == old(self).timeout,
            final(self).max_retries == old(self).max_retries,
    {
        let ghost m0 = self@;
        let _ = self.sessions.remove(&client);
        assert(self@ =~= m0.remove(client));
    }

    pub fn contains(&self, client: u64) -> (r: bool)
        ensures
            r == self@.contains_key(client),
    {
        self.sessions.contains_key(&client)
    }

    pub fn len(&self) -> (r: usize)
        ensures
            r == self@.len(),
    {
        assert(self@.dom() =~= self.sessions@.dom());
        self.sessions.len()
    }

    /// One round of the retransmission supervisor at time `now`: every
    /// session silent for longer than the timeout resends its last window
    /// (returned with its client) or, with its retries spent, is aborted
    /// and evicted.
    pub fn tick(&mut self, now: u64) -> (r: Vec<(u64, Vec<Vec<u8>>)>)
        requires
            old(self).inv(),
        ensures
            final(self)@ == tick_all(old(self)@, now, old(self).timeout, old(self).max_retries),
            forall|i: int|
                0 <= i < r@.len() ==> old(self)@.contains_key(#[trigger] r@[i].0) && tick_spec(
                    old(self)@[r@[i].0],
                    now,
                    old(self).timeout,
                    old(self).max_retries,
                ).1 == TickView::Resend(datagrams(r@[i].1@)),
            forall|k: u64|
                old(self)@.contains_key(k) && #[trigger] tick_spec(
                    old(self)@[k],
                    now,
                    old(self).timeout,
                    old(self).max_retries,
                ).1 is Resend ==> exists|i: int| 0 <= i < r@.len() && r@[i].0 == k,
            final(self).inv(),
            final(self).timeout == old(self).timeout,
            final(self).max_retries == old(self).max_retries,
    {
        let ghost m0 = self@;
        let timeout = self.timeout;
        let max_retries = self.max_retries;
        let clients = keys_of(&self.sessions);
        let mut out: Vec<(u64, Vec<Vec<u8>>)> = Vec::new();
        let mut i: usize = 0;
        while i < clients.len()
            invariant
                self.inv(),
                self.timeout == timeout,
                self.max_retries == max_retries,
                i <= clients@.len(),
                clients@.to_set() == m0.dom(),
                clients@.no_duplicates(),
                forall|j: int| 0 <= j < i ==> #[trigger] processed(self@, m0, clients@[j], now, timeout, max_retries),
                forall|j: int| i <= j < clients@.len() ==> #[trigger] self@.contains_key(clients@[j])
                    && self@[clients@[j]] == m0[clients@[j]],
                forall|k: u64| #[trigger] self@.contains_key(k) ==> m0.contains_key(k),
                forall|x: int|
                    0 <= x < out@.len() ==> m0.contains_key(#[trigger] out@[x].0) && tick_spec(
                        m0[out@[x].0],
                        now,
                        timeout,
                        max_retries,
                    ).1 == TickView::Resend(datagrams(out@[x].1@)),
                forall|j: int|
                    0 <= j < i && (#[trigger] tick_spec(m0[clients@[j]], now, timeout, max_retries).1 is Resend)
                        ==> exists|x: int| 0 <= x < out@.len() && out@[x].0 == clients@[j],
            decreases clients@.len() - i,
        {
            let k = clients[i];
            assert(self@.contains_key(k));
            let ghost before = self@;
            let mut session = match self.sessions.remove(&k) {
                Some(s) => s,
                None => {
                    // `k` was listed from the map and not yet removed
                    assert(false);
                    return out;
                },
            };
            assert(session@ == m0[k]);
            let a = session.tick(now, timeout, max_retries);
            let ghost v = session@;
            if session.state != crate::session::SessionState::Completed && session.state
                != crate::session::SessionState::Aborted {
                self.sessions.insert(k, session);
            }
            assert(self@ =~= store(before, k, v));
            let ghost out_before = out@;
            match a {
                TickAction::Resend(w) => {
                    out.push((k, w));
                },
                _ => {},
            }
            assert forall|j: int| 0 <= j < i + 1 implies #[trigger] processed(self@, m0, clients@[j], now, timeout, max_retries) by {
                if j < i {
                    assert(clients@[j] != k);
                    assert(processed(before, m0, clients@[j], now, timeout, max_retries));
                }
            }
            assert forall|j: int|
                0 <= j < i + 1 && (#[trigger] tick_spec(m0[clients@[j]], now, timeout, max_retries).1 is Resend)
                    implies exists|x: int| 0 <= x < out@.len() && out@[x].0 == clients@[j] by {
                if j < i {
                    let x = choose|x: int| 0 <= x < out_before.len() && out_before[x].0 == clients@[j];
                    assert(out@[x] == out_before[x]);
                } else {
                    assert(out@[out@.len() - 1].0 == k);
                }
            }
            let ghost done = i;
            i = i + 1;
            assert forall|j: int| i <= j < clients@.len() implies #[trigger] self@.contains_key(clients@[j])
                && self@[clients@[j]] == m0[clients@[j]] by {
                assert(clients@[j] != clients@[done as int]);
                assert(before.contains_key(clients@[j]));
            }
        }
        assert forall|k: u64| m0.contains_key(k) implies exists|j: int| 0 <= j < clients@.len() && clients@[j] == k by {
            assert(clients@.to_set().contains(k));
        }
        assert(self@ =~= tick_all(m0, now, timeout, max_retries)) by {
            assert forall|k: u64| #[trigger] self@.contains_key(k) <==> tick_all(m0, now, timeout, max_retries).contains_key(k) by {
                if m0.contains_key(k) {
                    let j = choose|j: int| 0 <= j < clients@.len() && clients@[j] == k;
                    assert(processed(self@, m0, clients@[j], now, timeout, max_retries));
                }
            }
            assert forall|k: u64| #[trigger] self@.contains_key(k) implies self@[k] == tick_all(m0, now, timeout, max_retries)[k] by {
                let j = choose|j: int| 0 <= j < clients@.len() && clients@[j] == k;
                assert(processed(self@, m0, clients@[j], now, timeout, max_retries));
            }
        }
        assert forall|k: u64|
            m0.contains_key(k) && #[trigger] tick_spec(m0[k], now, timeout, max_retries).1 is Resend
                implies exists|x: int| 0 <= x < out@.len() && out@[x].0 == k by {
            let j = choose|j: int| 0 <= j < clients@.len() && clients@[j] == k;
            assert(tick_spec(m0[clients@[j]], now, timeout, max_retries).1 is Resend);
        }
        out
    }
}

/// `k`'s entry in `m` is what a supervisor round made of its entry in `m0`.
pub open spec fn processed(
    m: Map<u64, SessionView>,
    m0: Map<u64, SessionView>,
    k: u64,
    now: u64,
    timeout: u64,
    max_retries: u32,
) -> bool {
    let v = tick_spec(m0[k], now, timeout, max_retries).0;
    &&& m.contains_key(k) <==> is_live(v.state)
    &&& m.contains_key(k) ==> m[k] == v
}

/// A repeated or stale Acknowledgement leaves the whole registry as it
/// was: the client's session stays, unchanged.
pub proof fn lemma_duplicate_ack_keeps_registry(
    m: Map<u64, SessionView>,
    client: u64,
    block: u16,
    now: u64,
)
    requires
        m.contains_key(client),
        is_transferring(m[client].state),
        block != m[client].last_sent,
    ensures
        ({
            let (v, a) = receive_spec(
                session_or_fresh(m, client),
                encode_spec(PacketView::Ack { block }),
                now,
            );
            store(m, client, v) == m
        }),
{
    lemma_duplicate_ack_ignored(m[client], block, now);
    assert(m.insert(client, m[client]) =~= m);
}

} // verus!
