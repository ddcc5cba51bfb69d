//! The connection registry and the decisions of the event loop.
//!
//! One record per token holds the socket and its lifecycle phase; the phase
//! carries the pending response, so a response cannot outlive its
//! connection. The timer queue holds exactly one entry for each connection
//! that waits on its delay. The loop around this type performs the I/O and
//! reports readiness events; each method here decides and updates the state.

use vstd::prelude::*;
use crate::request::{delay_of, request_delay};
use crate::response::{build_response, copy_bytes, response_of};
use crate::timers::{TimerEntry, sorted, scheduled, expired_count, schedule, leading_before};

verus! {

/// Where a connection stands in its lifecycle.
pub enum Phase {
    /// Registered for readability, waiting for the request.
    AwaitingRequest,
    /// Request read; no interest registered; the response waits on a timer.
    AwaitingTimer(Vec<u8>),
    /// Timer expired; registered for writability with the response to send.
    AwaitingFlush(Vec<u8>),
}

/// The mathematical value of a `Phase`.
pub enum PhaseView {
    AwaitingRequest,
    AwaitingTimer(Seq<u8>),
    AwaitingFlush(Seq<u8>),
}

impl View for Phase {
    type V = PhaseView;

    open spec fn view(&self) -> PhaseView {
        match self {
            Phase::AwaitingRequest => PhaseView::AwaitingRequest,
            Phase::AwaitingTimer(r) => PhaseView::AwaitingTimer(r@),
            Phase::AwaitingFlush(r) => PhaseView::AwaitingFlush(r@),
        }
    }
}

/// What a timer expiry does to a phase: a waiting response becomes one to
/// flush.
pub open spec fn armed(p: PhaseView) -> PhaseView {
    match p {
        PhaseView::AwaitingTimer(r) => PhaseView::AwaitingFlush(r),
        _ => p,
    }
}

/// The deadline `delay` milliseconds after `now`, saturating at the largest
/// timestamp.
pub open spec fn deadline_after(now: u128, delay: nat) -> u128 {
    if now + delay > u128::MAX {
        u128::MAX
    } else {
        (now + delay) as u128
    }
}

/// What one request gets: the response that carries `body`, and the delay,
/// in milliseconds, that the request asks for before it is sent.
pub fn handle_request(request: &[u8], body: &[u8]) -> (r: (Vec<u8>, u16))
    ensures
        r.0@ == response_of(body@),
        r.1 as nat == delay_of(request@),
{
    (build_response(body), request_delay(request))
}

/// Some entry among the first `n` of `q` is for token `u`.
pub open spec fn in_prefix(q: Seq<TimerEntry>, n: int, u: usize) -> bool {
    exists|a: int| 0 <= a < n && #[trigger] q[a].token == u
}

/// One record per live connection.
pub struct Connection<S> {
    pub socket: S,
    pub phase: Phase,
}

/// The live connections, keyed by token, with the timer queue and the
/// response that every request gets. Token 0 is never handed out: it belongs
/// to the listening socket.
pub struct Server<S> {
    slots: Vec<Option<Connection<S>>>,
    timers: Vec<TimerEntry>,
    response: Vec<u8>,
}

/// A registry whose live tokens, phases and timers are those of a
/// well-formed one is well-formed, whatever its sockets.
proof fn lemma_layout_kept<S>(a: Server<S>, b: Server<S>)
    requires
        a.wf(),
        a.slots@.len() == b.slots@.len(),
        a.timers@ == b.timers@,
        forall|t: usize| #[trigger] b.live(t) == a.live(t),
        forall|t: usize| a.live(t) ==> #[trigger] b.phase_of(t) == a.phase_of(t),
    ensures
        b.wf(),
{
    assert forall|u: usize| #![trigger b.live(u)] b.live(u) && b.phase_of(u) is AwaitingTimer implies exists|k: int|
        0 <= k < b.timers@.len() && #[trigger] b.timers@[k].token == u by {
        assert(a.live(u));
    }
    assert forall|i: int| 0 <= i < b.timers@.len() implies b.live(#[trigger] b.timers@[i].token)
        && b.phase_of(b.timers@[i].token) is AwaitingTimer by {
        assert(a.live(a.timers@[i].token));
    }
}

impl<S> Server<S> {
    /// Token `t` names a live connection.
    pub closed spec fn live(&self, t: usize) -> bool {
        1 <= t <= self.slots@.len() && self.slots@[t - 1] is Some
    }

    pub closed spec fn phase_of(&self, t: usize) -> PhaseView {
        self.slots@[t - 1]->Some_0.phase@
    }

    /// The socket of live connection `t`.
    pub closed spec fn socket_of(&self, t: usize) -> S {
        self.slots@[t - 1]->Some_0.socket
    }

    /// Every live connection of both `self` and `other`, but `except`, has
    /// the same socket in both.
    pub open spec fn sockets_kept(&self, other: &Self, except: usize) -> bool {
        forall|u: usize|
            u != except && self.live(u) && other.live(u) ==> #[trigger] self.socket_of(u) == other.socket_of(u)
    }

    /// The live connections: token to phase.
    pub open spec fn conns(&self) -> Map<usize, PhaseView> {
        Map::new(|t: usize| self.live(t), |t: usize| self.phase_of(t))
    }

    /// The timer queue, front first.
    pub closed spec fn timers(&self) -> Seq<TimerEntry> {
        self.timers@
    }

    /// The response that every request gets.
    pub closed spec fn response(&self) -> Seq<u8> {
        self.response@
    }

    /// The registry is consistent: the queue is in deadline order, and its
    /// entries are exactly one for each connection that waits on a timer.
    pub closed spec fn wf(&self) -> bool {
        &&& self.slots@.len() < usize::MAX
        &&& sorted(self.timers@)
        &&& forall|i: int|
            0 <= i < self.timers@.len() ==> self.live(#[trigger] self.timers@[i].token)
                && self.phase_of(self.timers@[i].token) is AwaitingTimer
        &&& forall|i: int, j: int|
            0 <= i < j < self.timers@.len() ==> #[trigger] self.timers@[i].token
                != #[trigger] self.timers@[j].token
        &&& forall|t: usize|
            #![trigger self.live(t)]
            self.live(t) && self.phase_of(t) is AwaitingTimer ==> exists|i: int|
                0 <= i < self.timers@.len() && #[trigger] self.timers@[i].token == t
    }

    /// An empty registry whose connections will all be answered with `body`.
    pub fn new(body: &[u8]) -> (r: Server<S>)
        ensures
            r.wf(),
            r.conns() == Map::<usize, PhaseView>::empty(),
            r.timers() == Seq::<TimerEntry>::empty(),
            r.response() == response_of(body@),
    {
        let r = Server { slots: Vec::new(), timers: Vec::new(), response: build_response(body) };
        assert(r.conns() =~= Map::<usize, PhaseView>::empty());
        r
    }
    /// The token that `add_connection` hands out next: the lowest one not in use.
    pub open spec fn lowest_free(&self, t: usize) -> bool {
        &&& t >= 1
        &&& !self.conns().contains_key(t)
        &&& forall|u: usize| 1 <= u < t ==> self.conns().contains_key(u)
    }

    /// Takes ownership of a newly accepted socket and gives it the lowest
    /// free token, waiting for its request. When every token that a `usize`
    /// can hold is in use, the socket is handed back.
    pub fn add_connection(&mut self, socket: S) -> (r: Result<usize, S>)
        requires
            old(self).wf(),
        ensures
            final(self).wf(),
            final(self).sockets_kept(old(self), 0),
            final(self).timers() == old(self).timers(),
            final(self).response() == old(self).response(),
            match r {
                Ok(t) => {
                    &&& old(self).lowest_free(t)
                    &&& final(self).conns() == old(self).conns().insert(t, PhaseView::AwaitingRequest)
                    &&& final(self).socket_of(t) == socket
                },
                Err(s) => {
                    &&& s == socket
                    &&& final(self).conns() == old(self).conns()
                    &&& forall|u: usize| 1 <= u < usize::MAX ==> old(self).conns().contains_key(u)
                },
            },
    {
        let mut i: usize = 0;
        while i < self.slots.len() && self.slots[i].is_some()
            invariant
                i <= self.slots@.len(),
                forall|j: int| 0 <= j < i ==> self.slots@[j] is Some,
            decreases self.slots@.len() - i,
        {
            i = i + 1;
        }
        let ghost old_self = *self;
        let c = Connection { socket, phase: Phase::AwaitingRequest };
        if i < self.slots.len() {
            self.slots.set(i, Some(c));
        } else if self.slots.len() < usize::MAX - 1 {
            self.slots.push(Some(c));
        } else {
            proof {
                assert forall|u: usize| 1 <= u < usize::MAX implies old_self.conns().contains_key(u) by {
                    assert(old_self.slots@[u - 1] is Some);
                }
            }
            return Err(c.socket);
        }
        let t = i + 1;
        proof {
            assert forall|u: usize| 1 <= u < t implies old_self.conns().contains_key(u) by {
                assert(old_self.slots@[u - 1] is Some);
            }
            assert(self.conns() =~= old_self.conns().insert(t, PhaseView::AwaitingRequest));
            assert forall|u: usize| #![trigger self.live(u)] self.live(u) && self.phase_of(u) is AwaitingTimer implies exists|k: int|
                0 <= k < self.timers@.len() && #[trigger] self.timers@[k].token == u by {
                assert(u != t);
                assert(old_self.live(u));
                assert(old_self.phase_of(u) == self.phase_of(u));
                let k = choose|k: int| 0 <= k < old_self.timers@.len() && #[trigger] old_self.timers@[k].token == u;
                assert(self.timers@[k].token == u);
            }
        }
        Ok(t)
    }

    /// The socket of connection `token`, if it is live.
    pub fn socket(&self, token: usize) -> (r: Option<&S>)
        ensures
            r is Some <==> self.conns().contains_key(token),
            r matches Some(s) ==> *s == self.socket_of(token),
    {
        if token == 0 || token > self.slots.len() {
            return None;
        }
        match &self.slots[token - 1] {
            Some(c) => Some(&c.socket),
            None => None,
        }
    }
    /// Removes the connection's record, leaving `None` in its slot.
    fn take_slot(&mut self, token: usize) -> (r: Option<Connection<S>>)
        requires
            1 <= token <= old(self).slots@.len(),
        ensures
            r == old(self).slots@[token - 1],
            final(self).slots@ == old(self).slots@.update(token - 1, None),
            final(self).timers == old(self).timers,
            final(self).response == old(self).response,
    {
        let mut tmp: Option<Connection<S>> = None;
        self.slots.set_and_swap(token - 1, &mut tmp);
        tmp
    }

    /// Position of `token` in the timer queue, known to hold it.
    fn timer_position(&self, token: usize) -> (r: usize)
        requires
            exists|i: int| 0 <= i < self.timers@.len() && #[trigger] self.timers@[i].token == token,
        ensures
            r < self.timers@.len(),
            self.timers@[r as int].token == token,
    {
        let mut i: usize = 0;
        while i < self.timers.len()
            invariant
                i <= self.timers@.len(),
                forall|j: int| 0 <= j < i ==> self.timers@[j].token != token,
                exists|k: int| 0 <= k < self.timers@.len() && #[trigger] self.timers@[k].token == token,
            decreases self.timers@.len() - i,
        {
            if self.timers[i].token == token {
                return i;
            }
            i = i + 1;
        }
        proof {
            let k = choose|k: int| 0 <= k < self.timers@.len() && #[trigger] self.timers@[k].token == token;
            assert(self.timers@[k].token != token);
        }
        0
    }

    /// Tears connection `token` down: its record, its pending response and
    /// its timer go, and its socket is handed back for deregistration. A
    /// token that is not live changes nothing.
    pub fn close(&mut self, token: usize) -> (r: Option<S>)
        requires
            old(self).wf(),
        ensures
            final(self).wf(),
            final(self).sockets_kept(old(self), token),
            final(self).response() == old(self).response(),
            r is Some <==> old(self).conns().contains_key(token),
            r matches Some(s) ==> s == old(self).socket_of(token),
            final(self).conns() == old(self).conns().remove(token),
            old(self).conns().contains_key(token) && old(self).conns()[token] is AwaitingTimer
                ==> exists|i: int|
                0 <= i < old(self).timers().len() && old(self).timers()[i].token == token
                    && final(self).timers() == old(self).timers().remove(i),
            !(old(self).conns().contains_key(token) && old(self).conns()[token] is AwaitingTimer)
                ==> final(self).timers() == old(self).timers(),
    {
        if token == 0 || token > self.slots.len() {
            proof {
                assert(self.conns().remove(token) =~= self.conns());
            }
            return None;
        }
        let ghost old_self = *self;
        let slot = self.take_slot(token);
        proof {
            assert(self.conns() =~= old_self.conns().remove(token));
        }
        match slot {
            None => {
                proof {
                    assert(self.slots@ =~= old_self.slots@);
                    assert(!old_self.live(token));
                    assert(!old_self.conns().contains_key(token));
                    assert forall|u: usize| #![trigger self.live(u)] self.live(u) && self.phase_of(u) is AwaitingTimer implies exists|k: int|
                        0 <= k < self.timers@.len() && #[trigger] self.timers@[k].token == u by {
                        assert(old_self.live(u));
                    }
                }
                None
            },
            Some(c) => {
                let Connection { socket, phase } = c;
                match phase {
                    Phase::AwaitingTimer(_) => {
                        proof {
                            assert(old_self.live(token));
                            assert(old_self.phase_of(token) is AwaitingTimer);
                        }
                        let i = self.timer_position(token);
                        self.timers.remove(i);
                        proof {
                            let q = old_self.timers@;
                            let q2 = self.timers@;
                            assert(q2 == q.remove(i as int));
                            assert(old_self.timers()[i as int].token == token);
                            assert(self.timers() == old_self.timers().remove(i as int));
                            assert forall|a: int, b: int| 0 <= a < b < q2.len() implies q2[a].deadline <= q2[b].deadline by {
                                if a < i && b >= i {
                                    assert(q2[b] == q[b + 1]);
                                } else if a >= i {
                                    assert(q2[a] == q[a + 1]);
                                    assert(q2[b] == q[b + 1]);
                                }
                            }
                            assert forall|a: int| 0 <= a < q2.len() implies self.live(#[trigger] q2[a].token)
                                && self.phase_of(q2[a].token) is AwaitingTimer by {
                                if a < i {
                                    assert(q2[a] == q[a]);
                                } else {
                                    assert(q2[a] == q[a + 1]);
                                }
                            }
                            assert forall|a: int, b: int| 0 <= a < b < q2.len() implies #[trigger] q2[a].token != #[trigger] q2[b].token by {
                                if a < i && b >= i {
                                    assert(q2[b] == q[b + 1]);
                                } else if a >= i {
                                    assert(q2[a] == q[a + 1]);
                                    assert(q2[b] == q[b + 1]);
                                }
                            }
                            assert forall|u: usize| #![trigger self.live(u)] self.live(u) && self.phase_of(u) is AwaitingTimer implies exists|k: int|
                                0 <= k < q2.len() && #[trigger] q2[k].token == u by {
                                assert(old_self.live(u));
                                let k = choose|k: int| 0 <= k < q.len() && #[trigger] q[k].token == u;
                                assert(k != i);
                                if k < i {
                                    assert(q2[k] == q[k]);
                                } else {
                                    assert(q2[k - 1] == q[k]);
                                }
                            }
                        }
                    },
                    _ => {
                        proof {
                            assert forall|u: usize| #![trigger self.live(u)] self.live(u) && self.phase_of(u) is AwaitingTimer implies exists|k: int|
                                0 <= k < self.timers@.len() && #[trigger] self.timers@[k].token == u by {
                                assert(old_self.live(u));
                            }
                        }
                    },
                }
                Some(socket)
            },
        }
    }
    /// Handles a readable connection whose request bytes are `request`, read
    /// at time `now`. A connection that waits for its request gets the
    /// response as pending and a timer for the delay that the request asks
    /// for, which is returned; any other token changes nothing.
    pub fn on_readable(&mut self, token: usize, request: &[u8], now: u128) -> (r: Option<u16>)
        requires
            old(self).wf(),
        ensures
            final(self).wf(),
            final(self).sockets_kept(old(self), token),
            final(self).response() == old(self).response(),
            old(self).conns().contains_key(token) && old(self).conns()[token] == PhaseView::AwaitingRequest
                ==> {
                &&& r == Some(delay_of(request@) as u16)
                &&& final(self).conns() == old(self).conns().insert(
                    token,
                    PhaseView::AwaitingTimer(old(self).response()),
                )
                &&& final(self).timers() == scheduled(
                    old(self).timers(),
                    TimerEntry { deadline: deadline_after(now, delay_of(request@)), token },
                )
                &&& final(self).socket_of(token) == old(self).socket_of(token)
            },
            !(old(self).conns().contains_key(token) && old(self).conns()[token] == PhaseView::AwaitingRequest)
                ==> {
                &&& r is None
                &&& final(self).conns() == old(self).conns()
                &&& final(self).timers() == old(self).timers()
            },
    {
        if token == 0 || token > self.slots.len() {
            return None;
        }
        let waiting = match &self.slots[token - 1] {
            Some(c) => match c.phase {
                Phase::AwaitingRequest => true,
                _ => false,
            },
            None => false,
        };
        if !waiting {
            return None;
        }
        let delay = request_delay(request);
        let d = delay as u128;
        let deadline = if now > u128::MAX - d {
            u128::MAX
        } else {
            now + d
        };
        let ghost old_self = *self;
        let pending = copy_bytes(&self.response);
        let slot = self.take_slot(token);
        let socket = match slot {
            Some(c) => c.socket,
            None => {
                return None;
            },
        };
        self.slots.set(token - 1, Some(Connection { socket, phase: Phase::AwaitingTimer(pending) }));
        let e = TimerEntry { deadline, token };
        proof {
            assert(self.conns() =~= old_self.conns().insert(token, PhaseView::AwaitingTimer(old_self.response())));
            crate::timers::lemma_count_before(old_self.timers@, e.deadline + 1);
        }
        schedule(&mut self.timers, e);
        proof {
            let q = old_self.timers@;
            let q2 = self.timers@;
            let p = crate::timers::count_before(q, e.deadline + 1) as int;
            assert(q2 == q.insert(p, e));
            assert forall|a: int| 0 <= a < q2.len() implies self.live(#[trigger] q2[a].token)
                && self.phase_of(q2[a].token) is AwaitingTimer by {
                if a < p {
                    assert(q2[a] == q[a]);
                    assert(old_self.live(q[a].token));
                } else if a > p {
                    assert(q2[a] == q[a - 1]);
                    assert(old_self.live(q[a - 1].token));
                }
            }
            assert forall|a: int, b: int| 0 <= a < b < q2.len() implies #[trigger] q2[a].token != #[trigger] q2[b].token by {
                if a < p && b > p {
                    assert(q2[b] == q[b - 1]);
                } else if a > p {
                    assert(q2[a] == q[a - 1]);
                    assert(q2[b] == q[b - 1]);
                } else if a == p {
                    assert(q2[b] == q[b - 1]);
                    assert(old_self.live(q[b - 1].token));
                } else if b == p {
                    assert(old_self.live(q[a].token));
                }
            }
            assert forall|u: usize| #![trigger self.live(u)] self.live(u) && self.phase_of(u) is AwaitingTimer implies exists|k: int|
                0 <= k < q2.len() && #[trigger] q2[k].token == u by {
                if u == token {
                    assert(q2[p].token == u);
                } else {
                    assert(old_self.live(u));
                    let k = choose|k: int| 0 <= k < q.len() && #[trigger] q[k].token == u;
                    if k < p {
                        assert(q2[k] == q[k]);
                    } else {
                        assert(q2[k + 1] == q[k]);
                    }
                }
            }
        }
        Some(delay)
    }
    /// Handles the timers expired at `now`: the entries at the front of the
    /// queue whose deadline is strictly before `now` leave it, and each of
    /// their connections turns from waiting on its timer to waiting to flush.
    /// Returns those tokens in queue order; each is to be registered for
    /// writability.
    pub fn drain_expired(&mut self, now: u128) -> (r: Vec<usize>)
        requires
            old(self).wf(),
        ensures
            final(self).wf(),
            final(self).sockets_kept(old(self), 0),
            final(self).response() == old(self).response(),
            r@.len() == expired_count(old(self).timers(), now),
            forall|j: int| 0 <= j < r@.len() ==> r@[j] == old(self).timers()[j].token,
            final(self).timers() == old(self).timers().skip(r@.len() as int),
            final(self).conns() == Map::new(
                |t: usize| old(self).conns().contains_key(t),
                |t: usize|
                    if r@.contains(t) {
                        armed(old(self).conns()[t])
                    } else {
                        old(self).conns()[t]
                    },
            ),
    {
        let k = leading_before(&self.timers, now);
        let ghost old_self = *self;
        let ghost q = self.timers@;
        proof {
            crate::timers::lemma_count_before(q, now as int);
        }
        let mut head = self.timers.split_off(k);
        std::mem::swap(&mut self.timers, &mut head);
        let mut out: Vec<usize> = Vec::new();
        let mut j: usize = 0;
        while j < k
            invariant
                old_self.wf(),
                q == old_self.timers@,
                k == expired_count(q, now),
                k <= q.len(),
                j <= k,
                self.timers@ == q.skip(k as int),
                head@ == q.take(k as int),
                self.response@ == old_self.response@,
                self.slots@.len() == old_self.slots@.len(),
                out@.len() == j,
                forall|a: int| 0 <= a < j ==> out@[a] == q[a].token,
                forall|t: usize| self.live(t) == old_self.live(t),
                self.sockets_kept(&old_self, 0),
                forall|t: usize|
                    #![trigger self.phase_of(t)]
                    old_self.live(t) ==> self.phase_of(t) == if in_prefix(q, j as int, t) {
                        armed(old_self.phase_of(t))
                    } else {
                        old_self.phase_of(t)
                    },
            decreases k - j,
        {
            let t = head[j].token;
            proof {
                assert(q[j as int] == head@[j as int]);
                assert(old_self.live(t));
                assert(!in_prefix(q, j as int, t));
            }
            let ghost before = *self;
            let slot = self.take_slot(t);
            match slot {
                Some(c) => {
                    let Connection { socket, phase } = c;
                    let np = match phase {
                        Phase::AwaitingTimer(b) => Phase::AwaitingFlush(b),
                        other => other,
                    };
                    self.slots.set(t - 1, Some(Connection { socket, phase: np }));
                },
                None => {},
            }
            out.push(t);
            proof {
                assert forall|u: usize| u != 0 && self.live(u) && old_self.live(u) implies #[trigger] self.socket_of(u) == old_self.socket_of(u) by {
                    if u != t {
                        assert(before.socket_of(u) == self.socket_of(u));
                    }
                }
                assert forall|u: usize| #![trigger self.phase_of(u)] old_self.live(u) implies self.phase_of(u) == if in_prefix(q, j + 1, u) {
                    armed(old_self.phase_of(u))
                } else {
                    old_self.phase_of(u)
                } by {
                    if u == t {
                        assert(q[j as int].token == u);
                    } else {
                        assert(before.phase_of(u) == self.phase_of(u));
                        if in_prefix(q, j + 1, u) {
                            let a = choose|a: int| 0 <= a < j + 1 && #[trigger] q[a].token == u;
                            assert(a != j);
                        } else {
                            assert(!in_prefix(q, j as int, u));
                        }
                    }
                }
            }
            j = j + 1;
        }
        proof {
            let q2 = self.timers@;
            assert(q2 == q.skip(k as int));
            assert forall|a: int| 0 <= a < q2.len() implies self.live(#[trigger] q2[a].token)
                && self.phase_of(q2[a].token) is AwaitingTimer by {
                let u = q2[a].token;
                assert(q[a + k] == q2[a]);
                assert(old_self.live(u));
                if in_prefix(q, k as int, u) {
                    let b = choose|b: int| 0 <= b < k && #[trigger] q[b].token == u;
                    assert(q[b].token != q[a + k].token);
                }
            }
            assert forall|a: int, b: int| 0 <= a < b < q2.len() implies #[trigger] q2[a].token != #[trigger] q2[b].token by {
                assert(q[a + k] == q2[a]);
                assert(q[b + k] == q2[b]);
            }
            assert forall|u: usize| #![trigger self.live(u)] self.live(u) && self.phase_of(u) is AwaitingTimer implies exists|c: int|
                0 <= c < q2.len() && #[trigger] q2[c].token == u by {
                assert(old_self.live(u));
                if in_prefix(q, k as int, u) {
                    let b = choose|b: int| 0 <= b < k && #[trigger] q[b].token == u;
                    assert(old_self.phase_of(q[b].token) is AwaitingTimer);
                } else {
                    let c = choose|c: int| 0 <= c < q.len() && #[trigger] q[c].token == u;
                    if c < k {
                        assert(in_prefix(q, k as int, u));
                    }
                    assert(q2[c - k] == q[c]);
                }
            }
            assert forall|u: usize| out@.contains(u) <==> in_prefix(q, k as int, u) by {
                if out@.contains(u) {
                    let a = choose|a: int| 0 <= a < out@.len() && out@[a] == u;
                    assert(q[a].token == u);
                }
                if in_prefix(q, k as int, u) {
                    let a = choose|a: int| 0 <= a < k && #[trigger] q[a].token == u;
                    assert(out@[a] == u);
                }
            }
            let m = Map::new(
                |t: usize| old_self.conns().contains_key(t),
                |t: usize|
                    if out@.contains(t) {
                        armed(old_self.conns()[t])
                    } else {
                        old_self.conns()[t]
                    },
            );
            assert(self.conns() =~= m);
        }
        out
    }

    /// Handles a writable connection; `write_closed` tells that the peer has
    /// closed its reading side. A connection that waits to flush is torn
    /// down, and its socket is handed back with the bytes to write: its
    /// response, or nothing when the peer can no longer read. Any other token
    /// changes nothing.
    pub fn on_writable(&mut self, token: usize, write_closed: bool) -> (r: Option<(S, Option<Vec<u8>>)>)
        requires
            old(self).wf(),
        ensures
            final(self).wf(),
            final(self).sockets_kept(old(self), token),
            final(self).response() == old(self).response(),
            final(self).timers() == old(self).timers(),
            old(self).conns().contains_key(token) && old(self).conns()[token] is AwaitingFlush ==> {
                &&& r matches Some((s, w)) && s == old(self).socket_of(token) && if write_closed {
                    w is None
                } else {
                    w matches Some(b) && old(self).conns()[token] == PhaseView::AwaitingFlush(b@)
                }
                &&& final(self).conns() == old(self).conns().remove(token)
            },
            !(old(self).conns().contains_key(token) && old(self).conns()[token] is AwaitingFlush) ==> {
                &&& r is None
                &&& final(self).conns() == old(self).conns()
            },
    {
        if token == 0 || token > self.slots.len() {
            return None;
        }
        let flushing = match &self.slots[token - 1] {
            Some(c) => match c.phase {
                Phase::AwaitingFlush(_) => true,
                _ => false,
            },
            None => false,
        };
        if !flushing {
            return None;
        }
        let ghost old_self = *self;
        let slot = self.take_slot(token);
        proof {
            assert(self.conns() =~= old_self.conns().remove(token));
            assert forall|u: usize| #![trigger self.live(u)] self.live(u) && self.phase_of(u) is AwaitingTimer implies exists|k: int|
                0 <= k < self.timers@.len() && #[trigger] self.timers@[k].token == u by {
                assert(old_self.live(u));
            }
            assert forall|a: int| 0 <= a < self.timers@.len() implies self.live(#[trigger] self.timers@[a].token)
                && self.phase_of(self.timers@[a].token) is AwaitingTimer by {
                assert(old_self.live(self.timers@[a].token));
            }
        }
        match slot {
            Some(c) => {
                let Connection { socket, phase } = c;
                match phase {
                    Phase::AwaitingFlush(b) => {
                        if write_closed {
                            Some((socket, None))
                        } else {
                            Some((socket, Some(b)))
                        }
                    },
                    _ => Some((socket, None)),
                }
            },
            None => None,
        }
    }
    /// The socket of connection `token`, if it is live, to change its
    /// registration; the registry is otherwise left as it was.
    pub fn socket_mut(&mut self, token: usize) -> (r: Option<&mut S>)
        requires
            old(self).wf(),
        ensures
            r is Some <==> old(self).conns().contains_key(token),
            r is Some ==> *r.unwrap() == old(self).socket_of(token),
            r is Some ==> final(self).socket_of(token) == *final(r.unwrap()),
            final(self).wf(),
            final(self).sockets_kept(old(self), token),
            final(self).conns() == old(self).conns(),
            final(self).timers() == old(self).timers(),
            final(self).response() == old(self).response(),
    {
        if token == 0 || token > self.slots.len() {
            return None;
        }
        let ghost before = *self;
        let r = match self.slots[token - 1].as_mut() {
            Some(c) => Some(&mut c.socket),
            None => None,
        };
        proof {
            lemma_layout_kept(before, after_borrow(*self));
        }
        r
    }
    /// No connection is live.
    pub fn is_idle(&self) -> (r: bool)
        ensures
            r == (self.conns() == Map::<usize, PhaseView>::empty()),
    {
        let mut i: usize = 0;
        while i < self.slots.len()
            invariant
                i <= self.slots@.len(),
                forall|j: int| 0 <= j < i ==> self.slots@[j] is None,
            decreases self.slots@.len() - i,
        {
            if self.slots[i].is_some() {
                proof {
                    let t = (i + 1) as usize;
                    assert(self.conns().contains_key(t));
                }
                return false;
            }
            i = i + 1;
        }
        assert(self.conns() =~= Map::<usize, PhaseView>::empty());
        true
    }

    /// Number of timers that wait to expire.
    pub fn timer_count(&self) -> (r: usize)
        ensures
            r == self.timers().len(),
    {
        self.timers.len()
    }

    /// Every timer entry belongs to a live connection that waits on it, and
    /// no two entries share a token: at most one pending response per token,
    /// and at most one timer for it.
    pub proof fn lemma_timers_match_waiting(&self)
        requires
            self.wf(),
        ensures
            forall|i: int|
                0 <= i < self.timers().len() ==> self.conns().contains_key(#[trigger] self.timers()[i].token)
                    && self.conns()[self.timers()[i].token] is AwaitingTimer,
            forall|i: int, j: int|
                0 <= i < j < self.timers().len() ==> #[trigger] self.timers()[i].token
                    != #[trigger] self.timers()[j].token,
            forall|t: usize|
                #[trigger] self.conns().contains_key(t) && self.conns()[t] is AwaitingTimer ==> exists|i: int|
                    0 <= i < self.timers().len() && #[trigger] self.timers()[i].token == t,
    {
        assert forall|t: usize| #[trigger] self.conns().contains_key(t) && self.conns()[t] is AwaitingTimer implies exists|i: int|
            0 <= i < self.timers().len() && #[trigger] self.timers()[i].token == t by {
            assert(self.live(t));
        }
    }

    /// Once every connection is closed nothing is left behind: no pending
    /// response and no timer.
    pub proof fn lemma_idle_leaves_nothing(&self)
        requires
            self.wf(),
            self.conns() == Map::<usize, PhaseView>::empty(),
        ensures
            self.timers().len() == 0,
    {
        if self.timers@.len() > 0 {
            assert(self.live(self.timers@[0].token));
            assert(self.conns().contains_key(self.timers@[0].token));
        }
    }
}

} // verus!
