use vstd::prelude::*;
use crate::engine::{Effect, FloatQuery, answers_all, arranged, lemma_wf_set_client, lemma_prefix_concat, lemma_prefix_trans};
use crate::lifecycle::WITHDRAWN_STATE;
use crate::membership::{detached, lemma_without_dead, lemma_without_set_client};
use crate::model::{Client, Wm, WmView};
use crate::procs::{ancestor_found, isdescprocess};

verus! {

/// Client `t` is a terminal that may swallow a window of a process whose
/// ancestry is `chain`: it swallowed nothing yet, has a known process, and
/// that process is met walking up the chain.
pub open spec fn swallower(v: WmView, t: usize, chain: Seq<i32>) -> bool {
    let cl = v.clients[t as int];
    cl.isterminal && cl.swallowing is None && cl.pid != 0 && ancestor_found(cl.pid, chain) != 0
}

/// The first client of `s` that may swallow.
pub open spec fn first_swallower(v: WmView, s: Seq<usize>, chain: Seq<i32>) -> Option<usize>
    decreases s.len(),
{
    if s.len() == 0 {
        None
    } else if swallower(v, s[0], chain) {
        Some(s[0])
    } else {
        first_swallower(v, s.drop_first(), chain)
    }
}

/// The first client that may swallow in the client lists of monitors `k`,
/// `k + 1`, and so on.
pub open spec fn swallower_from(v: WmView, k: int, chain: Seq<i32>) -> Option<usize>
    decreases v.mons.len() - k,
{
    if k < 0 || k >= v.mons.len() {
        None
    } else {
        match first_swallower(v, v.mons[k].clients, chain) {
            Some(t) => Some(t),
            None => swallower_from(v, k + 1, chain),
        }
    }
}

/// The terminal that swallows a new client `c`, whose process has the
/// ancestry `chain`: none for a client without a known process or that is
/// itself a terminal.
pub open spec fn terminal_for(v: WmView, c: Client, chain: Seq<i32>) -> Option<usize> {
    if c.pid == 0 || c.isterminal { None } else { swallower_from(v, 0, chain) }
}

proof fn lemma_first_swallower_step(v: WmView, s: Seq<usize>, i: int, chain: Seq<i32>)
    requires
        0 <= i < s.len(),
    ensures
        first_swallower(v, s.subrange(i, s.len() as int), chain) ==
            (if swallower(v, s[i], chain) { Some(s[i]) } else { first_swallower(v, s.subrange(i + 1, s.len() as int), chain) }),
{
    assert(s.subrange(i, s.len() as int).drop_first() =~= s.subrange(i + 1, s.len() as int));
}

proof fn lemma_first_swallower_in(v: WmView, s: Seq<usize>, chain: Seq<i32>)
    ensures
        first_swallower(v, s, chain) matches Some(t) ==> s.contains(t) && swallower(v, t, chain),
    decreases s.len(),
{
    if s.len() > 0 && !swallower(v, s[0], chain) {
        lemma_first_swallower_in(v, s.drop_first(), chain);
        if let Some(t) = first_swallower(v, s.drop_first(), chain) {
            let j = choose|j: int| 0 <= j < s.drop_first().len() && s.drop_first()[j] == t;
            assert(s[j + 1] == t);
        }
    } else if s.len() > 0 {
        assert(s[0] == s[0]);
    }
}

/// A terminal found is a managed client.
pub proof fn lemma_swallower_from_in(v: WmView, k: int, chain: Seq<i32>)
    requires
        v.wf(),
    ensures
        swallower_from(v, k, chain) matches Some(t) ==> (t as int) < v.clients.len() && v.clients[t as int].alive
            && swallower(v, t, chain),
    decreases v.mons.len() - k,
{
    if 0 <= k < v.mons.len() {
        lemma_first_swallower_in(v, v.mons[k].clients, chain);
        match first_swallower(v, v.mons[k].clients, chain) {
            Some(t) => {
                assert(v.mon_ok(k));
                let j = choose|j: int| 0 <= j < v.mons[k].clients.len() && v.mons[k].clients[j] == t;
                assert(v.client_on(v.mons[k].clients[j] as int, k));
            },
            None => { lemma_swallower_from_in(v, k + 1, chain); },
        }
    }
}

/// Terminal `t` swallowed client `c`: it shows `c`'s window and keeps its
/// own window aside; `c` no longer sits in any list and its slot is free.
pub open spec fn swallowed_state(v: WmView, t: usize, c: usize) -> WmView {
    detached(v, c)
        .set_client(t as int, taking_over(v.clients[t as int], v.clients[c as int]))
        .set_client(c as int, released_client(v.clients[c as int]))
}

/// Terminal `tc` showing the window of client `cc`, its own window aside.
pub open spec fn taking_over(tc: Client, cc: Client) -> Client {
    Client { swallowing: Some(tc.win), win: cc.win, ..tc }
}

/// Client `cc` with its slot free.
pub open spec fn released_client(cc: Client) -> Client {
    Client { alive: false, ..cc }
}

/// Terminal `t` swallowing client `c` took `v` to `v2`: nothing happens for
/// a client that may not be swallowed or is a terminal; else the terminal
/// swallows it and its monitor is arranged.
pub open spec fn swallow_post<F: Fn(FloatQuery) -> (i32, i32)>(v: WmView, t: usize, c: usize, v2: WmView, fq: &F) -> bool {
    let cc = v.clients[c as int];
    if cc.noswallow || cc.isterminal {
        v2 == v
    } else {
        arranged(swallowed_state(v, t, c), v.clients[t as int].mon as int, v2, fq)
    }
}

/// The requests of terminal `t` swallowing client `c`, which took `v` to
/// `v2`: none where it may not; else `c`'s window withdrawn, the terminal's
/// unmapped, the title read again, `c`'s window moved to the terminal's
/// geometry, the requests of arranging the monitor, then the terminal told
/// its geometry and the client list rewritten.
pub open spec fn swallow_fx<F: Fn(FloatQuery) -> (i32, i32)>(v: WmView, t: usize, c: usize, v2: WmView, e: Seq<Effect>, fq: &F) -> bool {
    let cc = v.clients[c as int];
    let tc = v.clients[t as int];
    let nc = v2.clients[t as int];
    if cc.noswallow || cc.isterminal {
        e == Seq::<Effect>::empty()
    } else {
        &&& 6 <= e.len()
        &&& e.subrange(0, 4) == seq![
                Effect::SetClientState { win: cc.win, state: WITHDRAWN_STATE },
                Effect::UnmapWindow { win: tc.win },
                Effect::UpdateTitle { client: t },
                Effect::MoveResize { win: cc.win, x: tc.x, y: tc.y, w: tc.w, h: tc.h },
            ]
        &&& e.subrange(e.len() - 2, e.len() as int) == seq![
                Effect::NotifyConfigure { win: nc.win, x: nc.x, y: nc.y, w: nc.w, h: nc.h, bw: nc.bw },
                Effect::UpdateClientList,
            ]
        &&& crate::engine::arranged_fx(swallowed_state(v, t, c), tc.mon as int, v2, e.subrange(4, e.len() - 2), fq)
    }
}

impl Wm {
    /// Terminal `t` takes over client `c`'s window; `c` is released.
    fn take_in(&mut self, t: usize, c: usize)
        requires
            old(self)@.wf(),
            (t as int) < old(self)@.clients.len(),
            (c as int) < old(self)@.clients.len(),
            old(self)@.clients[t as int].alive,
            t != c,
            old(self)@.clients[c as int].alive,
        ensures
            final(self)@.wf(),
            final(self)@ == swallowed_state(old(self)@, t, c),
    {
        let ghost v = self@;
        let cc = self.clients[c];
        let tc = self.clients[t];
        let n = self.clients.len();
        proof { lemma_swallowed_wf(v, t, c); }
        self.detach_both(c);
        let ghost d = self@;
        self.clients[t].swallowing = Some(tc.win);
        self.clients[t].win = cc.win;
        self.clients[c].alive = false;
        proof {
            let t2 = swallowed_state(v, t, c);
            assert(d == detached(v, c));
            assert(self@.clients =~= t2.clients);
            assert(self@.names =~= t2.names);
            assert(self@.mons =~= t2.mons);
        }
    }

    fn first_swallower_in(&self, k: usize, chain: &[i32]) -> (r: Option<usize>)
        requires
            self@.wf(),
            (k as int) < self@.mons.len(),
        ensures
            r == first_swallower(self@, self@.mons[k as int].clients, chain@),
    {
        let ghost s = self@.mons[k as int].clients;
        proof { assert(self@.mon_ok(k as int)); }
        let n = self.mons[k].clients.len();
        let mut i: usize = 0;
        proof { assert(s.subrange(0, n as int) =~= s); }
        while i < n
            invariant
                self@.wf(),
                (k as int) < self@.mons.len(),
                s == self@.mons[k as int].clients,
                n == s.len(),
                i <= n,
                forall|j: int| 0 <= j < s.len() ==> #[trigger] self@.client_on(s[j] as int, k as int),
                first_swallower(self@, s.subrange(i as int, n as int), chain@) == first_swallower(self@, s, chain@),
            decreases n - i,
        {
            let c = self.mons[k].clients[i];
            proof {
                assert(self@.client_on(s[i as int] as int, k as int));
                lemma_first_swallower_step(self@, s, i as int, chain@);
            }
            let cl = &self.clients[c];
            if cl.isterminal && cl.swallowing.is_none() && cl.pid != 0 && isdescprocess(cl.pid, chain) != 0 {
                return Some(c);
            }
            i += 1;
        }
        proof { assert(s.subrange(n as int, n as int).len() == 0); }
        None
    }

    /// The terminal that swallows new client `c`, whose process has the
    /// ancestry `chain` (its own id first, then its parent's, and so on).
    pub fn termforwin(&self, c: &Client, chain: &[i32]) -> (r: Option<usize>)
        requires
            self@.wf(),
        ensures
            r == terminal_for(self@, *c, chain@),
            r matches Some(t) ==> (t as int) < self@.clients.len() && self@.clients[t as int].alive
                && swallower(self@, t, chain@),
    {
        proof { lemma_swallower_from_in(self@, 0, chain@); }
        if c.pid == 0 || c.isterminal {
            return None;
        }
        let n = self.mons.len();
        let mut k: usize = 0;
        while k < n
            invariant
                self@.wf(),
                n == self@.mons.len(),
                k <= n,
                swallower_from(self@, k as int, chain@) == swallower_from(self@, 0, chain@),
                !(c.pid == 0 || c.isterminal),
                swallower_from(self@, 0, chain@) matches Some(t) ==> (t as int) < self@.clients.len()
                    && self@.clients[t as int].alive && swallower(self@, t, chain@),
            decreases n - k,
        {
            match self.first_swallower_in(k, chain) {
                Some(t) => { return Some(t); },
                None => {},
            }
            k += 1;
        }
        None
    }

    /// Terminal `t` swallows client `c`: `c` leaves its lists and is
    /// withdrawn, the terminal's window is unmapped, and the terminal shows
    /// `c`'s window in its place. A client that may not be swallowed, or
    /// that is a terminal, stays as it is.
    pub fn swallow<F: Fn(FloatQuery) -> (i32, i32)>(&mut self, t: usize, c: usize, fq: &F, fx: &mut Vec<Effect>)
        requires
            old(self)@.wf(),
            (t as int) < old(self)@.clients.len(),
            (c as int) < old(self)@.clients.len(),
            old(self)@.clients[t as int].alive,
            t != c,
            old(self)@.clients[c as int].alive,
            answers_all(fq),
        ensures
            final(self)@.wf(),
            swallow_post(old(self)@, t, c, final(self)@, fq),
            old(fx)@.is_prefix_of(final(fx)@),
            ({
                let v = old(self)@;
                let cc = v.clients[c as int];
                let tc = v.clients[t as int];
                !(cc.noswallow || cc.isterminal) ==> (old(fx)@ + seq![
                    Effect::SetClientState { win: cc.win, state: WITHDRAWN_STATE },
                    Effect::UnmapWindow { win: tc.win },
                    Effect::UpdateTitle { client: t },
                    Effect::MoveResize { win: cc.win, x: tc.x, y: tc.y, w: tc.w, h: tc.h },
                ]).is_prefix_of(final(fx)@) && final(fx)@.last() == Effect::UpdateClientList
            }),
            final(fx)@ == old(fx)@ + crate::engine::added(old(fx)@, final(fx)@),
            swallow_fx(old(self)@, t, c, final(self)@, crate::engine::added(old(fx)@, final(fx)@), fq),
    {
        let ghost v = self@;
        let cc = self.clients[c];
        let tc = self.clients[t];
        if cc.noswallow || cc.isterminal {
            proof {
                lemma_prefix_concat(old(fx)@, Seq::<Effect>::empty());
                crate::tags::lemma_no_fx(fx@);
            }
            return;
        }
        let m = tc.mon;
        self.take_in(t, c);
        fx.push(Effect::SetClientState { win: cc.win, state: WITHDRAWN_STATE });
        fx.push(Effect::UnmapWindow { win: tc.win });
        fx.push(Effect::UpdateTitle { client: t });
        fx.push(Effect::MoveResize { win: cc.win, x: tc.x, y: tc.y, w: tc.w, h: tc.h });
        let ghost fx0 = fx@;
        self.arrange(Some(m), fq, fx);
        let ghost fxa = fx@;
        let nc = self.clients[t];
        fx.push(Effect::NotifyConfigure { win: nc.win, x: nc.x, y: nc.y, w: nc.w, h: nc.h, bw: nc.bw });
        fx.push(Effect::UpdateClientList);
        proof {
            assert(fx0 =~= old(fx)@ + seq![
                Effect::SetClientState { win: cc.win, state: WITHDRAWN_STATE },
                Effect::UnmapWindow { win: tc.win },
                Effect::UpdateTitle { client: t },
                Effect::MoveResize { win: cc.win, x: tc.x, y: tc.y, w: tc.w, h: tc.h },
            ]);
            let tail = fx@.subrange(fx0.len() as int, fx@.len() as int);
            let fx1 = fx@.subrange(0, fx@.len() - 2);
            assert(fx0.is_prefix_of(fx1));
            assert(fx1.is_prefix_of(fx@));
            lemma_prefix_trans(fx0, fx1, fx@);
            lemma_prefix_concat(old(fx)@, fx0.subrange(old(fx)@.len() as int, fx0.len() as int));
            assert(fx0 =~= old(fx)@ + fx0.subrange(old(fx)@.len() as int, fx0.len() as int));
            lemma_prefix_trans(old(fx)@, fx0, fx@);
            let e = crate::engine::added(old(fx)@, fx@);
            let e2 = crate::engine::added(fx0, fxa);
            assert(fx1 =~= fxa);
            assert(e.subrange(0, 4) =~= fx0.subrange(old(fx)@.len() as int, fx0.len() as int));
            assert(e.subrange(4, e.len() - 2) =~= e2);
            assert(e.subrange(e.len() - 2, e.len() as int) =~= seq![
                Effect::NotifyConfigure { win: nc.win, x: nc.x, y: nc.y, w: nc.w, h: nc.h, bw: nc.bw },
                Effect::UpdateClientList,
            ]);
            assert(fx@ =~= old(fx)@ + e);
            assert(6 <= e.len());
            assert(e.subrange(0, 4) == seq![
                Effect::SetClientState { win: cc.win, state: WITHDRAWN_STATE },
                Effect::UnmapWindow { win: tc.win },
                Effect::UpdateTitle { client: t },
                Effect::MoveResize { win: cc.win, x: tc.x, y: tc.y, w: tc.w, h: tc.h },
            ]);
            assert(crate::engine::arranged_fx(swallowed_state(v, t, c), tc.mon as int, self@, e2, fq));
        }
    }
}

/// Swallowing keeps the state well formed.
#[verifier::spinoff_prover]
#[verifier::rlimit(100)]
pub proof fn lemma_swallowed_wf(v: WmView, t: usize, c: usize)
    requires
        v.wf(),
        (t as int) < v.clients.len(),
        (c as int) < v.clients.len(),
        v.clients.len() <= usize::MAX,
        v.clients[t as int].alive,
        v.clients[c as int].alive,
        t != c,
    ensures
        swallowed_state(v, t, c).wf(),
{
    let d = detached(v, c);
    let nt = taking_over(v.clients[t as int], v.clients[c as int]);
    let d2 = d.set_client(t as int, nt);
    let d3 = d2.set_client(c as int, released_client(v.clients[c as int]));
    assert(d.wf_without(c as int) && d.clients == v.clients) by { crate::membership::lemma_detached(v, c); }
    assert(d2.wf_without(c as int)) by { lemma_without_set_client_other(d, c as int, t as int, nt); }
    assert(d3.wf_without(c as int)) by { lemma_without_set_client(d2, c as int, released_client(v.clients[c as int])); }
    assert(d3.wf()) by { lemma_without_dead(d3, c as int); }
}

/// Changing a client other than `c` without changing whether it is managed,
/// where it sits or its tags keeps a state well formed but for `c` so.
pub proof fn lemma_without_set_client_other(v: WmView, c: int, t: int, cl: Client)
    requires
        v.wf_without(c),
        0 <= t < v.clients.len(),
        t != c,
        cl.alive == v.clients[t].alive,
        cl.mon == v.clients[t].mon,
        cl.tags == v.clients[t].tags,
    ensures
        v.set_client(t, cl).wf_without(c),
{
    let v2 = v.set_client(t, cl);
    assert forall|m: int| 0 <= m < v2.mons.len() implies #[trigger] v2.mon_ok(m) by {
        assert(v.mon_ok(m));
        let mon = v.mons[m];
        assert forall|k: int| 0 <= k < mon.clients.len() implies #[trigger] v2.client_on(mon.clients[k] as int, m) by {
            assert(v.client_on(mon.clients[k] as int, m));
        }
        assert forall|k: int| 0 <= k < mon.stack.len() implies #[trigger] v2.client_on(mon.stack[k] as int, m) by {
            assert(v.client_on(mon.stack[k] as int, m));
        }
    }
    assert forall|m: int| 0 <= m < v2.mons.len() implies !(#[trigger] v2.mons[m]).clients.contains(c as usize) by {
        assert(!v.mons[m].clients.contains(c as usize));
    }
    assert forall|id: int| 0 <= id < v2.clients.len() && id != c && (#[trigger] v2.clients[id]).alive implies
        v2.clients[id].mon < v2.mons.len()
        && v2.mons[v2.clients[id].mon as int].clients.contains(id as usize)
        && WmView::tagset_ok(v2.clients[id].tags) by {
        assert(v.clients[id].alive);
    }
}

} // verus!
