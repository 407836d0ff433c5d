use vstd::prelude::*;
use crate::engine::{Effect, FloatQuery, answers_all, arranged, frame_eq, lemma_wf_set_client};
use crate::focus::focus_state;
use crate::hints::fullscreen_post;
use crate::membership::{detached, lemma_without_dead, lemma_without_set_client};
use crate::model::{Client, Wm, WmView};
use crate::window::client_for;

verus! {

/// The `WM_STATE` value of a window in normal state.
pub const NORMAL_STATE: i64 = 1;

/// The `WM_STATE` value of a withdrawn window.
pub const WITHDRAWN_STATE: i64 = 0;

/// Client `c` gives back the terminal it swallowed: it takes the terminal's
/// window again.
pub open spec fn unswallowed_client(v: WmView, c: usize) -> WmView {
    let cl = v.clients[c as int];
    v.set_client(c as int, Client { win: cl.swallowing.unwrap(), swallowing: None, ..cl })
}

/// Giving back the swallowed terminal of client `c` took `v` to `v2`: the
/// client shows the terminal's window again, out of fullscreen; its monitor
/// is arranged, the focus reset, and the monitor arranged once more.
pub open spec fn unswallow_post<F: Fn(FloatQuery) -> (i32, i32)>(v: WmView, c: usize, v2: WmView, fq: &F) -> bool {
    let m = v.clients[c as int].mon as int;
    exists|v3: WmView, v4: WmView| {
        &&& #[trigger] fullscreen_post(unswallowed_client(v, c), c, false, v3, fq)
        &&& #[trigger] arranged(v3, m, v4, fq)
        &&& arranged(focus_state(v4, None), m, v2, fq)
    }
}

/// The parts of giving back the swallowed terminal of client `c`, from `v`
/// to `v2`: leaving fullscreen (to `v3`, requests `e1`), the title read again,
/// the monitor arranged (to `v4`, requests `e2`), the terminal's window mapped
/// at the client's geometry in normal state, the focus reset, and the monitor
/// arranged again (requests `e3`); `e` is all of them in order.
pub open spec fn unswallow_parts<F: Fn(FloatQuery) -> (i32, i32)>(
    v: WmView, c: usize, v2: WmView, e: Seq<Effect>, v3: WmView, v4: WmView,
    e1: Seq<Effect>, e2: Seq<Effect>, e3: Seq<Effect>, fq: &F,
) -> bool {
    let m = v.clients[c as int].mon as int;
    let cl = v4.clients[c as int];
    &&& crate::hints::fullscreen_fx(unswallowed_client(v, c), c, false, v3, e1, fq)
    &&& crate::engine::arranged_fx(v3, m, v4, e2, fq)
    &&& crate::engine::arranged_fx(focus_state(v4, None), m, v2, e3, fq)
    &&& e == e1 + seq![Effect::UpdateTitle { client: c }] + e2
            + seq![
                Effect::MapWindow { win: cl.win },
                Effect::MoveResize { win: cl.win, x: cl.x, y: cl.y, w: cl.w, h: cl.h },
                Effect::SetClientState { win: cl.win, state: NORMAL_STATE }
            ]
            + crate::focus::focus_effects(v4, None) + e3
}

/// Giving back the swallowed terminal of client `c` took `v` to `v2` with
/// the requests `e`.
pub open spec fn unswallow_fx<F: Fn(FloatQuery) -> (i32, i32)>(v: WmView, c: usize, v2: WmView, e: Seq<Effect>, fq: &F) -> bool {
    exists|v3: WmView, v4: WmView, e1: Seq<Effect>, e2: Seq<Effect>, e3: Seq<Effect>|
        #[trigger] unswallow_parts(v, c, v2, e, v3, v4, e1, e2, e3, fq)
}

impl Wm {
    /// Client `c` takes back the window of the terminal it swallowed and
    /// leaves fullscreen; its title is to be read again.
    fn take_back_terminal<F: Fn(FloatQuery) -> (i32, i32)>(&mut self, c: usize, fq: &F, fx: &mut Vec<Effect>)
        requires
            old(self)@.wf(),
            (c as int) < old(self)@.clients.len(),
            old(self)@.clients[c as int].alive,
            old(self)@.clients[c as int].swallowing is Some,
            answers_all(fq),
        ensures
            final(self)@.wf(),
            fullscreen_post(unswallowed_client(old(self)@, c), c, false, final(self)@, fq),
            final(self)@.clients[c as int].alive,
            final(self)@.clients[c as int].mon == old(self)@.clients[c as int].mon,
            old(fx)@.is_prefix_of(final(fx)@),
            final(fx)@ == old(fx)@ + crate::engine::added(old(fx)@, final(fx)@),
            crate::hints::fullscreen_fx(unswallowed_client(old(self)@, c), c, false, final(self)@,
                crate::engine::added(old(fx)@, final(fx)@), fq),
    {
        let ghost v = self@;
        let term = match self.clients[c].swallowing {
            Some(w) => w,
            None => { return; },
        };
        self.clients[c].win = term;
        self.clients[c].swallowing = None;
        proof {
            let t = unswallowed_client(v, c);
            assert(self@.clients =~= t.clients);
            assert(self@.names =~= v.names);
            assert(self@.mons =~= v.mons);
            lemma_wf_set_client(v, c as int, t.clients[c as int]);
        }
        let ghost v1 = self@;
        self.setfullscreen(c, false, fq, fx);
        proof {
            fullscreen_alive(v1, c, self@, fq);
            crate::engine::lemma_prefix_concat(old(fx)@, crate::engine::added(old(fx)@, fx@));
        }
    }

    /// Client `c`, which swallowed a terminal, shows the terminal's window
    /// again: out of fullscreen, with the terminal's title, mapped at the
    /// client's geometry in normal state; then focus and layout follow.
    #[verifier::rlimit(60)]
    pub fn unswallow<F: Fn(FloatQuery) -> (i32, i32)>(&mut self, c: usize, fq: &F, fx: &mut Vec<Effect>)
        requires
            old(self)@.wf(),
            (c as int) < old(self)@.clients.len(),
            old(self)@.clients[c as int].alive,
            old(self)@.clients[c as int].swallowing is Some,
            answers_all(fq),
        ensures
            final(self)@.wf(),
            unswallow_post(old(self)@, c, final(self)@, fq),
            old(fx)@.is_prefix_of(final(fx)@),
            final(fx)@ == old(fx)@ + crate::engine::added(old(fx)@, final(fx)@),
            unswallow_fx(old(self)@, c, final(self)@, crate::engine::added(old(fx)@, final(fx)@), fq),
    {
        let ghost v = self@;
        let m = self.clients[c].mon;
        self.take_back_terminal(c, fq, fx);
        let ghost v3 = self@;
        let ghost fx1 = fx@;
        fx.push(Effect::UpdateTitle { client: c });
        let ghost fx1b = fx@;
        self.arrange(Some(m), fq, fx);
        let ghost v4 = self@;
        let ghost fx2 = fx@;
        proof {
            assert(crate::engine::same_keys(v4.clients[c as int], v3.clients[c as int]));
        }
        let cl = self.clients[c];
        fx.push(Effect::MapWindow { win: cl.win });
        fx.push(Effect::MoveResize { win: cl.win, x: cl.x, y: cl.y, w: cl.w, h: cl.h });
        fx.push(Effect::SetClientState { win: cl.win, state: NORMAL_STATE });
        let ghost fx3 = fx@;
        self.focus(None, fx);
        let ghost fx4 = fx@;
        self.arrange(Some(m), fq, fx);
        proof {
            let e1 = crate::engine::added(old(fx)@, fx1);
            let e2 = crate::engine::added(fx1b, fx2);
            let e3 = crate::engine::added(fx4, fx@);
            let e = crate::engine::added(old(fx)@, fx@);
            let mid = seq![
                Effect::MapWindow { win: cl.win },
                Effect::MoveResize { win: cl.win, x: cl.x, y: cl.y, w: cl.w, h: cl.h },
                Effect::SetClientState { win: cl.win, state: NORMAL_STATE }
            ];
            assert(fx3 =~= fx2 + mid);
            assert(e =~= e1 + seq![Effect::UpdateTitle { client: c }] + e2 + mid
                + crate::focus::focus_effects(v4, None) + e3);
            assert(unswallow_parts(v, c, self@, e, v3, v4, e1, e2, e3, fq));
            assert(fx@ =~= old(fx)@ + e);
            crate::engine::lemma_prefix_concat(old(fx)@, e);
            assert(fullscreen_post(unswallowed_client(v, c), c, false, v3, fq));
            assert(arranged(v3, m as int, v4, fq));
        }
    }
}

/// Setting the fullscreen state keeps a client managed and on its monitor.
proof fn fullscreen_alive<F: Fn(FloatQuery) -> (i32, i32)>(v: WmView, c: usize, v2: WmView, fq: &F)
    requires
        v.wf(),
        (c as int) < v.clients.len(),
        v.clients[c as int].alive,
        fullscreen_post(v, c, false, v2, fq),
    ensures
        v2.clients.len() == v.clients.len(),
        v2.clients[c as int].alive,
        v2.clients[c as int].mon == v.clients[c as int].mon,
{
    let cl = v.clients[c as int];
    if cl.isfullscreen {
        let v1 = v.set_client(c as int, crate::hints::fullscreen_off(cl));
        let g = crate::hints::fullscreen_off(cl);
        let w = v1.set_client(c as int, crate::engine::resized(v1, c as int, g.x, g.y, g.w, g.h));
        assert(frame_eq(v2, w));
        assert(crate::engine::same_keys(v2.clients[c as int], w.clients[c as int]));
    }
}


/// Client `c` no longer managed: out of its monitor's lists, its slot free.
pub open spec fn released_state(v: WmView, c: usize) -> WmView {
    detached(v, c).set_client(c as int, Client { alive: false, ..v.clients[c as int] })
}

/// Unmanaging client `c` took `v` to `v2`: a client that swallowed a terminal
/// gives it back; where the window is a terminal that some client swallowed,
/// that client forgets it; else the client is released. Then its monitor is
/// arranged and the focus reset.
pub open spec fn unmanage_post<F: Fn(FloatQuery) -> (i32, i32)>(v: WmView, c: usize, v2: WmView, fq: &F) -> bool {
    let cl = v.clients[c as int];
    let m = cl.mon as int;
    if cl.swallowing is Some {
        unswallow_post(v, c, v2, fq)
    } else {
        exists|v3: WmView| #[trigger] arranged(unmanaged_state(v, c), m, v3, fq) && v2 == focus_state(v3, None)
    }
}

/// The requests of unmanaging client `c` (its window `destroyed` or not),
/// which took `v` to `v2`: those of giving back a swallowed terminal; or,
/// where its window is a terminal that some client swallowed, those of
/// arranging its monitor and resetting the focus; else those of releasing it.
pub open spec fn unmanage_fx<F: Fn(FloatQuery) -> (i32, i32)>(v: WmView, c: usize, destroyed: bool, v2: WmView, e: Seq<Effect>, fq: &F) -> bool {
    let cl = v.clients[c as int];
    if cl.swallowing is Some {
        unswallow_fx(v, c, v2, e, fq)
    } else {
        match client_for(v, 0, cl.win, true) {
            Some(s) => crate::focus::arranged_refocused(forgot_swallowed(v, s), cl.mon as int, v2, e, fq),
            None => release_fx(v, c, destroyed, v2, e, fq),
        }
    }
}

/// The state in which unmanaging client `c`, which swallowed no terminal,
/// arranges its monitor: where its window is a terminal that some client
/// swallowed, that client forgets it; else the client is released.
pub open spec fn unmanaged_state(v: WmView, c: usize) -> WmView {
    match client_for(v, 0, v.clients[c as int].win, true) {
        Some(s) => forgot_swallowed(v, s),
        None => released_state(v, c),
    }
}

/// Releasing client `c` took `v` to `v2` with the requests `e`: its window
/// given back unless it was `destroyed`, then the requests of arranging its
/// monitor and resetting the focus, then the client list rewritten.
pub open spec fn release_fx<F: Fn(FloatQuery) -> (i32, i32)>(v: WmView, c: usize, destroyed: bool, v2: WmView, e: Seq<Effect>, fq: &F) -> bool {
    let cl = v.clients[c as int];
    let pre = if destroyed { Seq::<Effect>::empty() } else { seq![Effect::Release { win: cl.win, bw: cl.oldbw }] };
    &&& e.len() >= pre.len() + 1
    &&& e.subrange(0, pre.len() as int) == pre
    &&& e.last() == Effect::UpdateClientList
    &&& crate::focus::arranged_refocused(released_state(v, c), cl.mon as int, v2, e.subrange(pre.len() as int, e.len() - 1), fq)
}

/// Client `s` no longer holds a swallowed terminal.
pub open spec fn forgot_swallowed(v: WmView, s: usize) -> WmView {
    v.set_client(s as int, Client { swallowing: None, ..v.clients[s as int] })
}

impl Wm {
    /// Client `s` forgets the terminal it swallowed, whose window `c` shows;
    /// then monitor `m` is arranged and the focus reset.
    pub fn forget_swallowed<F: Fn(FloatQuery) -> (i32, i32)>(&mut self, s: usize, m: usize, fq: &F, fx: &mut Vec<Effect>)
        requires
            old(self)@.wf(),
            (s as int) < old(self)@.clients.len(),
            (m as int) < old(self)@.mons.len(),
            answers_all(fq),
        ensures
            final(self)@.wf(),
            exists|v3: WmView| #[trigger] arranged(forgot_swallowed(old(self)@, s), m as int, v3, fq)
                && final(self)@ == focus_state(v3, None),
            final(fx)@ == old(fx)@ + crate::engine::added(old(fx)@, final(fx)@),
            crate::focus::arranged_refocused(forgot_swallowed(old(self)@, s), m as int, final(self)@,
                crate::engine::added(old(fx)@, final(fx)@), fq),
    {
        let ghost v = self@;
        self.clients[s].swallowing = None;
        proof {
            let t = forgot_swallowed(v, s);
            assert(self@.clients =~= t.clients);
            assert(self@.names =~= v.names);
            assert(self@.mons =~= v.mons);
            assert(self@ == t);
            lemma_wf_set_client(v, s as int, t.clients[s as int]);
        }
        self.arrange_then_focus(m, fq, fx);
    }

    /// Releases client `c`: out of its monitor's lists, its window given back
    /// unless it was destroyed, its slot freed; then its monitor is arranged,
    /// the focus reset and the client list rewritten.
    #[verifier::rlimit(50)]
    fn release<F: Fn(FloatQuery) -> (i32, i32)>(&mut self, c: usize, destroyed: bool, fq: &F, fx: &mut Vec<Effect>)
        requires
            old(self)@.wf(),
            (c as int) < old(self)@.clients.len(),
            old(self)@.clients[c as int].alive,
            answers_all(fq),
        ensures
            final(self)@.wf(),
            exists|v3: WmView| #[trigger] arranged(released_state(old(self)@, c), old(self)@.clients[c as int].mon as int, v3, fq)
                && final(self)@ == focus_state(v3, None),
            ({
                let cl = old(self)@.clients[c as int];
                (if destroyed { old(fx)@ } else { old(fx)@.push(Effect::Release { win: cl.win, bw: cl.oldbw }) })
                    .is_prefix_of(final(fx)@)
            }),
            final(fx)@.last() == Effect::UpdateClientList,
            final(fx)@ == old(fx)@ + crate::engine::added(old(fx)@, final(fx)@),
            release_fx(old(self)@, c, destroyed, final(self)@, crate::engine::added(old(fx)@, final(fx)@), fq),
    {
        let ghost v = self@;
        let cl = self.clients[c];
        let m = cl.mon;
        self.detach_both(c);
        if !destroyed {
            fx.push(Effect::Release { win: cl.win, bw: cl.oldbw });
        }
        let ghost fx0 = fx@;
        let ghost d = self@;
        self.clients[c].alive = false;
        proof {
            let t = released_state(v, c);
            assert(self@.clients =~= t.clients);
            assert(self@.names =~= t.names);
            assert(self@.mons =~= t.mons);
            lemma_without_set_client(d, c as int, t.clients[c as int]);
            lemma_without_dead(t, c as int);
        }
        let ghost r = self@;
        self.arrange_then_focus(m, fq, fx);
        let ghost fx1 = fx@;
        fx.push(Effect::UpdateClientList);
        proof {
            let pre = if destroyed { Seq::<Effect>::empty() } else { seq![Effect::Release { win: cl.win, bw: cl.oldbw }] };
            let e = crate::engine::added(old(fx)@, fx@);
            let mid = crate::engine::added(fx0, fx1);
            assert(fx0 =~= old(fx)@ + pre);
            assert(e =~= pre + mid + seq![Effect::UpdateClientList]);
            assert(e.subrange(0, pre.len() as int) =~= pre);
            assert(e.subrange(pre.len() as int, e.len() - 1) =~= mid);
            assert(fx@ =~= old(fx)@ + e);
            assert(r == released_state(v, c));
            let tail = fx@.subrange(fx0.len() as int, fx@.len() as int);
            assert(fx@ =~= fx0 + tail);
            crate::engine::lemma_prefix_concat(fx0, tail);
        }
    }

    /// Stops managing client `c`, whose window was unmapped or, for
    /// `destroyed`, destroyed. A window that is still there is given back.
    pub fn unmanage<F: Fn(FloatQuery) -> (i32, i32)>(&mut self, c: usize, destroyed: bool, fq: &F, fx: &mut Vec<Effect>)
        requires
            old(self)@.wf(),
            (c as int) < old(self)@.clients.len(),
            old(self)@.clients[c as int].alive,
            answers_all(fq),
        ensures
            final(self)@.wf(),
            unmanage_post(old(self)@, c, final(self)@, fq),
            old(fx)@.is_prefix_of(final(fx)@),
            ({
                let v = old(self)@;
                let cl = v.clients[c as int];
                (cl.swallowing is None && client_for(v, 0, cl.win, true) is None) ==> {
                    &&& (if destroyed { old(fx)@ } else { old(fx)@.push(Effect::Release { win: cl.win, bw: cl.oldbw }) })
                            .is_prefix_of(final(fx)@)
                    &&& final(fx)@.last() == Effect::UpdateClientList
                }
            }),
            final(fx)@ == old(fx)@ + crate::engine::added(old(fx)@, final(fx)@),
            unmanage_fx(old(self)@, c, destroyed, final(self)@, crate::engine::added(old(fx)@, final(fx)@), fq),
    {
        let ghost v = self@;
        let cl = self.clients[c];
        let m = cl.mon;
        proof { assert(v.clients[c as int].alive); }
        if cl.swallowing.is_some() {
            self.unswallow(c, fq, fx);
            return;
        }
        match self.swallowingclient(cl.win) {
            Some(s) => {
                self.forget_swallowed(s, m, fq, fx);
                proof { assert(unmanaged_state(v, c) == forgot_swallowed(v, s)); }
            },
            None => {
                self.release(c, destroyed, fq, fx);
                proof {
                    assert(unmanaged_state(v, c) == released_state(v, c));
                    if destroyed {
                    } else {
                        crate::engine::lemma_prefix_concat(old(fx)@, seq![Effect::Release { win: cl.win, bw: cl.oldbw }]);
                        assert(old(fx)@.push(Effect::Release { win: cl.win, bw: cl.oldbw }) =~= old(fx)@ + seq![Effect::Release { win: cl.win, bw: cl.oldbw }]);
                        crate::engine::lemma_prefix_trans(old(fx)@, old(fx)@.push(Effect::Release { win: cl.win, bw: cl.oldbw }), fx@);
                    }
                }
            },
        }
    }
}

} // verus!
