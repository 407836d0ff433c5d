use vstd::prelude::*;
use crate::engine::{Effect, FloatQuery, answers_all, arranged, lemma_wf_set_client, resized, resize_effects};
use crate::model::{Client, Ratio, Wm, WmView};

verus! {

/// The WM_NORMAL_HINTS of a window, as plain values: each field is present
/// where its flag is set. `aspect` holds the minimum and the maximum aspect,
/// each as `(x, y)`.
#[derive(Clone, Copy, Debug)]
pub struct SizeHints {
    pub base: Option<(i32, i32)>,
    pub min: Option<(i32, i32)>,
    pub inc: Option<(i32, i32)>,
    pub max: Option<(i32, i32)>,
    pub aspect: Option<((i32, i32), (i32, i32))>,
}

/// The WM_HINTS of a window that matter here: whether the urgency flag is
/// set, and, where the input flag is set, whether the window takes input.
#[derive(Clone, Copy, PartialEq, Eq, Structural, Debug)]
pub struct WmHints {
    pub urgent: bool,
    pub input: Option<bool>,
}

/// A client with the size limits of `h`: base size (or else the minimum),
/// increments, maximum, minimum size (or else the base), and aspect limits
/// `min.y / min.x` and `max.x / max.y`; what is absent is zero. A client whose
/// maximum and minimum size agree and are not zero has a fixed size.
pub open spec fn sized(c: Client, h: SizeHints) -> Client {
    let base = match h.base { Some(b) => b, None => match h.min { Some(m) => m, None => (0i32, 0i32) } };
    let inc = match h.inc { Some(i) => i, None => (0i32, 0i32) };
    let max = match h.max { Some(m) => m, None => (0i32, 0i32) };
    let min = match h.min { Some(m) => m, None => match h.base { Some(b) => b, None => (0i32, 0i32) } };
    let (mina, maxa) = match h.aspect {
        Some((lo, hi)) => (Ratio { num: lo.1, den: lo.0 }, Ratio { num: hi.0, den: hi.1 }),
        None => (Ratio { num: 0, den: 1 }, Ratio { num: 0, den: 1 }),
    };
    Client {
        basew: base.0,
        baseh: base.1,
        incw: inc.0,
        inch: inc.1,
        maxw: max.0,
        maxh: max.1,
        minw: min.0,
        minh: min.1,
        mina: mina,
        maxa: maxa,
        isfixed: max.0 != 0 && max.1 != 0 && max.0 == min.0 && max.1 == min.1,
        ..c
    }
}

/// Takes the size limits of client `c` from its normal hints `h`.
pub fn updatesizehints(c: &mut Client, h: &SizeHints)
    ensures
        *final(c) == sized(*old(c), *h),
{
    let base = match h.base { Some(b) => b, None => match h.min { Some(m) => m, None => (0i32, 0i32) } };
    let inc = match h.inc { Some(i) => i, None => (0i32, 0i32) };
    let max = match h.max { Some(m) => m, None => (0i32, 0i32) };
    let min = match h.min { Some(m) => m, None => match h.base { Some(b) => b, None => (0i32, 0i32) } };
    let (mina, maxa) = match h.aspect {
        Some((lo, hi)) => (Ratio { num: lo.1, den: lo.0 }, Ratio { num: hi.0, den: hi.1 }),
        None => (Ratio { num: 0, den: 1 }, Ratio { num: 0, den: 1 }),
    };
    c.basew = base.0;
    c.baseh = base.1;
    c.incw = inc.0;
    c.inch = inc.1;
    c.maxw = max.0;
    c.maxh = max.1;
    c.minw = min.0;
    c.minh = min.1;
    c.mina = mina;
    c.maxa = maxa;
    c.isfixed = max.0 != 0 && max.1 != 0 && max.0 == min.0 && max.1 == min.1;
}

/// A client entering fullscreen: it remembers its floating state and border,
/// loses its border and floats.
pub open spec fn fullscreen_on(c: Client) -> Client {
    Client { isfullscreen: true, oldstate: c.isfloating, oldbw: c.bw, bw: 0, isfloating: true, ..c }
}

/// A client leaving fullscreen: it takes back its floating state, border and
/// geometry.
pub open spec fn fullscreen_off(c: Client) -> Client {
    Client {
        isfullscreen: false,
        isfloating: c.oldstate,
        bw: c.oldbw,
        x: c.oldx,
        y: c.oldy,
        w: c.oldw,
        h: c.oldh,
        ..c
    }
}

/// Client `c` with its urgency flag set to `urg`.
pub open spec fn urgent_state(v: WmView, c: usize, urg: bool) -> WmView {
    v.set_client(c as int, Client { isurgent: urg, ..v.clients[c as int] })
}

/// Client `c` after its WM_HINTS `h` were read: the urgency flag is cleared
/// on the window of the selected client, else taken into the client; the
/// client never takes focus where the hints say it takes no input.
pub open spec fn wmhints_state(v: WmView, c: usize, h: WmHints) -> WmView {
    let cl = v.clients[c as int];
    let sel = v.mons[v.selmon as int].sel == Some(c);
    v.set_client(c as int, Client {
        isurgent: if sel && h.urgent { cl.isurgent } else { h.urgent },
        neverfocus: h.input == Some(false),
        ..cl
    })
}

/// Setting the fullscreen state of client `c` to `fullscreen` took `v` to
/// `v2`: entering fills the monitor; leaving restores the former geometry and
/// arranges the monitor; a client already in that state is left as it is.
pub open spec fn fullscreen_post<F: Fn(FloatQuery) -> (i32, i32)>(v: WmView, c: usize, fullscreen: bool, v2: WmView, fq: &F) -> bool {
    let cl = v.clients[c as int];
    let mv = v.mons[cl.mon as int];
    if fullscreen && !cl.isfullscreen {
        let v1 = v.set_client(c as int, fullscreen_on(cl));
        v2 == v1.set_client(c as int, resized(v1, c as int, mv.mx, mv.my, mv.mw, mv.mh))
    } else if !fullscreen && cl.isfullscreen {
        let v1 = v.set_client(c as int, fullscreen_off(cl));
        let g = fullscreen_off(cl);
        arranged(v1.set_client(c as int, resized(v1, c as int, g.x, g.y, g.w, g.h)), cl.mon as int, v2, fq)
    } else {
        v2 == v
    }
}

/// The requests of setting the fullscreen state of client `c` as asked, from
/// `v` to `v2`: the state property, the resize to the monitor and the raise
/// going into fullscreen; the state property, the resize back and the
/// requests of arranging its monitor coming out; none otherwise.
pub open spec fn fullscreen_fx<F: Fn(FloatQuery) -> (i32, i32)>(v: WmView, c: usize, fullscreen: bool, v2: WmView, e: Seq<Effect>, fq: &F) -> bool {
    let cl = v.clients[c as int];
    let mv = v.mons[cl.mon as int];
    if fullscreen && !cl.isfullscreen {
        let v1 = v.set_client(c as int, fullscreen_on(cl));
        e == seq![Effect::SetFullscreenProp { win: cl.win, fullscreen: true }]
            + resize_effects(v1, c as int, mv.mx, mv.my, mv.mw, mv.mh)
            + seq![Effect::Raise { win: cl.win }]
    } else if !fullscreen && cl.isfullscreen {
        let v1 = v.set_client(c as int, fullscreen_off(cl));
        let g = fullscreen_off(cl);
        let pre = seq![Effect::SetFullscreenProp { win: cl.win, fullscreen: false }] + resize_effects(v1, c as int, g.x, g.y, g.w, g.h);
        &&& pre.len() <= e.len()
        &&& e.subrange(0, pre.len() as int) == pre
        &&& crate::engine::arranged_fx(v1.set_client(c as int, resized(v1, c as int, g.x, g.y, g.w, g.h)), cl.mon as int, v2,
                e.subrange(pre.len() as int, e.len() as int), fq)
    } else {
        e == Seq::<Effect>::empty()
    }
}

impl Wm {
    /// Sets or clears the urgency of client `c`, on the client and in the
    /// hints of its window.
    pub fn seturgent(&mut self, c: usize, urg: bool, fx: &mut Vec<Effect>)
        requires
            old(self)@.wf(),
            (c as int) < old(self)@.clients.len(),
        ensures
            final(self)@.wf(),
            final(self)@ == urgent_state(old(self)@, c, urg),
            final(fx)@ == old(fx)@.push(Effect::SetUrgent { win: old(self)@.clients[c as int].win, urgent: urg }),
    {
        let ghost v = self@;
        self.clients[c].isurgent = urg;
        proof {
            assert(self@.clients =~= urgent_state(v, c, urg).clients);
            assert(self@.names =~= v.names);
            assert(self@.mons =~= v.mons);
            lemma_wf_set_client(v, c as int, Client { isurgent: urg, ..v.clients[c as int] });
        }
        fx.push(Effect::SetUrgent { win: self.clients[c].win, urgent: urg });
    }

    /// Takes urgency and input focus behaviour of client `c` from the
    /// WM_HINTS of its window, where it has them. A selected client does not
    /// become urgent: the urgency flag is cleared on its window instead.
    pub fn updatewmhints(&mut self, c: usize, hints: Option<WmHints>, fx: &mut Vec<Effect>)
        requires
            old(self)@.wf(),
            (c as int) < old(self)@.clients.len(),
        ensures
            final(self)@.wf(),
            hints is None ==> final(self)@ == old(self)@ && final(fx)@ == old(fx)@,
            hints matches Some(h) ==> final(self)@ == wmhints_state(old(self)@, c, h)
                && final(fx)@ == (if old(self)@.mons[old(self)@.selmon as int].sel == Some(c) && h.urgent {
                    old(fx)@.push(Effect::SetUrgent { win: old(self)@.clients[c as int].win, urgent: false })
                } else {
                    old(fx)@
                }),
    {
        let ghost v = self@;
        let h = match hints {
            Some(h) => h,
            None => { return; },
        };
        let sel = self.mons[self.selmon].sel == Some(c);
        if sel && h.urgent {
            fx.push(Effect::SetUrgent { win: self.clients[c].win, urgent: false });
        } else {
            self.clients[c].isurgent = h.urgent;
        }
        self.clients[c].neverfocus = match h.input {
            Some(i) => !i,
            None => false,
        };
        proof {
            let t = wmhints_state(v, c, h);
            assert(self@.clients =~= t.clients);
            assert(self@.names =~= v.names);
            assert(self@.mons =~= v.mons);
            lemma_wf_set_client(v, c as int, t.clients[c as int]);
        }
    }

    /// Puts client `c` into fullscreen: it fills its monitor, borderless and
    /// floating, and is raised.
    fn enter_fullscreen(&mut self, c: usize, fx: &mut Vec<Effect>)
        requires
            old(self)@.wf(),
            (c as int) < old(self)@.clients.len(),
            old(self)@.clients[c as int].alive,
            !old(self)@.clients[c as int].isfullscreen,
        ensures
            final(self)@.wf(),
            ({
                let v = old(self)@;
                let cl = v.clients[c as int];
                let mv = v.mons[cl.mon as int];
                let v1 = v.set_client(c as int, fullscreen_on(cl));
                &&& final(self)@ == v1.set_client(c as int, resized(v1, c as int, mv.mx, mv.my, mv.mw, mv.mh))
                &&& final(fx)@ == old(fx)@ + (seq![Effect::SetFullscreenProp { win: cl.win, fullscreen: true }]
                        + resize_effects(v1, c as int, mv.mx, mv.my, mv.mw, mv.mh)
                        + seq![Effect::Raise { win: cl.win }])
            }),
    {
        let ghost v = self@;
        let cl = self.clients[c];
        let m = cl.mon;
        proof { assert(v.clients[c as int].alive); }
        fx.push(Effect::SetFullscreenProp { win: cl.win, fullscreen: true });
        self.clients[c].isfullscreen = true;
        self.clients[c].oldstate = cl.isfloating;
        self.clients[c].oldbw = cl.bw;
        self.clients[c].bw = 0;
        self.clients[c].isfloating = true;
        proof {
            assert(self@.clients =~= v.set_client(c as int, fullscreen_on(cl)).clients);
            assert(self@.names =~= v.names);
            assert(self@.mons =~= v.mons);
            lemma_wf_set_client(v, c as int, fullscreen_on(cl));
        }
        let mx = self.mons[m].mx;
        let my = self.mons[m].my;
        let mw = self.mons[m].mw;
        let mh = self.mons[m].mh;
        self.resizeclient(c, mx, my, mw, mh, fx);
        fx.push(Effect::Raise { win: cl.win });
        proof {
            assert(fx@ =~= old(fx)@ + (seq![Effect::SetFullscreenProp { win: cl.win, fullscreen: true }]
                + resize_effects(v.set_client(c as int, fullscreen_on(cl)), c as int, mx, my, mw, mh)
                + seq![Effect::Raise { win: cl.win }]));
        }
    }

    /// Takes client `c` out of fullscreen: it gets its former geometry,
    /// border and floating state back, and its monitor is arranged.
    fn leave_fullscreen<F: Fn(FloatQuery) -> (i32, i32)>(&mut self, c: usize, fq: &F, fx: &mut Vec<Effect>)
        requires
            old(self)@.wf(),
            (c as int) < old(self)@.clients.len(),
            old(self)@.clients[c as int].alive,
            old(self)@.clients[c as int].isfullscreen,
            answers_all(fq),
        ensures
            final(self)@.wf(),
            fullscreen_post(old(self)@, c, false, final(self)@, fq),
            final(fx)@ == old(fx)@ + crate::engine::added(old(fx)@, final(fx)@),
            fullscreen_fx(old(self)@, c, false, final(self)@, crate::engine::added(old(fx)@, final(fx)@), fq),
    {
        let ghost v = self@;
        let cl = self.clients[c];
        let m = cl.mon;
        proof { assert(v.clients[c as int].alive); }
        fx.push(Effect::SetFullscreenProp { win: cl.win, fullscreen: false });
        self.clients[c].isfullscreen = false;
        self.clients[c].isfloating = cl.oldstate;
        self.clients[c].bw = cl.oldbw;
        self.clients[c].x = cl.oldx;
        self.clients[c].y = cl.oldy;
        self.clients[c].w = cl.oldw;
        self.clients[c].h = cl.oldh;
        proof {
            assert(self@.clients =~= v.set_client(c as int, fullscreen_off(cl)).clients);
            assert(self@.names =~= v.names);
            assert(self@.mons =~= v.mons);
            lemma_wf_set_client(v, c as int, fullscreen_off(cl));
        }
        self.resizeclient(c, cl.oldx, cl.oldy, cl.oldw, cl.oldh, fx);
        let ghost fx1 = fx@;
        self.arrange(Some(m), fq, fx);
        proof {
            let v1 = v.set_client(c as int, fullscreen_off(cl));
            let g = fullscreen_off(cl);
            let pre = seq![Effect::SetFullscreenProp { win: cl.win, fullscreen: false }] + resize_effects(v1, c as int, g.x, g.y, g.w, g.h);
            let e = crate::engine::added(old(fx)@, fx@);
            assert(fx1 =~= old(fx)@ + pre);
            assert(e =~= pre + crate::engine::added(fx1, fx@));
            assert(e.subrange(0, pre.len() as int) =~= pre);
            assert(e.subrange(pre.len() as int, e.len() as int) =~= crate::engine::added(fx1, fx@));
            assert(fx@ =~= old(fx)@ + e);
        }
    }

    /// Puts client `c` into fullscreen, filling its monitor and raised, or
    /// takes it out, back to its former geometry, and arranges its monitor.
    /// A client already in the state asked for is left as it is.
    pub fn setfullscreen<F: Fn(FloatQuery) -> (i32, i32)>(&mut self, c: usize, fullscreen: bool, fq: &F, fx: &mut Vec<Effect>)
        requires
            old(self)@.wf(),
            (c as int) < old(self)@.clients.len(),
            old(self)@.clients[c as int].alive,
            answers_all(fq),
        ensures
            final(self)@.wf(),
            fullscreen_post(old(self)@, c, fullscreen, final(self)@, fq),
            final(fx)@ == old(fx)@ + crate::engine::added(old(fx)@, final(fx)@),
            fullscreen_fx(old(self)@, c, fullscreen, final(self)@, crate::engine::added(old(fx)@, final(fx)@), fq),
    {
        let ghost v = self@;
        let cl = self.clients[c];
        if fullscreen && !cl.isfullscreen {
            self.enter_fullscreen(c, fx);
            proof {
                let e = crate::engine::added(old(fx)@, fx@);
                let mv = v.mons[cl.mon as int];
                let v1 = v.set_client(c as int, fullscreen_on(cl));
                assert(e =~= seq![Effect::SetFullscreenProp { win: cl.win, fullscreen: true }]
                    + resize_effects(v1, c as int, mv.mx, mv.my, mv.mw, mv.mh)
                    + seq![Effect::Raise { win: cl.win }]);
                assert(fx@ =~= old(fx)@ + e);
            }
        } else if !fullscreen && cl.isfullscreen {
            self.leave_fullscreen(c, fq, fx);
        } else {
            proof {
                assert(crate::engine::added(old(fx)@, fx@) =~= Seq::<Effect>::empty());
                assert(fx@ =~= old(fx)@ + crate::engine::added(old(fx)@, fx@));
            }
        }
    }
}

} // verus!
