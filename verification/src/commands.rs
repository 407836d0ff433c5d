use vstd::prelude::*;
use crate::config::{Layout, layout_symbol, spec_layout_symbol};
use crate::engine::{Effect, FloatQuery, answers_all, arranged, i32w, wrap, to_cstr16, cstr16, resize_done, aspect_answer, resize_fx};
use crate::focus::{focus_state, focus_effects, unfocus_effects, lemma_wf_set_mon};
use crate::model::{Client, Monitor, MonitorView, Wm, WmView, pick};

verus! {

/// A monitor's window area and bar position after its bar was shown or
/// hidden: the window area is the monitor less the bar, which sits at the top
/// or the bottom; a hidden bar sits above the screen.
pub open spec fn barpos(mv: MonitorView, bh: i32) -> MonitorView {
    if mv.showbar {
        let wh = i32w(mv.mh - bh);
        MonitorView {
            wy: if mv.topbar { i32w(mv.my + bh) } else { mv.my },
            wh: wh,
            by: if mv.topbar { mv.my } else { i32w(mv.my + wh) },
            ..mv
        }
    } else {
        MonitorView { wy: mv.my, wh: mv.mh, by: i32w(-bh), ..mv }
    }
}

/// Changing only the geometry fields of a monitor keeps the state well formed.
pub proof fn lemma_wf_mon_geometry(v: WmView, m: int, nm: MonitorView)
    requires
        v.wf(),
        0 <= m < v.mons.len(),
        nm.clients == v.mons[m].clients,
        nm.stack == v.mons[m].stack,
        nm.sel == v.mons[m].sel,
        nm.seltags == v.mons[m].seltags,
        nm.sellt < 2,
        nm.tagset == v.mons[m].tagset,
    ensures
        v.set_mon(m, nm).wf(),
{
    let v2 = v.set_mon(m, nm);
    assert(v.mon_ok(m));
    assert(v2.mon_ok(m)) by {
        assert forall|k: int| 0 <= k < nm.clients.len() implies #[trigger] v2.client_on(nm.clients[k] as int, m) by {
            assert(v.client_on(nm.clients[k] as int, m));
        }
        assert forall|k: int| 0 <= k < nm.stack.len() implies #[trigger] v2.client_on(nm.stack[k] as int, m) by {
            assert(v.client_on(nm.stack[k] as int, m));
        }
    }
    lemma_wf_set_mon(v, m, nm);
}

impl Wm {
    /// Places the bar of monitor `m` and sets its window area accordingly.
    pub fn updatebarpos(&mut self, m: usize)
        requires
            old(self)@.wf(),
            m < old(self)@.mons.len(),
        ensures
            final(self)@.wf(),
            final(self)@ == old(self)@.set_mon(m as int, barpos(old(self)@.mons[m as int], old(self)@.bh)),
    {
        let ghost v = self@;
        let bh = self.bh as i64;
        self.mons[m].wy = self.mons[m].my;
        self.mons[m].wh = self.mons[m].mh;
        if self.mons[m].showbar {
            self.mons[m].wh = wrap(self.mons[m].wh as i64 - bh);
            self.mons[m].by = if self.mons[m].topbar { self.mons[m].wy } else { wrap(self.mons[m].wy as i64 + self.mons[m].wh as i64) };
            if self.mons[m].topbar {
                self.mons[m].wy = wrap(self.mons[m].wy as i64 + bh);
            }
        } else {
            self.mons[m].by = wrap(-bh);
        }
        proof {
            let t = v.set_mon(m as int, barpos(v.mons[m as int], v.bh));
            assert(self@.mons =~= t.mons);
            assert(self@.names =~= t.names);
            assert(v.mon_ok(m as int));
            lemma_wf_mon_geometry(v, m as int, barpos(v.mons[m as int], v.bh));
        }
    }
}

/// Changes the number of master windows of the selected monitor by `i`, to no
/// less than 0, and arranges it.
pub fn incnmaster<F: Fn(FloatQuery) -> (i32, i32)>(wm: &mut Wm, i: i32, fq: &F, fx: &mut Vec<Effect>)
    requires
        old(wm)@.wf(),
        answers_all(fq),
    ensures
        final(wm)@.wf(),
        ({
            let v = old(wm)@;
            let m = v.selmon as int;
            let n = i32w(v.mons[m].nmaster + i);
            &&& arranged(v.set_mon(m, MonitorView { nmaster: if n >= 0 { n } else { 0 }, ..v.mons[m] }), m, final(wm)@, fq)
            &&& crate::engine::arranged_fx(v.set_mon(m, MonitorView { nmaster: if n >= 0 { n } else { 0 }, ..v.mons[m] }), m,
                    final(wm)@, crate::engine::added(old(fx)@, final(fx)@), fq)
        }),
        final(fx)@ == old(fx)@ + crate::engine::added(old(fx)@, final(fx)@),
{
    let ghost v = wm@;
    let sm = wm.selmon;
    let n = wrap(wm.mons[sm].nmaster as i64 + i as i64);
    wm.mons[sm].nmaster = if n >= 0 { n } else { 0 };
    proof {
        let nm = MonitorView { nmaster: if n >= 0 { n } else { 0 }, ..v.mons[sm as int] };
        assert(wm@.mons =~= v.set_mon(sm as int, nm).mons);
        assert(wm@.names =~= v.names);
        assert(v.mon_ok(sm as int));
        lemma_wf_mon_geometry(v, sm as int, nm);
    }
    wm.arrange(Some(sm), fq, fx);
}

/// The layout change of `setlayout`: the selected monitor switches to its
/// other layout slot unless the requested layout is the selected one; a
/// requested layout goes into the selected slot; the symbol follows.
pub open spec fn setlayout_state(v: WmView, l: Option<Layout>) -> WmView {
    let m = v.selmon as int;
    let mv = v.mons[m];
    let cur = pick(mv.lt, mv.sellt as int);
    let st: usize = if l is None || l != Some(cur) { (1 - mv.sellt) as usize } else { mv.sellt };
    let lt = match l {
        Some(x) => if st == 0 { (x, mv.lt.1) } else { (mv.lt.0, x) },
        None => mv.lt,
    };
    v.set_mon(m, MonitorView { sellt: st, lt: lt, ltsymbol: cstr16(spec_layout_symbol(pick(lt, st as int))), ..mv })
}

/// Selects layout `l` on the selected monitor, or, for `None`, the other of
/// its two layouts; then arranges the monitor where it has a selected client,
/// else redraws its bar.
pub fn setlayout<F: Fn(FloatQuery) -> (i32, i32)>(wm: &mut Wm, l: Option<Layout>, fq: &F, fx: &mut Vec<Effect>)
    requires
        old(wm)@.wf(),
        answers_all(fq),
    ensures
        final(wm)@.wf(),
        ({
            let v = old(wm)@;
            let t = setlayout_state(v, l);
            if v.mons[v.selmon as int].sel is Some {
                &&& arranged(t, v.selmon as int, final(wm)@, fq)
                &&& final(fx)@ == old(fx)@ + crate::engine::added(old(fx)@, final(fx)@)
                &&& crate::engine::arranged_fx(t, v.selmon as int, final(wm)@, crate::engine::added(old(fx)@, final(fx)@), fq)
            } else {
                final(wm)@ == t && final(fx)@ == old(fx)@.push(Effect::DrawBar { mon: v.selmon })
            }
        }),
{
    let ghost v = wm@;
    let sm = wm.selmon;
    proof { assert(v.mon_ok(sm as int)); }
    let sellt = wm.mons[sm].sellt;
    let cur = wm.mons[sm].lt[sellt];
    let toggle = match l {
        None => true,
        Some(x) => x != cur,
    };
    if toggle {
        wm.mons[sm].sellt = if sellt == 0 { 1 } else { 0 };
    }
    match l {
        Some(x) => {
            let st = wm.mons[sm].sellt;
            wm.mons[sm].lt[st] = x;
        },
        None => {},
    }
    let st = wm.mons[sm].sellt;
    let sym = layout_symbol(wm.mons[sm].lt[st]);
    wm.mons[sm].ltsymbol = to_cstr16(&sym);
    proof {
        let t = setlayout_state(v, l);
        assert(wm@.mons =~= t.mons);
        assert(wm@.names =~= t.names);
        assert(wm@ == t);
        lemma_wf_mon_geometry(v, sm as int, t.mons[sm as int]);
    }
    if wm.mons[sm].sel.is_some() {
        wm.arrange(Some(sm), fq, fx);
    } else {
        fx.push(Effect::DrawBar { mon: sm });
    }
}

/// The selected monitor with its bar shown or hidden in turn.
pub open spec fn togglebar_state(v: WmView) -> WmView {
    let m = v.selmon as int;
    v.set_mon(m, barpos(MonitorView { showbar: !v.mons[m].showbar, ..v.mons[m] }, v.bh))
}

/// The request that moves the selected monitor's bar window after a toggle.
pub open spec fn togglebar_effect(v: WmView) -> Effect {
    let tm = togglebar_state(v).mons[v.selmon as int];
    Effect::MoveResize { win: tm.barwin, x: tm.wx, y: tm.by, w: tm.ww, h: v.bh }
}

/// Shows or hides the bar of the selected monitor, moves the bar window and
/// arranges the monitor.
pub fn togglebar<F: Fn(FloatQuery) -> (i32, i32)>(wm: &mut Wm, fq: &F, fx: &mut Vec<Effect>)
    requires
        old(wm)@.wf(),
        answers_all(fq),
    ensures
        final(wm)@.wf(),
        exists|fxm: Seq<Effect>| #[trigger] fxm.is_prefix_of(final(fx)@)
            && fxm == old(fx)@.push(togglebar_effect(old(wm)@))
            && arranged(togglebar_state(old(wm)@), old(wm)@.selmon as int, final(wm)@, fq),
        final(fx)@ == old(fx)@.push(togglebar_effect(old(wm)@))
            + crate::engine::added(old(fx)@.push(togglebar_effect(old(wm)@)), final(fx)@),
        crate::engine::arranged_fx(togglebar_state(old(wm)@), old(wm)@.selmon as int, final(wm)@,
            crate::engine::added(old(fx)@.push(togglebar_effect(old(wm)@)), final(fx)@), fq),
{
    let ghost v = wm@;
    let sm = wm.selmon;
    wm.mons[sm].showbar = !wm.mons[sm].showbar;
    proof {
        let nm = MonitorView { showbar: !v.mons[sm as int].showbar, ..v.mons[sm as int] };
        assert(wm@.mons =~= v.set_mon(sm as int, nm).mons);
        assert(wm@.names =~= v.names);
        assert(v.mon_ok(sm as int));
        lemma_wf_mon_geometry(v, sm as int, nm);
    }
    wm.updatebarpos(sm);
    fx.push(Effect::MoveResize { win: wm.mons[sm].barwin, x: wm.mons[sm].wx, y: wm.mons[sm].by, w: wm.mons[sm].ww, h: wm.bh });
    let ghost fxm = fx@;
    proof {
        let nm = MonitorView { showbar: !v.mons[sm as int].showbar, ..v.mons[sm as int] };
        assert(v.set_mon(sm as int, nm).set_mon(sm as int, barpos(nm, v.bh)).mons =~=
            v.set_mon(sm as int, barpos(nm, v.bh)).mons);
    }
    wm.arrange(Some(sm), fq, fx);
}

/// Stops the event loop.
pub fn quit(wm: &mut Wm)
    ensures
        final(wm)@ == (WmView { running: false, ..old(wm)@ }),
{
    wm.running = false;
    proof { assert(wm@.names =~= old(wm)@.names); assert(wm@.mons =~= old(wm)@.mons); }
}


/// `togglefloating` acts: there is a selected client and it is not fullscreen.
pub open spec fn togglefloating_acts(v: WmView) -> bool {
    match v.mons[v.selmon as int].sel {
        Some(c) => !v.clients[c as int].isfullscreen,
        None => false,
    }
}

/// The selected client floating in turn (a fixed-size client always floats).
pub open spec fn togglefloating_state(v: WmView) -> WmView {
    let c = v.mons[v.selmon as int].sel.unwrap();
    let cl = v.clients[c as int];
    v.set_client(c as int, Client { isfloating: !cl.isfloating || cl.isfixed, ..cl })
}

/// Toggling the floating state of the selected client took `v` to `v2`:
/// nothing where there is no selected client or it is fullscreen; else the
/// client floats or tiles in turn, a client that starts floating is resized
/// to its own geometry as its size hints allow, and the monitor is arranged.
pub open spec fn togglefloating_post<F: Fn(FloatQuery) -> (i32, i32)>(v: WmView, v2: WmView, fq: &F) -> bool {
    if !togglefloating_acts(v) {
        v2 == v
    } else {
        let t = togglefloating_state(v);
        let c = v.mons[v.selmon as int].sel.unwrap();
        let cl = t.clients[c as int];
        if cl.isfloating {
            exists|a: (i32, i32)| #[trigger] aspect_answer(t, cl, cl.x, cl.y, cl.w, cl.h, false, fq, a)
                && arranged(resize_done(t, c as int, cl.x, cl.y, cl.w, cl.h, false, a), v.selmon as int, v2, fq)
        } else {
            arranged(t, v.selmon as int, v2, fq)
        }
    }
}

/// The requests of toggling the floating state of the selected client, which
/// took `v` to `v2`: none where it does not act; else those of resizing a
/// client that starts floating, then those of arranging the monitor.
pub open spec fn togglefloating_fx<F: Fn(FloatQuery) -> (i32, i32)>(v: WmView, v2: WmView, e: Seq<Effect>, fq: &F) -> bool {
    if !togglefloating_acts(v) {
        e == Seq::<Effect>::empty()
    } else {
        let t = togglefloating_state(v);
        let c = v.mons[v.selmon as int].sel.unwrap();
        let cl = t.clients[c as int];
        if cl.isfloating {
            exists|a: (i32, i32)| {
                let rfx = crate::engine::resize_fx(t, c as int, cl.x, cl.y, cl.w, cl.h, false, a);
                &&& #[trigger] aspect_answer(t, cl, cl.x, cl.y, cl.w, cl.h, false, fq, a)
                &&& rfx.len() <= e.len()
                &&& e.subrange(0, rfx.len() as int) == rfx
                &&& crate::engine::arranged_fx(resize_done(t, c as int, cl.x, cl.y, cl.w, cl.h, false, a), v.selmon as int, v2,
                        e.subrange(rfx.len() as int, e.len() as int), fq)
            }
        } else {
            crate::engine::arranged_fx(t, v.selmon as int, v2, e, fq)
        }
    }
}

/// Makes the selected client float or tile in turn; a client that starts
/// floating keeps its geometry as its size hints allow. Then arranges.
#[verifier::spinoff_prover]
#[verifier::rlimit(80)]
pub fn togglefloating<F: Fn(FloatQuery) -> (i32, i32)>(wm: &mut Wm, fq: &F, fx: &mut Vec<Effect>)
    requires
        old(wm)@.wf(),
        answers_all(fq),
    ensures
        final(wm)@.wf(),
        !togglefloating_acts(old(wm)@) ==> final(wm)@ == old(wm)@ && final(fx)@ == old(fx)@,
        togglefloating_post(old(wm)@, final(wm)@, fq),
        final(fx)@ == old(fx)@ + crate::engine::added(old(fx)@, final(fx)@),
        togglefloating_fx(old(wm)@, final(wm)@, crate::engine::added(old(fx)@, final(fx)@), fq),
{
    let ghost v = wm@;
    let sm = wm.selmon;
    proof { assert(v.mon_ok(sm as int)); }
    let c = match wm.mons[sm].sel {
        Some(c) => c,
        None => {
            proof { crate::tags::lemma_no_fx(fx@); }
            return;
        },
    };
    proof {
        let j = choose|j: int| 0 <= j < v.mons[sm as int].clients.len() && v.mons[sm as int].clients[j] == c;
        assert(v.client_on(v.mons[sm as int].clients[j] as int, sm as int));
    }
    if wm.clients[c].isfullscreen {
        proof { crate::tags::lemma_no_fx(fx@); }
        return;
    }
    let fl = !wm.clients[c].isfloating || wm.clients[c].isfixed;
    wm.clients[c].isfloating = fl;
    proof {
        let t = togglefloating_state(v);
        assert(wm@.clients =~= t.clients);
        assert(wm@.names =~= t.names);
        assert(wm@ == t);
        crate::engine::lemma_wf_set_client(v, c as int, t.clients[c as int]);
    }
    let ghost t = wm@;
    if fl {
        let cl = wm.clients[c];
        wm.resize(c, cl.x, cl.y, cl.w, cl.h, false, fq, fx);
        let ghost r = wm@;
        let ghost f1 = fx@;
        wm.arrange(Some(sm), fq, fx);
        proof {
            let a = choose|a: (i32, i32)| #[trigger] aspect_answer(t, t.clients[c as int], cl.x, cl.y, cl.w, cl.h, false, fq, a)
                && r == resize_done(t, c as int, cl.x, cl.y, cl.w, cl.h, false, a)
                && f1 == old(fx)@ + crate::engine::resize_fx(t, c as int, cl.x, cl.y, cl.w, cl.h, false, a);
            assert(aspect_answer(t, t.clients[c as int], cl.x, cl.y, cl.w, cl.h, false, fq, a));
            let rfx = crate::engine::resize_fx(t, c as int, cl.x, cl.y, cl.w, cl.h, false, a);
            let e = crate::engine::added(old(fx)@, fx@);
            assert(e =~= rfx + crate::engine::added(f1, fx@));
            assert(e.subrange(0, rfx.len() as int) =~= rfx);
            assert(e.subrange(rfx.len() as int, e.len() as int) =~= crate::engine::added(f1, fx@));
            assert(fx@ =~= old(fx)@ + e);
        }
    } else {
        wm.arrange(Some(sm), fq, fx);
    }
}

/// The monitor one step from the selected one, round the list of monitors.
pub open spec fn dirtomon_spec(v: WmView, dir: i32) -> usize {
    let n = v.mons.len();
    if dir > 0 {
        if v.selmon + 1 < n { (v.selmon + 1) as usize } else { 0 }
    } else if v.selmon == 0 {
        (n - 1) as usize
    } else {
        (v.selmon - 1) as usize
    }
}

impl Wm {
    /// The monitor after (positive `dir`) or before the selected one, round
    /// the list of monitors.
    pub fn dirtomon(&self, dir: i32) -> (r: usize)
        requires
            self@.wf(),
        ensures
            r == dirtomon_spec(self@, dir),
            r < self@.mons.len(),
    {
        let n = self.mons.len();
        if dir > 0 {
            if self.selmon + 1 < n { self.selmon + 1 } else { 0 }
        } else if self.selmon == 0 {
            n - 1
        } else {
            self.selmon - 1
        }
    }
}

/// Moves the focus to the next (positive `i`) or previous monitor, where
/// there is more than one.
pub fn focusmon(wm: &mut Wm, i: i32, fx: &mut Vec<Effect>)
    requires
        old(wm)@.wf(),
    ensures
        final(wm)@.wf(),
        ({
            let v = old(wm)@;
            let m = dirtomon_spec(v, i);
            if v.mons.len() <= 1 || m == v.selmon {
                final(wm)@ == v && final(fx)@ == old(fx)@
            } else {
                let t = WmView { selmon: m, ..v };
                &&& final(wm)@ == focus_state(t, None)
                &&& final(fx)@ == old(fx)@ + (match v.mons[v.selmon as int].sel {
                        Some(s) => unfocus_effects(v, s, false),
                        None => Seq::empty(),
                    }) + focus_effects(t, None)
            }
        }),
{
    let ghost v = wm@;
    if wm.mons.len() <= 1 {
        return;
    }
    let m = wm.dirtomon(i);
    if m == wm.selmon {
        return;
    }
    let sm = wm.selmon;
    proof { assert(v.mon_ok(sm as int)); }
    match wm.mons[sm].sel {
        Some(s) => {
            proof {
                let j = choose|j: int| 0 <= j < v.mons[sm as int].clients.len() && v.mons[sm as int].clients[j] == s;
                assert(v.client_on(v.mons[sm as int].clients[j] as int, sm as int));
            }
            wm.unfocus(s, false, fx);
        },
        None => {
            proof { assert(fx@ =~= old(fx)@ + Seq::<Effect>::empty()); }
        },
    }
    let ghost fx1 = fx@;
    wm.selmon = m;
    proof {
        assert(wm@.names =~= v.names);
        assert(wm@.mons =~= v.mons);
        let t = WmView { selmon: m, ..v };
        assert(wm@ == t);
        assert(t.wf()) by {
            assert forall|mm: int| 0 <= mm < t.mons.len() implies #[trigger] t.mon_ok(mm) by {
                assert(v.mon_ok(mm));
                let mon = v.mons[mm];
                assert forall|k: int| 0 <= k < mon.clients.len() implies #[trigger] t.client_on(mon.clients[k] as int, mm) by {
                    assert(v.client_on(mon.clients[k] as int, mm));
                }
                assert forall|k: int| 0 <= k < mon.stack.len() implies #[trigger] t.client_on(mon.stack[k] as int, mm) by {
                    assert(v.client_on(mon.stack[k] as int, mm));
                }
            }
            assert forall|id: int| 0 <= id < t.clients.len() && (#[trigger] t.clients[id]).alive implies
                t.clients[id].mon < t.mons.len() && t.mons[t.clients[id].mon as int].clients.contains(id as usize)
                && WmView::tagset_ok(t.clients[id].tags) by {
                assert(v.clients[id].alive);
            }
        }
    }
    wm.focus(None, fx);
    proof { assert(fx@ =~= old(fx)@ + (fx1.subrange(old(fx)@.len() as int, fx1.len() as int)) + focus_effects(WmView { selmon: m, ..v }, None)); }
}

} // verus!
