use vstd::prelude::*;
use crate::engine::{Effect, FloatQuery, answers_all, arranged, has_arrange, i32w, tdiv, div_trunc, wrap, width_of, height_of,
    lemma_wf_set_client, lemma_prefix_concat, lemma_prefix_trans};
use crate::model::{Client, MonitorView, Wm, WmView};
use crate::window::client_for;

verus! {

/// Bits of the value mask of a configure request.
pub const CW_X: u64 = 1;
pub const CW_Y: u64 = 2;
pub const CW_WIDTH: u64 = 4;
pub const CW_HEIGHT: u64 = 8;
pub const CW_BORDER_WIDTH: u64 = 16;

/// A ConfigureRequest event, as plain values.
#[derive(Clone, Copy, PartialEq, Eq, Structural, Debug)]
pub struct ConfigRequest {
    pub window: u64,
    pub value_mask: u64,
    pub x: i32,
    pub y: i32,
    pub width: i32,
    pub height: i32,
    pub border_width: i32,
    pub above: u64,
    pub detail: i32,
}

/// A floating client that asks for a geometry: each field the request names
/// is taken (positions relative to the monitor), the former value
/// remembered; a floating client that would reach past its monitor is
/// centred on it in that direction.
pub open spec fn requested(v: WmView, c: Client, r: ConfigRequest) -> Client {
    recentred(request_fields(c, v.mons[c.mon as int], r), v.mons[c.mon as int])
}

/// Client `c` with the fields request `r` names taken, positions relative to
/// monitor `m`, former values remembered.
pub open spec fn request_fields(c: Client, m: MonitorView, r: ConfigRequest) -> Client {
    Client {
        oldx: if r.value_mask & CW_X != 0 { c.x } else { c.oldx },
        x: if r.value_mask & CW_X != 0 { i32w(m.mx + r.x) } else { c.x },
        oldy: if r.value_mask & CW_Y != 0 { c.y } else { c.oldy },
        y: if r.value_mask & CW_Y != 0 { i32w(m.my + r.y) } else { c.y },
        oldw: if r.value_mask & CW_WIDTH != 0 { c.w } else { c.oldw },
        w: if r.value_mask & CW_WIDTH != 0 { r.width } else { c.w },
        oldh: if r.value_mask & CW_HEIGHT != 0 { c.h } else { c.oldh },
        h: if r.value_mask & CW_HEIGHT != 0 { r.height } else { c.h },
        ..c
    }
}

/// A floating client that reaches past monitor `m` to the right or below,
/// centred on it in that direction.
pub open spec fn recentred(c: Client, m: MonitorView) -> Client {
    let x2 = if i32w(c.x + c.w) > i32w(m.mx + m.mw) && c.isfloating {
        i32w(m.mx + i32w(tdiv(m.mw as int, 2) - tdiv(width_of(c) as int, 2)))
    } else {
        c.x
    };
    let y2 = if i32w(c.y + c.h) > i32w(m.my + m.mh) && c.isfloating {
        i32w(m.my + i32w(tdiv(m.mh as int, 2) - tdiv(height_of(c) as int, 2)))
    } else {
        c.y
    };
    Client { x: x2, y: y2, ..c }
}

/// A synthetic ConfigureNotify that tells client `c` its geometry.
pub open spec fn configure_effect(c: Client) -> Effect {
    Effect::NotifyConfigure { win: c.win, x: c.x, y: c.y, w: c.w, h: c.h, bw: c.bw }
}

/// The client may place itself: it floats, or the selected monitor has no
/// layout.
pub open spec fn may_move(v: WmView, c: Client) -> bool {
    c.isfloating || !has_arrange(v, v.selmon as int)
}

/// The state after a configure request of managed client `c`.
pub open spec fn configured_state(v: WmView, c: usize, r: ConfigRequest) -> WmView {
    let cl = v.clients[c as int];
    if r.value_mask & CW_BORDER_WIDTH != 0 {
        v.set_client(c as int, Client { bw: r.border_width, ..cl })
    } else if may_move(v, cl) {
        v.set_client(c as int, requested(v, cl, r))
    } else {
        v
    }
}

/// The requests that a configure request of managed client `c` makes.
pub open spec fn configured_effects(v: WmView, c: usize, r: ConfigRequest) -> Seq<Effect> {
    let cl = v.clients[c as int];
    if r.value_mask & CW_BORDER_WIDTH != 0 {
        seq![Effect::Sync]
    } else if may_move(v, cl) {
        let n = requested(v, cl, r);
        let v2 = v.set_client(c as int, n);
        (if r.value_mask & (CW_X | CW_Y) != 0 && r.value_mask & (CW_WIDTH | CW_HEIGHT) == 0 {
            seq![configure_effect(n)]
        } else {
            Seq::empty()
        })
        + (if v2.visible(c as int) {
            seq![Effect::MoveResize { win: n.win, x: n.x, y: n.y, w: n.w, h: n.h }]
        } else {
            Seq::empty()
        })
        + seq![Effect::Sync]
    } else {
        seq![configure_effect(cl), Effect::Sync]
    }
}

impl Wm {
    /// Answers a window's request to be configured: an unmanaged window gets
    /// what it asks for; a managed one may change its border, may move and
    /// resize where it floats or no layout arranges, and is else told its
    /// geometry.
    pub fn configurerequest(&mut self, r: ConfigRequest, fx: &mut Vec<Effect>)
        requires
            old(self)@.wf(),
        ensures
            final(self)@.wf(),
            match client_for(old(self)@, 0, r.window, false) {
                Some(c) => final(self)@ == configured_state(old(self)@, c, r)
                    && final(fx)@ == old(fx)@ + configured_effects(old(self)@, c, r),
                None => final(self)@ == old(self)@
                    && final(fx)@ == old(fx)@ + seq![Effect::ConfigureRaw { request: r }, Effect::Sync],
            },
    {
        let ghost v = self@;
        match self.wintoclient(r.window) {
            None => {
                fx.push(Effect::ConfigureRaw { request: r });
                fx.push(Effect::Sync);
                proof { assert(fx@ =~= old(fx)@ + seq![Effect::ConfigureRaw { request: r }, Effect::Sync]); }
            },
            Some(c) => {
                let cl = self.clients[c];
                proof { assert(v.mon_ok(cl.mon as int)); assert(v.mon_ok(v.selmon as int)); }
                if r.value_mask & CW_BORDER_WIDTH != 0 {
                    self.clients[c].bw = r.border_width;
                    proof {
                        let t = configured_state(v, c, r);
                        assert(self@.clients =~= t.clients);
                        assert(self@.names =~= t.names);
                        assert(self@.mons =~= t.mons);
                        lemma_wf_set_client(v, c as int, t.clients[c as int]);
                    }
                    fx.push(Effect::Sync);
                    proof { assert(fx@ =~= old(fx)@ + configured_effects(v, c, r)); }
                } else if cl.isfloating || !self.layout_has_arrange(self.selmon) {
                    let n = self.requested_geometry(cl, r);
                    self.clients[c] = n;
                    proof {
                        let t = configured_state(v, c, r);
                        assert(self@.clients =~= t.clients);
                        assert(self@.names =~= t.names);
                        assert(self@.mons =~= t.mons);
                        lemma_wf_set_client(v, c as int, n);
                    }
                    let ghost fx0 = fx@;
                    if r.value_mask & (CW_X | CW_Y) != 0 && r.value_mask & (CW_WIDTH | CW_HEIGHT) == 0 {
                        fx.push(Effect::NotifyConfigure { win: n.win, x: n.x, y: n.y, w: n.w, h: n.h, bw: n.bw });
                    }
                    if self.isvisible(c) {
                        fx.push(Effect::MoveResize { win: n.win, x: n.x, y: n.y, w: n.w, h: n.h });
                    }
                    fx.push(Effect::Sync);
                    proof { assert(fx@ =~= old(fx)@ + configured_effects(v, c, r)); }
                } else {
                    fx.push(Effect::NotifyConfigure { win: cl.win, x: cl.x, y: cl.y, w: cl.w, h: cl.h, bw: cl.bw });
                    fx.push(Effect::Sync);
                    proof { assert(fx@ =~= old(fx)@ + configured_effects(v, c, r)); }
                }
            },
        }
    }

    /// The geometry a managed client takes from a configure request.
    fn requested_geometry(&self, c: Client, r: ConfigRequest) -> (n: Client)
        requires
            c.mon < self@.mons.len(),
        ensures
            n == requested(self@, c, r),
    {
        let m = &self.mons[c.mon];
        let c1 = take_request(c, m.mx, m.my, r);
        proof { assert(c1 == request_fields(c, self@.mons[c.mon as int], r)); }
        recentre(c1, m.mx, m.my, m.mw, m.mh)
    }
}

fn take_request(c: Client, mx: i32, my: i32, r: ConfigRequest) -> (n: Client)
    ensures
        forall|m: MonitorView| m.mx == mx && m.my == my ==> n == #[trigger] request_fields(c, m, r),
{
    let mut n = c;
    if r.value_mask & CW_X != 0 {
        n.oldx = c.x;
        n.x = wrap(mx as i64 + r.x as i64);
    }
    if r.value_mask & CW_Y != 0 {
        n.oldy = c.y;
        n.y = wrap(my as i64 + r.y as i64);
    }
    if r.value_mask & CW_WIDTH != 0 {
        n.oldw = c.w;
        n.w = r.width;
    }
    if r.value_mask & CW_HEIGHT != 0 {
        n.oldh = c.h;
        n.h = r.height;
    }
    n
}

fn recentre(c: Client, mx: i32, my: i32, mw: i32, mh: i32) -> (n: Client)
    ensures
        forall|m: MonitorView| m.mx == mx && m.my == my && m.mw == mw && m.mh == mh ==> n == #[trigger] recentred(c, m),
{
    let mut n = c;
    if wrap(c.x as i64 + c.w as i64) > wrap(mx as i64 + mw as i64) && c.isfloating {
        let wd = wrap(c.w as i64 + 2 * c.bw as i64);
        let half = wrap(div_trunc(mw as i64, 2) - div_trunc(wd as i64, 2));
        n.x = wrap(mx as i64 + half as i64);
    }
    if wrap(c.y as i64 + c.h as i64) > wrap(my as i64 + mh as i64) && c.isfloating {
        let ht = wrap(c.h as i64 + 2 * c.bw as i64);
        let half = wrap(div_trunc(mh as i64, 2) - div_trunc(ht as i64, 2));
        n.y = wrap(my as i64 + half as i64);
    }
    n
}


/// A client message, as the window manager reads it: a request on the
/// `_NET_WM_STATE` of a window (`action` 0 removes, 1 adds, 2 toggles; it
/// concerns fullscreen where either property it names is the fullscreen
/// state), a request to activate a window, or another message.
#[derive(Clone, Copy, PartialEq, Eq, Structural, Debug)]
pub enum ClientMsg {
    WmState { action: i64, fullscreen: bool },
    ActiveWindow,
    Other,
}

/// Monitor `m` selected instead of the selected one.
pub open spec fn with_selmon(v: WmView, m: usize) -> WmView {
    WmView { selmon: m, ..v }
}

/// Selecting another existing monitor keeps the state well formed.
pub proof fn lemma_wf_selmon(v: WmView, m: usize)
    requires
        v.wf(),
        (m as int) < v.mons.len(),
    ensures
        with_selmon(v, m).wf(),
{
    let t = with_selmon(v, m);
    assert forall|mm: int| 0 <= mm < t.mons.len() implies #[trigger] t.mon_ok(mm) by {
        assert(v.mon_ok(mm));
        let mon = v.mons[mm];
        assert forall|k: int| 0 <= k < mon.clients.len() implies #[trigger] t.client_on(mon.clients[k] as int, mm) by {
            assert(v.client_on(mon.clients[k] as int, mm));
        }
        assert forall|k: int| 0 <= k < mon.stack.len() implies #[trigger] t.client_on(mon.stack[k] as int, mm) by {
            assert(v.client_on(mon.stack[k] as int, mm));
        }
    }
    assert forall|id: int| 0 <= id < t.clients.len() && (#[trigger] t.clients[id]).alive implies
        t.clients[id].mon < t.mons.len() && t.mons[t.clients[id].mon as int].clients.contains(id as usize)
        && WmView::tagset_ok(t.clients[id].tags) by {
        assert(v.clients[id].alive);
    }
}

/// The requests of taking the focus from the selected client of the selected
/// monitor, if any, and giving it to the root window.
pub open spec fn unfocus_sel_effects(v: WmView) -> Seq<Effect> {
    match v.mons[v.selmon as int].sel {
        Some(s) => crate::focus::unfocus_effects(v, s, true),
        None => Seq::empty(),
    }
}

impl Wm {
    /// Takes the focus from the selected client of the selected monitor, if
    /// any, and selects monitor `m`.
    pub fn switch_monitor(&mut self, m: usize, fx: &mut Vec<Effect>)
        requires
            old(self)@.wf(),
            (m as int) < old(self)@.mons.len(),
        ensures
            final(self)@.wf(),
            final(self)@ == with_selmon(old(self)@, m),
            final(fx)@ == old(fx)@ + unfocus_sel_effects(old(self)@),
    {
        let ghost v = self@;
        let sm = self.selmon;
        proof { assert(v.mon_ok(sm as int)); }
        match self.mons[sm].sel {
            Some(s) => {
                proof {
                    let j = choose|j: int| 0 <= j < v.mons[sm as int].clients.len() && v.mons[sm as int].clients[j] == s;
                    assert(v.client_on(v.mons[sm as int].clients[j] as int, sm as int));
                }
                self.unfocus(s, true, fx);
            },
            None => { proof { assert(fx@ =~= old(fx)@ + Seq::<Effect>::empty()); } },
        }
        self.selmon = m;
        proof {
            lemma_wf_selmon(v, m);
            assert(self@.names =~= v.names);
            assert(self@.mons =~= v.mons);
        }
    }

    /// Handles a client message: a window asking to enter, leave or toggle
    /// fullscreen does so; a window other than the selected one asking to be
    /// activated is marked urgent.
    pub fn clientmessage<F: Fn(FloatQuery) -> (i32, i32)>(&mut self, win: u64, msg: ClientMsg, fq: &F, fx: &mut Vec<Effect>)
        requires
            old(self)@.wf(),
            answers_all(fq),
        ensures
            final(self)@.wf(),
            ({
                let v = old(self)@;
                match client_for(v, 0, win, false) {
                    None => final(self)@ == v && final(fx)@ == old(fx)@,
                    Some(c) => match msg {
                        ClientMsg::WmState { action, fullscreen } => if fullscreen {
                            &&& crate::hints::fullscreen_post(v, c, action == 1 || (action == 2 && !v.clients[c as int].isfullscreen), final(self)@, fq)
                            &&& final(fx)@ == old(fx)@ + crate::engine::added(old(fx)@, final(fx)@)
                            &&& crate::hints::fullscreen_fx(v, c, action == 1 || (action == 2 && !v.clients[c as int].isfullscreen),
                                    final(self)@, crate::engine::added(old(fx)@, final(fx)@), fq)
                        } else {
                            final(self)@ == v && final(fx)@ == old(fx)@
                        },
                        ClientMsg::ActiveWindow => if v.mons[v.selmon as int].sel != Some(c) && !v.clients[c as int].isurgent {
                            final(self)@ == crate::hints::urgent_state(v, c, true)
                                && final(fx)@ == old(fx)@.push(Effect::SetUrgent { win: v.clients[c as int].win, urgent: true })
                        } else {
                            final(self)@ == v && final(fx)@ == old(fx)@
                        },
                        ClientMsg::Other => final(self)@ == v && final(fx)@ == old(fx)@,
                    },
                }
            }),
    {
        let c = match self.wintoclient(win) {
            Some(c) => c,
            None => { return; },
        };
        match msg {
            ClientMsg::WmState { action, fullscreen } => {
                if fullscreen {
                    let on = action == 1 || (action == 2 && !self.clients[c].isfullscreen);
                    self.setfullscreen(c, on, fq, fx);
                }
            },
            ClientMsg::ActiveWindow => {
                if self.mons[self.selmon].sel != Some(c) && !self.clients[c].isurgent {
                    self.seturgent(c, true, fx);
                }
            },
            ClientMsg::Other => {},
        }
    }

    /// Handles the pointer entering window `win` (in normal mode, and not
    /// from an inferior window, unless `win` is the root): its monitor becomes
    /// the selected one and its client, or the monitor's first visible one,
    /// gets the focus.
    pub fn enternotify(&mut self, win: u64, normal: bool, inferior: bool, pointer: Option<(i32, i32)>, fx: &mut Vec<Effect>)
        requires
            old(self)@.wf(),
        ensures
            final(self)@.wf(),
            ({
                let v = old(self)@;
                let c = client_for(v, 0, win, false);
                if (!normal || inferior) && win != v.root {
                    final(self)@ == v && final(fx)@ == old(fx)@
                } else {
                    exists|m: usize| {
                        &&& #[trigger] enter_monitor(v, win, pointer, c, m)
                        &&& if m != v.selmon {
                                final(self)@ == focus_state_of(with_selmon(v, m), c)
                                && final(fx)@ == old(fx)@ + unfocus_sel_effects(v) + focus_effects_of(with_selmon(v, m), c)
                            } else if c is None || c == v.mons[v.selmon as int].sel {
                                final(self)@ == v && final(fx)@ == old(fx)@
                            } else {
                                final(self)@ == focus_state_of(v, c) && final(fx)@ == old(fx)@ + focus_effects_of(v, c)
                            }
                    }
                }
            }),
    {
        let ghost v = self@;
        if (!normal || inferior) && win != self.root {
            return;
        }
        let c = self.wintoclient(win);
        let m = match c {
            Some(cc) => self.clients[cc].mon,
            None => self.wintomon(win, pointer),
        };
        proof {
            if let Some(cc) = c {
                assert(v.clients[cc as int].alive);
            }
        }
        if m != self.selmon {
            self.switch_monitor(m, fx);
            let ghost fx1 = fx@;
            self.focus(c, fx);
            proof {
                assert(fx@ == old(fx)@ + unfocus_sel_effects(v) + focus_effects_of(with_selmon(v, m), c));
                assert(enter_monitor(v, win, pointer, c, m));
            }
        } else if c.is_none() || c == self.mons[self.selmon].sel {
            proof { assert(enter_monitor(v, win, pointer, c, m)); }
            return;
        } else {
            self.focus(c, fx);
            proof { assert(enter_monitor(v, win, pointer, c, m)); }
        }
    }

    /// Handles the end of an expose of window `win`: the bar of its monitor
    /// is redrawn.
    pub fn expose(&self, win: u64, count: i32, pointer: Option<(i32, i32)>, fx: &mut Vec<Effect>)
        requires
            self@.wf(),
        ensures
            count != 0 ==> final(fx)@ == old(fx)@,
            count == 0 ==> exists|m: usize| #[trigger] crate::window::window_monitor(self@, win, pointer, m)
                && final(fx)@ == old(fx)@.push(Effect::DrawBar { mon: m }),
    {
        if count == 0 {
            let m = self.wintomon(win, pointer);
            fx.push(Effect::DrawBar { mon: m });
        }
    }

    /// Handles a window taking the input focus: where that is not the
    /// selected client, the focus goes back to the selected client.
    pub fn focusin(&self, win: u64, fx: &mut Vec<Effect>)
        requires
            self@.wf(),
        ensures
            final(fx)@ == match self@.mons[self@.selmon as int].sel {
                Some(s) if self@.clients[s as int].win != win =>
                    old(fx)@.push(Effect::SetFocus { win: self@.clients[s as int].win, neverfocus: self@.clients[s as int].neverfocus }),
                _ => old(fx)@,
            },
    {
        let sm = self.selmon;
        proof { assert(self@.mon_ok(sm as int)); }
        match self.mons[sm].sel {
            Some(s) => {
                proof {
                    let j = choose|j: int| 0 <= j < self@.mons[sm as int].clients.len() && self@.mons[sm as int].clients[j] == s;
                    assert(self@.client_on(self@.mons[sm as int].clients[j] as int, sm as int));
                }
                if self.clients[s].win != win {
                    fx.push(Effect::SetFocus { win: self.clients[s].win, neverfocus: self.clients[s].neverfocus });
                }
            },
            None => {},
        }
    }

    /// Handles the pointer moving on the root window: where it crosses to
    /// another monitor, that monitor becomes the selected one.
    pub fn motionnotify(&mut self, win: u64, x_root: i32, y_root: i32, fx: &mut Vec<Effect>)
        requires
            old(self)@.wf(),
        ensures
            final(self)@.wf(),
            ({
                let v = old(self)@;
                if win != v.root {
                    final(self)@ == v && final(fx)@ == old(fx)@
                } else {
                    exists|m: usize| #[trigger] crate::window::rect_monitor(v, x_root, y_root, 1, 1, m) && (m as int) < v.mons.len() && {
                        if v.motion_mon is Some && v.motion_mon != Some(m) {
                            let t = with_selmon(v, m);
                            &&& final(self)@ == WmView { motion_mon: Some(m), ..crate::focus::focus_state(t, None) }
                            &&& final(fx)@ == old(fx)@ + unfocus_sel_effects(v) + crate::focus::focus_effects(t, None)
                        } else {
                            final(self)@ == WmView { motion_mon: Some(m), ..v } && final(fx)@ == old(fx)@
                        }
                    }
                }
            }),
    {
        let ghost v = self@;
        if win != self.root {
            return;
        }
        let m = self.recttomon(x_root, y_root, 1, 1);
        let moved = match self.motion_mon {
            Some(mm) => mm != m,
            None => false,
        };
        if moved {
            self.switch_monitor(m, fx);
            self.focus(None, fx);
        }
        let ghost w = self@;
        self.motion_mon = Some(m);
        proof {
            assert(self@.names =~= w.names);
            assert(self@.mons =~= w.mons);
            assert(self@.wf()) by {
                assert forall|mm: int| 0 <= mm < self@.mons.len() implies #[trigger] self@.mon_ok(mm) by {
                    assert(w.mon_ok(mm));
                    let mon = w.mons[mm];
                    assert forall|k: int| 0 <= k < mon.clients.len() implies #[trigger] self@.client_on(mon.clients[k] as int, mm) by {
                        assert(w.client_on(mon.clients[k] as int, mm));
                    }
                    assert forall|k: int| 0 <= k < mon.stack.len() implies #[trigger] self@.client_on(mon.stack[k] as int, mm) by {
                        assert(w.client_on(mon.stack[k] as int, mm));
                    }
                }
                assert forall|id: int| 0 <= id < self@.clients.len() && (#[trigger] self@.clients[id]).alive implies
                    self@.clients[id].mon < self@.mons.len() && self@.mons[self@.clients[id].mon as int].clients.contains(id as usize)
                    && WmView::tagset_ok(self@.clients[id].tags) by {
                    assert(w.clients[id].alive);
                }
            }
        }
    }
}

/// `m` is the monitor the pointer entered: that of client `c` where the
/// window is a client's, else the monitor of the window.
pub open spec fn enter_monitor(v: WmView, win: u64, pointer: Option<(i32, i32)>, c: Option<usize>, m: usize) -> bool {
    match c {
        Some(cc) => m == v.clients[cc as int].mon,
        None => crate::window::window_monitor(v, win, pointer, m),
    }
}

/// The state after focusing `c` (or, for `None`, the first visible client).
pub open spec fn focus_state_of(v: WmView, c: Option<usize>) -> WmView {
    crate::focus::focus_state(v, c)
}

/// The requests of focusing `c`.
pub open spec fn focus_effects_of(v: WmView, c: Option<usize>) -> Seq<Effect> {
    crate::focus::focus_effects(v, c)
}


/// A change of a window property, as the window manager reads it, with the
/// values it then fetches: a window name (`wm_name` for the legacy
/// `WM_NAME`, else the EWMH name; for the root window `text` is its name,
/// where it has one, and for a client the name its title is taken from);
/// the transient-for hint (where the window has one); the normal hints; the
/// WM hints (where the window has them); the window type (whether the window
/// asks to be fullscreen, and whether it is a dialog); another property.
pub enum PropertyChange {
    Name { wm_name: bool, text: Option<Vec<u8>> },
    TransientFor { transient: Option<u64> },
    NormalHints { size: crate::hints::SizeHints },
    Hints { wm: Option<crate::hints::WmHints> },
    WindowType { fullscreen: bool, dialog: bool },
    Other,
}

impl Wm {
    /// Handles a window that was unmapped: a client that asked for it
    /// (`send_event`) is marked withdrawn, any other is no longer managed.
    pub fn unmapnotify<F: Fn(FloatQuery) -> (i32, i32)>(&mut self, win: u64, send_event: bool, fq: &F, fx: &mut Vec<Effect>)
        requires
            old(self)@.wf(),
            answers_all(fq),
        ensures
            final(self)@.wf(),
            match client_for(old(self)@, 0, win, false) {
                None => final(self)@ == old(self)@ && final(fx)@ == old(fx)@,
                Some(c) => if send_event {
                    final(self)@ == old(self)@ && final(fx)@ == old(fx)@.push(
                        Effect::SetClientState { win: old(self)@.clients[c as int].win, state: crate::lifecycle::WITHDRAWN_STATE })
                } else {
                    &&& crate::lifecycle::unmanage_post(old(self)@, c, final(self)@, fq)
                    &&& final(fx)@ == old(fx)@ + crate::engine::added(old(fx)@, final(fx)@)
                    &&& crate::lifecycle::unmanage_fx(old(self)@, c, false, final(self)@, crate::engine::added(old(fx)@, final(fx)@), fq)
                },
            },
    {
        match self.wintoclient(win) {
            None => {},
            Some(c) => {
                if send_event {
                    fx.push(Effect::SetClientState { win: self.clients[c].win, state: crate::lifecycle::WITHDRAWN_STATE });
                } else {
                    self.unmanage(c, false, fq, fx);
                }
            },
        }
    }

    /// Handles a window that was destroyed: its client is no longer managed;
    /// a terminal window that a client swallowed is forgotten by it.
    pub fn destroynotify<F: Fn(FloatQuery) -> (i32, i32)>(&mut self, win: u64, fq: &F, fx: &mut Vec<Effect>)
        requires
            old(self)@.wf(),
            answers_all(fq),
        ensures
            final(self)@.wf(),
            ({
                let v = old(self)@;
                let e = crate::engine::added(old(fx)@, final(fx)@);
                match client_for(v, 0, win, false) {
                    Some(c) => crate::lifecycle::unmanage_post(v, c, final(self)@, fq)
                        && final(fx)@ == old(fx)@ + e
                        && crate::lifecycle::unmanage_fx(v, c, true, final(self)@, e, fq),
                    None => match client_for(v, 0, win, true) {
                        Some(s) => (exists|v3: WmView| #[trigger] arranged(crate::lifecycle::forgot_swallowed(v, s),
                                v.clients[s as int].mon as int, v3, fq)
                            && final(self)@ == crate::focus::focus_state(v3, None))
                            && final(fx)@ == old(fx)@ + e
                            && crate::focus::arranged_refocused(crate::lifecycle::forgot_swallowed(v, s),
                                v.clients[s as int].mon as int, final(self)@, e, fq),
                        None => final(self)@ == v && final(fx)@ == old(fx)@,
                    },
                }
            }),
    {
        match self.wintoclient(win) {
            Some(c) => { self.unmanage(c, true, fq, fx); },
            None => {
                match self.swallowingclient(win) {
                    Some(s) => {
                        let m = self.clients[s].mon;
                        proof { assert(self@.mon_ok(0)); }
                        self.forget_swallowed(s, m, fq, fx);
                    },
                    None => {},
                }
            },
        }
    }

    /// Handles a property change of window `win`.
    #[verifier::rlimit(80)]
    pub fn propertynotify<F: Fn(FloatQuery) -> (i32, i32)>(
        &mut self, win: u64, deleted: bool, change: PropertyChange, fq: &F, fx: &mut Vec<Effect>,
    )
        requires
            old(self)@.wf(),
            answers_all(fq),
        ensures
            final(self)@.wf(),
            property_post(old(self)@, win, deleted, change, final(self)@, fq),
            final(fx)@ == old(fx)@ + crate::engine::added(old(fx)@, final(fx)@),
            property_fx(old(self)@, win, deleted, change, final(self)@, crate::engine::added(old(fx)@, final(fx)@), fq),
    {
        let ghost v = self@;
        if win == self.root {
            if let PropertyChange::Name { wm_name: true, text } = &change {
                let t: Option<&[u8]> = match text { Some(t) => Some(t.as_slice()), None => None };
                self.updatestatus(t, fx);
                proof {
                    assert(self@.wf()) by { assert(self@.mons =~= v.mons); crate::events::lemma_wf_frame_stext(v, self@); }
                    assert(crate::engine::added(old(fx)@, fx@) =~= seq![Effect::DrawBar { mon: v.selmon }]);
                    assert(fx@ =~= old(fx)@ + crate::engine::added(old(fx)@, fx@));
                }
                return;
            }
        }
        if deleted {
            proof { crate::tags::lemma_no_fx(fx@); }
            return;
        }
        let c = match self.wintoclient(win) {
            Some(c) => c,
            None => {
                proof { crate::tags::lemma_no_fx(fx@); }
                return;
            },
        };
        proof { assert(v.clients[c as int].alive); }
        match change {
            PropertyChange::TransientFor { transient } => {
                self.prop_transient(c, transient, fq, fx);
                proof {
                    assert(client_for(v, 0, win, false) == Some(c));
                    assert(!(win == v.root && is_wm_name(change)));
                    let e = crate::engine::added(old(fx)@, fx@);
                    match transient {
                        Some(t) => {
                            if !v.clients[c as int].isfloating && client_for(v, 0, t, false) is Some {
                                assert(crate::engine::arranged_fx(v.set_client(c as int, Client { isfloating: true, ..v.clients[c as int] }),
                                    v.clients[c as int].mon as int, self@, e, fq));
                            } else {
                                assert(e == Seq::<Effect>::empty());
                            }
                        },
                        None => { assert(e == Seq::<Effect>::empty()); },
                    }
                    assert(property_fx(v, win, deleted, change, self@, e, fq));
                }
            },
            PropertyChange::NormalHints { size } => {
                self.prop_size(c, size);
                proof { crate::tags::lemma_no_fx(fx@); }
            },
            PropertyChange::Hints { wm } => {
                let ghost f0 = fx@;
                self.updatewmhints(c, wm, fx);
                let ghost f1 = fx@;
                self.drawbars(fx);
                proof {
                    let e = crate::engine::added(old(fx)@, fx@);
                    let pre = match wm {
                        Some(h) => if v.mons[v.selmon as int].sel == Some(c) && h.urgent {
                            seq![Effect::SetUrgent { win: v.clients[c as int].win, urgent: false }]
                        } else {
                            Seq::empty()
                        },
                        None => Seq::empty(),
                    };
                    assert(f1 =~= old(fx)@ + pre);
                    assert(e =~= pre + crate::focus::drawbars_effects(v.mons.len()));
                    assert(fx@ =~= old(fx)@ + e);
                }
            },
            PropertyChange::Name { wm_name, text } => {
                self.prop_name(c, text, fx);
                proof {
                    let cl = v.clients[c as int];
                    let pre = if v.mons[cl.mon as int].sel == Some(c) { seq![Effect::DrawBar { mon: cl.mon }] } else { Seq::empty() };
                    assert(crate::engine::added(old(fx)@, fx@) =~= pre);
                    assert(fx@ =~= old(fx)@ + crate::engine::added(old(fx)@, fx@));
                }
            },
            PropertyChange::WindowType { fullscreen, dialog } => { self.prop_type(c, fullscreen, dialog, fq, fx); },
            PropertyChange::Other => {
                proof { crate::tags::lemma_no_fx(fx@); }
            },
        }
    }

    fn prop_transient<F: Fn(FloatQuery) -> (i32, i32)>(&mut self, c: usize, transient: Option<u64>, fq: &F, fx: &mut Vec<Effect>)
        requires
            old(self)@.wf(),
            (c as int) < old(self)@.clients.len(),
            old(self)@.clients[c as int].alive,
            answers_all(fq),
        ensures
            final(self)@.wf(),
            ({
                let v = old(self)@;
                let cl = v.clients[c as int];
                match transient {
                    Some(t) if !cl.isfloating => {
                        let fl = client_for(v, 0, t, false) is Some;
                        let v1 = v.set_client(c as int, Client { isfloating: fl, ..cl });
                        if fl { arranged(v1, cl.mon as int, final(self)@, fq) } else { final(self)@ == v1 }
                    },
                    _ => final(self)@ == v,
                }
            }),
            final(fx)@ == old(fx)@ + crate::engine::added(old(fx)@, final(fx)@),
            ({
                let v = old(self)@;
                let cl = v.clients[c as int];
                let e = crate::engine::added(old(fx)@, final(fx)@);
                match transient {
                    Some(t) if !cl.isfloating && client_for(v, 0, t, false) is Some => {
                        let v1 = v.set_client(c as int, Client { isfloating: true, ..cl });
                        crate::engine::arranged_fx(v1, cl.mon as int, final(self)@, e, fq)
                    },
                    _ => e == Seq::<Effect>::empty(),
                }
            }),
    {
        let ghost v = self@;
        proof { crate::tags::lemma_no_fx(fx@); }
        if !self.clients[c].isfloating {
            if let Some(t) = transient {
                let fl = self.wintoclient(t).is_some();
                self.clients[c].isfloating = fl;
                proof {
                    assert(self@.clients =~= v.set_client(c as int, Client { isfloating: fl, ..v.clients[c as int] }).clients);
                    assert(self@.names =~= v.names);
                    assert(self@.mons =~= v.mons);
                    lemma_wf_set_client(v, c as int, Client { isfloating: fl, ..v.clients[c as int] });
                }
                if fl {
                    let m = self.clients[c].mon;
                    self.arrange(Some(m), fq, fx);
                }
            }
        }
    }

    fn prop_size(&mut self, c: usize, size: crate::hints::SizeHints)
        requires
            old(self)@.wf(),
            (c as int) < old(self)@.clients.len(),
        ensures
            final(self)@.wf(),
            final(self)@ == old(self)@.set_client(c as int, crate::hints::sized(old(self)@.clients[c as int], size)),
    {
        let ghost v = self@;
        let mut cl = self.clients[c];
        crate::hints::updatesizehints(&mut cl, &size);
        self.clients[c] = cl;
        proof {
            assert(self@.clients =~= v.set_client(c as int, crate::hints::sized(v.clients[c as int], size)).clients);
            assert(self@.names =~= v.names);
            assert(self@.mons =~= v.mons);
            lemma_wf_set_client(v, c as int, cl);
        }
    }

    fn prop_name(&mut self, c: usize, text: Option<Vec<u8>>, fx: &mut Vec<Effect>)
        requires
            old(self)@.wf(),
            (c as int) < old(self)@.clients.len(),
            old(self)@.clients[c as int].alive,
        ensures
            final(self)@.wf(),
            final(self)@ == (WmView {
                names: old(self)@.names.update(c as int, crate::window::title_of(match text { Some(t) => t@, None => Seq::empty() })),
                ..old(self)@
            }),
            final(fx)@ == old(fx)@ + (if old(self)@.mons[old(self)@.clients[c as int].mon as int].sel == Some(c) {
                seq![Effect::DrawBar { mon: old(self)@.clients[c as int].mon }]
            } else {
                Seq::empty()
            }),
    {
        let ghost v = self@;
        let t: &[u8] = match &text { Some(t) => t.as_slice(), None => &[] };
        proof {
            assert(v.names.len() == v.clients.len());
            assert(t@ == match text { Some(tt) => tt@, None => Seq::<u8>::empty() });
        }
        self.updatetitle(c, t);
        proof {
            assert(self@.mons =~= v.mons);
            lemma_wf_frame_names(v, self@);
        }
        let m = self.clients[c].mon;
        proof { assert(self@.mon_ok(m as int)); }
        if self.mons[m].sel == Some(c) {
            fx.push(Effect::DrawBar { mon: m });
            proof { assert(fx@ =~= old(fx)@ + seq![Effect::DrawBar { mon: m }]); }
        } else {
            proof { assert(fx@ =~= old(fx)@ + Seq::<Effect>::empty()); }
        }
    }

    fn prop_type<F: Fn(FloatQuery) -> (i32, i32)>(&mut self, c: usize, fullscreen: bool, dialog: bool, fq: &F, fx: &mut Vec<Effect>)
        requires
            old(self)@.wf(),
            (c as int) < old(self)@.clients.len(),
            old(self)@.clients[c as int].alive,
            answers_all(fq),
        ensures
            final(self)@.wf(),
            exists|v3: WmView| {
                &&& #[trigger] typed_to(old(self)@, c, fullscreen, v3, fq)
                &&& final(self)@ == (if dialog { v3.set_client(c as int, Client { isfloating: true, ..v3.clients[c as int] }) } else { v3 })
            },
            final(fx)@ == old(fx)@ + crate::engine::added(old(fx)@, final(fx)@),
            if fullscreen {
                exists|v3: WmView| #[trigger] crate::hints::fullscreen_fx(old(self)@, c, true, v3, crate::engine::added(old(fx)@, final(fx)@), fq)
            } else {
                crate::engine::added(old(fx)@, final(fx)@) == Seq::<Effect>::empty()
            },
    {
        let ghost v = self@;
        proof { crate::tags::lemma_no_fx(fx@); }
        if fullscreen {
            self.setfullscreen(c, true, fq, fx);
            proof { assert(crate::hints::fullscreen_fx(v, c, true, self@, crate::engine::added(old(fx)@, fx@), fq)); }
        }
        let ghost v2 = self@;
        proof { fullscreen_keeps(v, c, fullscreen, v2, fq); }
        if dialog {
            self.clients[c].isfloating = true;
            proof {
                assert(self@.clients =~= v2.set_client(c as int, Client { isfloating: true, ..v2.clients[c as int] }).clients);
                assert(self@.names =~= v2.names);
                assert(self@.mons =~= v2.mons);
                lemma_wf_set_client(v2, c as int, Client { isfloating: true, ..v2.clients[c as int] });
            }
        }
    }
}

/// Changing a property of window `win` took `v` to `v2`: the root window's
/// name becomes the status text; for a client, a transient-for hint naming a
/// managed window makes a tiled client float (and its monitor is arranged),
/// normal hints set its size limits, WM hints its urgency and input focus
/// (and the bars are redrawn), a name its title (and the bar of its monitor
/// is redrawn where it is selected), and a window type its fullscreen state
/// and floating.
pub open spec fn property_post<F: Fn(FloatQuery) -> (i32, i32)>(
    v: WmView, win: u64, deleted: bool, change: PropertyChange, v2: WmView, fq: &F,
) -> bool {
    if win == v.root && is_wm_name(change) {
        v2 == WmView { stext: status_of(name_text(change)), ..v }
    } else if deleted {
        v2 == v
    } else {
        match client_for(v, 0, win, false) {
            None => v2 == v,
            Some(c) => {
                let cl = v.clients[c as int];
                match change {
                    PropertyChange::TransientFor { transient } => match transient {
                        Some(t) if !cl.isfloating => {
                            let fl = client_for(v, 0, t, false) is Some;
                            let v1 = v.set_client(c as int, Client { isfloating: fl, ..cl });
                            if fl { arranged(v1, cl.mon as int, v2, fq) } else { v2 == v1 }
                        },
                        _ => v2 == v,
                    },
                    PropertyChange::NormalHints { size } => v2 == v.set_client(c as int, crate::hints::sized(cl, size)),
                    PropertyChange::Hints { wm } => match wm {
                        Some(h) => v2 == crate::hints::wmhints_state(v, c, h),
                        None => v2 == v,
                    },
                    PropertyChange::Name { wm_name, text } => v2 == WmView {
                        names: v.names.update(c as int, crate::window::title_of(match text { Some(t) => t@, None => Seq::empty() })),
                        ..v
                    },
                    PropertyChange::WindowType { fullscreen, dialog } => exists|v3: WmView| {
                        &&& #[trigger] typed_to(v, c, fullscreen, v3, fq)
                        &&& v2 == (if dialog { v3.set_client(c as int, Client { isfloating: true, ..v3.clients[c as int] }) } else { v3 })
                    },
                    PropertyChange::Other => v2 == v,
                }
            },
        }
    }
}

/// The requests of handling a property change of window `win`, which took
/// `v` to `v2`: the bar of the selected monitor redrawn for a new status
/// text; for a client, the requests of arranging its monitor where a
/// transient-for hint makes it float, of clearing an urgency hint of the
/// selected client and redrawing every bar for new WM hints, of redrawing its
/// monitor's bar for a new name where it is selected, and of going into
/// fullscreen where its window type asks for it; none otherwise.
pub open spec fn property_fx<F: Fn(FloatQuery) -> (i32, i32)>(
    v: WmView, win: u64, deleted: bool, change: PropertyChange, v2: WmView, e: Seq<Effect>, fq: &F,
) -> bool {
    if win == v.root && is_wm_name(change) {
        e == seq![Effect::DrawBar { mon: v.selmon }]
    } else if deleted {
        e == Seq::<Effect>::empty()
    } else {
        match client_for(v, 0, win, false) {
            None => e == Seq::<Effect>::empty(),
            Some(c) => {
                let cl = v.clients[c as int];
                match change {
                    PropertyChange::TransientFor { transient } => match transient {
                        Some(t) if !cl.isfloating && client_for(v, 0, t, false) is Some => {
                            let v1 = v.set_client(c as int, Client { isfloating: true, ..cl });
                            crate::engine::arranged_fx(v1, cl.mon as int, v2, e, fq)
                        },
                        _ => e == Seq::<Effect>::empty(),
                    },
                    PropertyChange::Hints { wm } => e == (match wm {
                            Some(h) => if v.mons[v.selmon as int].sel == Some(c) && h.urgent {
                                seq![Effect::SetUrgent { win: cl.win, urgent: false }]
                            } else {
                                Seq::empty()
                            },
                            None => Seq::empty(),
                        }) + crate::focus::drawbars_effects(v.mons.len()),
                    PropertyChange::Name { .. } => e == (if v.mons[cl.mon as int].sel == Some(c) {
                            seq![Effect::DrawBar { mon: cl.mon }]
                        } else {
                            Seq::empty()
                        }),
                    PropertyChange::WindowType { fullscreen, .. } => if fullscreen {
                            exists|v3: WmView| #[trigger] crate::hints::fullscreen_fx(v, c, true, v3, e, fq)
                        } else {
                            e == Seq::<Effect>::empty()
                        },
                    _ => e == Seq::<Effect>::empty(),
                }
            },
        }
    }
}

/// The change is one of the legacy window name.
pub open spec fn is_wm_name(change: PropertyChange) -> bool {
    change matches PropertyChange::Name { wm_name: true, .. }
}

/// The text of a name change.
pub open spec fn name_text(change: PropertyChange) -> Option<Seq<u8>> {
    match change {
        PropertyChange::Name { text: Some(t), .. } => Some(t@),
        _ => None,
    }
}

/// The status text for a root window name `text`: its C string cut to 255
/// bytes, or "dwm-" and the version where the root window has no name.
pub open spec fn status_of(text: Option<Seq<u8>>) -> Seq<u8> {
    match text {
        Some(t) => if crate::window::before_nul(t).len() > 255 { crate::window::before_nul(t).take(255) } else { crate::window::before_nul(t) },
        None => crate::window::default_status(),
    }
}

/// Taking the window type of client `c` into account took `v` to `v2`: it
/// enters fullscreen where it asks for it.
pub open spec fn typed_to<F: Fn(FloatQuery) -> (i32, i32)>(v: WmView, c: usize, fullscreen: bool, v2: WmView, fq: &F) -> bool {
    if fullscreen { crate::hints::fullscreen_post(v, c, true, v2, fq) } else { v2 == v }
}

proof fn fullscreen_keeps<F: Fn(FloatQuery) -> (i32, i32)>(v: WmView, c: usize, fullscreen: bool, v2: WmView, fq: &F)
    requires
        v.wf(),
        (c as int) < v.clients.len(),
        v.clients[c as int].alive,
        fullscreen ==> crate::hints::fullscreen_post(v, c, true, v2, fq),
        !fullscreen ==> v2 == v,
    ensures
        typed_to(v, c, fullscreen, v2, fq),
        v2.clients.len() == v.clients.len(),
        v2.clients[c as int].alive,
        v2.clients[c as int].mon == v.clients[c as int].mon,
{
}

/// A change of the status text keeps the state well formed.
pub proof fn lemma_wf_frame_stext(a: WmView, b: WmView)
    requires
        a.wf(),
        b == (WmView { stext: b.stext, ..a }),
    ensures
        b.wf(),
{
    assert forall|mm: int| 0 <= mm < b.mons.len() implies #[trigger] b.mon_ok(mm) by {
        assert(a.mon_ok(mm));
        let mon = a.mons[mm];
        assert forall|k: int| 0 <= k < mon.clients.len() implies #[trigger] b.client_on(mon.clients[k] as int, mm) by {
            assert(a.client_on(mon.clients[k] as int, mm));
        }
        assert forall|k: int| 0 <= k < mon.stack.len() implies #[trigger] b.client_on(mon.stack[k] as int, mm) by {
            assert(a.client_on(mon.stack[k] as int, mm));
        }
    }
    assert forall|id: int| 0 <= id < b.clients.len() && (#[trigger] b.clients[id]).alive implies
        b.clients[id].mon < b.mons.len() && b.mons[b.clients[id].mon as int].clients.contains(id as usize)
        && WmView::tagset_ok(b.clients[id].tags) by {
        assert(a.clients[id].alive);
    }
}

/// A change of the titles, keeping their number, keeps the state well formed.
pub proof fn lemma_wf_frame_names(a: WmView, b: WmView)
    requires
        a.wf(),
        b == (WmView { names: b.names, ..a }),
        b.names.len() == a.names.len(),
    ensures
        b.wf(),
{
    assert forall|mm: int| 0 <= mm < b.mons.len() implies #[trigger] b.mon_ok(mm) by {
        assert(a.mon_ok(mm));
        let mon = a.mons[mm];
        assert forall|k: int| 0 <= k < mon.clients.len() implies #[trigger] b.client_on(mon.clients[k] as int, mm) by {
            assert(a.client_on(mon.clients[k] as int, mm));
        }
        assert forall|k: int| 0 <= k < mon.stack.len() implies #[trigger] b.client_on(mon.stack[k] as int, mm) by {
            assert(a.client_on(mon.stack[k] as int, mm));
        }
    }
    assert forall|id: int| 0 <= id < b.clients.len() && (#[trigger] b.clients[id]).alive implies
        b.clients[id].mon < b.mons.len() && b.mons[b.clients[id].mon as int].clients.contains(id as usize)
        && WmView::tagset_ok(b.clients[id].tags) by {
        assert(a.clients[id].alive);
    }
}


/// What the window manager learns of a window found at start: whether its
/// attributes could be read, whether it manages itself, whether it is
/// transient for another, and whether it is viewable or iconic.
#[derive(Clone, Copy, PartialEq, Eq, Structural, Debug)]
pub struct ScanInfo {
    pub attrs_ok: bool,
    pub override_redirect: bool,
    pub transient: bool,
    pub viewable: bool,
    pub iconic: bool,
}

/// Window `w` is managed in the first pass at start: a normal window, not
/// transient, that is shown or iconic.
pub open spec fn scan_first(w: ScanInfo) -> bool {
    w.attrs_ok && !w.override_redirect && !w.transient && (w.viewable || w.iconic)
}

/// Window `w` is managed in the second pass: a transient window that is shown
/// or iconic.
pub open spec fn scan_second(w: ScanInfo) -> bool {
    w.attrs_ok && w.transient && (w.viewable || w.iconic)
}

/// The positions of the windows of `ws` that `pass` picks, in order.
pub open spec fn picked(ws: Seq<ScanInfo>, second: bool) -> Seq<usize>
    decreases ws.len(),
{
    if ws.len() == 0 {
        Seq::empty()
    } else {
        let rest = picked(ws.drop_last(), second);
        let w = ws.last();
        if (if second { scan_second(w) } else { scan_first(w) }) { rest.push((ws.len() - 1) as usize) } else { rest }
    }
}

/// The order in which the windows found at start are managed: first the
/// normal ones, then the transient ones, each in the order found.
pub fn scan(ws: &[ScanInfo]) -> (r: Vec<usize>)
    ensures
        r@ == picked(ws@, false) + picked(ws@, true),
{
    let mut first: Vec<usize> = Vec::new();
    let mut second: Vec<usize> = Vec::new();
    let n = ws.len();
    let mut i: usize = 0;
    while i < n
        invariant
            n == ws@.len(),
            i <= n,
            first@ == picked(ws@.subrange(0, i as int), false),
            second@ == picked(ws@.subrange(0, i as int), true),
        decreases n - i,
    {
        proof { assert(ws@.subrange(0, i as int + 1).drop_last() =~= ws@.subrange(0, i as int)); }
        let w = ws[i];
        if w.attrs_ok && !w.override_redirect && !w.transient && (w.viewable || w.iconic) {
            first.push(i);
        }
        if w.attrs_ok && w.transient && (w.viewable || w.iconic) {
            second.push(i);
        }
        i += 1;
    }
    proof { assert(ws@.subrange(0, n as int) =~= ws@); }
    let mut r = first;
    let mut j: usize = 0;
    let ghost f = r@;
    while j < second.len()
        invariant
            j <= second@.len(),
            r@ == f + second@.subrange(0, j as int),
        decreases second@.len() - j,
    {
        r.push(second[j]);
        proof { assert(r@ =~= f + second@.subrange(0, j as int + 1)); }
        j += 1;
    }
    proof { assert(second@.subrange(0, second@.len() as int) =~= second@); }
    r
}

/// Handles a window asking to be mapped: a window whose attributes could be
/// read, that does not manage itself and is not managed yet, is managed.
pub fn maprequest<F: Fn(FloatQuery) -> (i32, i32)>(
    wm: &mut Wm, nw: &crate::manage::NewWindow, attrs_ok: bool, override_redirect: bool, fq: &F, fx: &mut Vec<Effect>,
)
    requires
        old(wm)@.wf(),
        old(wm)@.clients.len() < usize::MAX,
        forall|m: int| 0 <= m < old(wm)@.mons.len() ==> #[trigger] old(wm)@.mons[m].clients.len() + 1 < crate::model::MAX_CLIENTS,
        answers_all(fq),
    ensures
        final(wm)@.wf(),
        if !attrs_ok || override_redirect || client_for(old(wm)@, 0, nw.win, false) is Some {
            final(wm)@ == old(wm)@ && final(fx)@ == old(fx)@
        } else {
            &&& crate::manage::managed(old(wm)@, *nw, final(wm)@, fq)
            &&& final(fx)@ == old(fx)@ + crate::engine::added(old(fx)@, final(fx)@)
            &&& crate::manage::managed_fx(old(wm)@, *nw, final(wm)@, crate::engine::added(old(fx)@, final(fx)@), fq)
        },
{
    if !attrs_ok || override_redirect {
        return;
    }
    if wm.wintoclient(nw.win).is_none() {
        crate::manage::manage(wm, nw, fq, fx);
    }
}

} // verus!
