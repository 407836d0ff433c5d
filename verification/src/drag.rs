use vstd::prelude::*;
use crate::commands::{togglefloating, togglefloating_fx, togglefloating_post};
use crate::config::SNAP;
use crate::engine::{Effect, FloatQuery, added, answers_all, aspect_answer, has_arrange, i32w, max_i, resize_done, resize_fx, width_of, height_of, wrap};
use crate::focus::{focus_effects, focus_state, unfocus_effects};
use crate::model::{MonitorView, Wm, WmView, MAX_CLIENTS};
use crate::window::rect_monitor;

verus! {

/// The absolute value of a C `int`, wrapping for the smallest one.
pub open spec fn abs_w(a: i32) -> i32 {
    if a == i32::MIN { a } else if a < 0 { (-a) as i32 } else { a }
}

fn abs_wrapping(a: i32) -> (r: i32)
    ensures
        r == abs_w(a),
{
    if a == i32::MIN { a } else if a < 0 { -a } else { a }
}

/// A pointer event that comes too soon after the last one handled (within
/// a sixtieth of a second) is skipped.
pub open spec fn spec_motion_due(time: u64, last: u64) -> bool {
    (if time >= last { time - last } else { 0 }) > 16
}

/// Whether a pointer event at `time` is handled, the last handled one being
/// at `last`.
pub fn motion_due(time: u64, last: u64) -> (r: bool)
    ensures
        r == spec_motion_due(time, last),
{
    time.saturating_sub(last) > 16
}

/// Where a dragged window goes along one axis: its start `o` moved by the
/// pointer's travel from `p0` to `p`, snapped to the edge `lo` of the window
/// area or to its far edge `lo + len` (for a window `size` long) where
/// within the snap distance.
pub open spec fn snapped(o: i32, p0: i32, p: i32, lo: i32, len: i32, size: i32) -> i32 {
    let n = i32w(o + i32w(p - p0));
    if abs_w(i32w(lo - n)) < SNAP as i32 {
        lo
    } else if abs_w(i32w(i32w(lo + len) - i32w(n + size))) < SNAP as i32 {
        i32w(lo + len - size)
    } else {
        n
    }
}

fn snap_axis(o: i32, p0: i32, p: i32, lo: i32, len: i32, size: i32) -> (r: i32)
    ensures
        r == snapped(o, p0, p, lo, len, size),
{
    let n = wrap(o as i64 + wrap(p as i64 - p0 as i64) as i64);
    if abs_wrapping(wrap(lo as i64 - n as i64)) < SNAP as i32 {
        lo
    } else if abs_wrapping(wrap(wrap(lo as i64 + len as i64) as i64 - wrap(n as i64 + size as i64) as i64)) < SNAP as i32 {
        wrap(lo as i64 + len as i64 - size as i64)
    } else {
        n
    }
}

/// The selected client of the selected monitor, where it may be dragged (it
/// is not fullscreen).
pub open spec fn drag_client(v: WmView) -> Option<usize> {
    match v.mons[v.selmon as int].sel {
        Some(c) if !v.clients[c as int].isfullscreen => Some(c),
        _ => None,
    }
}

/// A dragged client that is tiled under a layout starts floating once it is
/// pulled more than the snap distance away.
pub open spec fn drag_unties(v: WmView, c: usize, moved: bool) -> bool {
    !v.clients[c as int].isfloating && has_arrange(v, v.selmon as int) && moved
}

/// A dragged client follows the pointer where it floats or no layout
/// arranges the selected monitor.
pub open spec fn drag_follows(v: WmView, c: usize) -> bool {
    !has_arrange(v, v.selmon as int) || v.clients[c as int].isfloating
}

/// The resize of a drag step took `v1` to `v2` with the requests `e`.
pub open spec fn drag_resized<F: Fn(FloatQuery) -> (i32, i32)>(
    v1: WmView, c: usize, x: i32, y: i32, w: i32, h: i32, v2: WmView, e: Seq<Effect>, fq: &F,
) -> bool {
    if drag_follows(v1, c) {
        exists|a: (i32, i32)| #[trigger] aspect_answer(v1, v1.clients[c as int], x, y, w, h, true, fq, a)
            && v2 == resize_done(v1, c as int, x, y, w, h, true, a)
            && e == resize_fx(v1, c as int, x, y, w, h, true, a)
    } else {
        v2 == v1 && e == Seq::<Effect>::empty()
    }
}

/// The first part of a drag step took `v` to `v1` with the requests `e1`:
/// the client starts floating where `unties`, else nothing happens.
pub open spec fn drag_untied<F: Fn(FloatQuery) -> (i32, i32)>(
    v: WmView, unties: bool, v1: WmView, e1: Seq<Effect>, fq: &F,
) -> bool {
    if unties {
        togglefloating_post(v, v1, fq) && togglefloating_fx(v, v1, e1, fq)
    } else {
        v1 == v && e1 == Seq::<Effect>::empty()
    }
}

/// Where a moved client goes when the pointer went from `(x0, y0)` to
/// `(px, py)`, it having started at `(ocx, ocy)`.
pub open spec fn move_target(v: WmView, c: usize, ocx: i32, ocy: i32, x0: i32, y0: i32, px: i32, py: i32) -> (i32, i32) {
    let m = v.mons[v.selmon as int];
    let cl = v.clients[c as int];
    (snapped(ocx, x0, px, m.wx, m.ww, width_of(cl)), snapped(ocy, y0, py, m.wy, m.wh, height_of(cl)))
}

/// The size a resized client takes when the pointer is at `(px, py)`, it
/// having started at `(ocx, ocy)`: up to the pointer, at least 1.
pub open spec fn resize_target(v: WmView, c: usize, ocx: i32, ocy: i32, px: i32, py: i32) -> (i32, i32) {
    let cl = v.clients[c as int];
    (max_i(i32w(px - ocx - 2 * cl.bw + 1), 1), max_i(i32w(py - ocy - 2 * cl.bw + 1), 1))
}

/// A resized client's new size stays within the selected monitor's window
/// area, measured from its own monitor's window area.
pub open spec fn resize_inside(v: WmView, c: usize, nw: i32, nh: i32) -> bool {
    let s = v.mons[v.selmon as int];
    let m = v.mons[v.clients[c as int].mon as int];
    &&& i32w(m.wx + nw) >= s.wx
    &&& i32w(m.wx + nw) <= i32w(s.wx + s.ww)
    &&& i32w(m.wy + nh) >= s.wy
    &&& i32w(m.wy + nh) <= i32w(s.wy + s.wh)
}

impl Wm {
    /// Asks the selected client, if any, to close its window.
    pub fn killclient(&self, fx: &mut Vec<Effect>)
        requires
            self@.wf(),
        ensures
            final(fx)@ == match self@.mons[self@.selmon as int].sel {
                Some(s) => old(fx)@.push(Effect::Close { win: self@.clients[s as int].win }),
                None => old(fx)@,
            },
    {
        let sm = self.selmon;
        proof { assert(self@.mon_ok(sm as int)); }
        match self.mons[sm].sel {
            Some(s) => {
                proof {
                    let j = choose|j: int| 0 <= j < self@.mons[sm as int].clients.len() && self@.mons[sm as int].clients[j] == s;
                    assert(self@.client_on(self@.mons[sm as int].clients[j] as int, sm as int));
                }
                fx.push(Effect::Close { win: self.clients[s].win });
            },
            None => {},
        }
    }

    /// Starts dragging the selected client, where it is not fullscreen: its
    /// monitor is restacked; answers the client and where it started.
    pub fn drag_start(&self, fx: &mut Vec<Effect>) -> (r: Option<(usize, i32, i32)>)
        requires
            self@.wf(),
        ensures
            match drag_client(self@) {
                Some(c) => r == Some((c, self@.clients[c as int].x, self@.clients[c as int].y))
                    && final(fx)@ == old(fx)@ + crate::engine::restack_effects(self@, self@.selmon as int),
                None => r is None && final(fx)@ == old(fx)@,
            },
            r matches Some(t) ==> (t.0 as int) < self@.clients.len() && self@.clients[t.0 as int].alive,
    {
        let sm = self.selmon;
        proof { assert(self@.mon_ok(sm as int)); }
        let c = match self.mons[sm].sel {
            Some(c) => c,
            None => { return None; },
        };
        proof {
            let j = choose|j: int| 0 <= j < self@.mons[sm as int].clients.len() && self@.mons[sm as int].clients[j] == c;
            assert(self@.client_on(self@.mons[sm as int].clients[j] as int, sm as int));
        }
        if self.clients[c].isfullscreen {
            return None;
        }
        self.restack(sm, fx);
        Some((c, self.clients[c].x, self.clients[c].y))
    }

    /// One step of moving client `c` with the pointer, which went from
    /// `(x0, y0)` to `(px, py)`; the client started at `(ocx, ocy)`.
    pub fn movemouse_motion<F: Fn(FloatQuery) -> (i32, i32)>(
        &mut self, c: usize, ocx: i32, ocy: i32, x0: i32, y0: i32, px: i32, py: i32, fq: &F, fx: &mut Vec<Effect>,
    )
        requires
            old(self)@.wf(),
            (c as int) < old(self)@.clients.len(),
            old(self)@.clients[c as int].alive,
            answers_all(fq),
        ensures
            final(self)@.wf(),
            final(self)@.clients[c as int].alive,
            ({
                let v = old(self)@;
                let t = move_target(v, c, ocx, ocy, x0, y0, px, py);
                let cl = v.clients[c as int];
                let moved = abs_w(i32w(t.0 - cl.x)) > SNAP as i32 || abs_w(i32w(t.1 - cl.y)) > SNAP as i32;
                drag_step_keep_size(v, c, drag_unties(v, c, moved), t.0, t.1, final(self)@, added(old(fx)@, final(fx)@), fq)
            }),
            final(fx)@ == old(fx)@ + added(old(fx)@, final(fx)@),
    {
        let ghost v = self@;
        let sm = self.selmon;
        proof { assert(v.mon_ok(sm as int)); }
        let cl = self.clients[c];
        let wd = wrap(cl.w as i64 + 2 * cl.bw as i64);
        let ht = wrap(cl.h as i64 + 2 * cl.bw as i64);
        let nx = snap_axis(ocx, x0, px, self.mons[sm].wx, self.mons[sm].ww, wd);
        let ny = snap_axis(ocy, y0, py, self.mons[sm].wy, self.mons[sm].wh, ht);
        let moved = abs_wrapping(wrap(nx as i64 - cl.x as i64)) > SNAP as i32
            || abs_wrapping(wrap(ny as i64 - cl.y as i64)) > SNAP as i32;
        let unties = !cl.isfloating && self.layout_has_arrange(sm) && moved;
        self.drag_apply(c, unties, nx, ny, None, fq, fx);
    }

    /// One step of resizing client `c` with the pointer at `(px, py)`; the
    /// client started at `(ocx, ocy)`.
    pub fn resizemouse_motion<F: Fn(FloatQuery) -> (i32, i32)>(
        &mut self, c: usize, ocx: i32, ocy: i32, px: i32, py: i32, fq: &F, fx: &mut Vec<Effect>,
    )
        requires
            old(self)@.wf(),
            (c as int) < old(self)@.clients.len(),
            old(self)@.clients[c as int].alive,
            answers_all(fq),
        ensures
            final(self)@.wf(),
            final(self)@.clients[c as int].alive,
            ({
                let v = old(self)@;
                let t = resize_target(v, c, ocx, ocy, px, py);
                let cl = v.clients[c as int];
                let moved = abs_w(i32w(t.0 - cl.w)) > SNAP as i32 || abs_w(i32w(t.1 - cl.h)) > SNAP as i32;
                drag_step_sized(v, c, resize_inside(v, c, t.0, t.1) && drag_unties(v, c, moved), t.0, t.1, final(self)@, added(old(fx)@, final(fx)@), fq)
            }),
            final(fx)@ == old(fx)@ + added(old(fx)@, final(fx)@),
    {
        let ghost v = self@;
        let sm = self.selmon;
        proof { assert(v.mon_ok(sm as int)); }
        let cl = self.clients[c];
        proof { assert(v.mon_ok(cl.mon as int)); }
        let nw = crate::util::max_i32(wrap(px as i64 - ocx as i64 - 2 * cl.bw as i64 + 1), 1);
        let nh = crate::util::max_i32(wrap(py as i64 - ocy as i64 - 2 * cl.bw as i64 + 1), 1);
        let m = &self.mons[cl.mon];
        let s = &self.mons[sm];
        let inside = wrap(m.wx as i64 + nw as i64) >= s.wx
            && wrap(m.wx as i64 + nw as i64) <= wrap(s.wx as i64 + s.ww as i64)
            && wrap(m.wy as i64 + nh as i64) >= s.wy
            && wrap(m.wy as i64 + nh as i64) <= wrap(s.wy as i64 + s.wh as i64);
        let moved = abs_wrapping(wrap(nw as i64 - cl.w as i64)) > SNAP as i32
            || abs_wrapping(wrap(nh as i64 - cl.h as i64)) > SNAP as i32;
        let unties = inside && !cl.isfloating && self.layout_has_arrange(sm) && moved;
        self.drag_apply(c, unties, 0, 0, Some((nw, nh)), fq, fx);
    }

    /// Lets the client start floating where `unties`, then, where it follows
    /// the pointer, resizes it: to position `(x, y)` at its size for a move,
    /// or at its position to `size` for a resize.
    fn drag_apply<F: Fn(FloatQuery) -> (i32, i32)>(
        &mut self, c: usize, unties: bool, x: i32, y: i32, size: Option<(i32, i32)>, fq: &F, fx: &mut Vec<Effect>,
    )
        requires
            old(self)@.wf(),
            (c as int) < old(self)@.clients.len(),
            old(self)@.clients[c as int].alive,
            answers_all(fq),
        ensures
            final(self)@.wf(),
            final(self)@.clients[c as int].alive,
            size is None ==> drag_step_keep_size(old(self)@, c, unties, x, y, final(self)@, added(old(fx)@, final(fx)@), fq),
            size matches Some(s) ==> drag_step_sized(old(self)@, c, unties, s.0, s.1, final(self)@, added(old(fx)@, final(fx)@), fq),
            final(fx)@ == old(fx)@ + added(old(fx)@, final(fx)@),
    {
        let ghost v = self@;
        let ghost fx0 = fx@;
        if unties {
            togglefloating(self, fq, fx);
        }
        let ghost v1 = self@;
        let ghost fx1 = fx@;
        let ghost e1 = added(fx0, fx1);
        proof {
            if !unties {
                assert(e1 =~= Seq::<Effect>::empty());
            }
            assert(drag_untied(v, unties, v1, e1, fq));
            lemma_togglefloating_keeps(v, v1, e1, c, unties, fq);
        }
        let sm = self.selmon;
        proof { assert(v1.mon_ok(sm as int)); }
        if !self.layout_has_arrange(sm) || self.clients[c].isfloating {
            let cl = self.clients[c];
            let (rx, ry, rw, rh) = match size {
                Some((w, h)) => (cl.x, cl.y, w, h),
                None => (x, y, cl.w, cl.h),
            };
            self.resize(c, rx, ry, rw, rh, true, fq, fx);
            proof {
                let a = choose|a: (i32, i32)| #[trigger] aspect_answer(v1, v1.clients[c as int], rx, ry, rw, rh, true, fq, a)
                    && self@ == resize_done(v1, c as int, rx, ry, rw, rh, true, a)
                    && fx@ == fx1 + resize_fx(v1, c as int, rx, ry, rw, rh, true, a);
                let e2 = resize_fx(v1, c as int, rx, ry, rw, rh, true, a);
                crate::engine::lemma_resize_frame(v1, v1, c as int, rx, ry, rw, rh, true, a);
                assert(drag_resized(v1, c, rx, ry, rw, rh, self@, e2, fq));
                assert(added(fx0, fx@) =~= e1 + e2);
                assert(fx@ =~= fx0 + added(fx0, fx@));
            }
        } else {
            proof {
                let e2 = Seq::<Effect>::empty();
                assert(added(fx0, fx@) =~= e1 + e2);
                match size {
                    Some(sz) => { assert(drag_resized(v1, c, v1.clients[c as int].x, v1.clients[c as int].y, sz.0, sz.1, self@, e2, fq)); },
                    None => { assert(drag_resized(v1, c, x, y, v1.clients[c as int].w, v1.clients[c as int].h, self@, e2, fq)); },
                }
            }
        }
    }

    /// Ends a drag of client `c`: where the client now lies mostly on another
    /// monitor, it is sent there, that monitor is selected and focused.
    pub fn drag_end<F: Fn(FloatQuery) -> (i32, i32)>(&mut self, c: usize, fq: &F, fx: &mut Vec<Effect>)
        requires
            old(self)@.wf(),
            (c as int) < old(self)@.clients.len(),
            old(self)@.clients[c as int].alive,
            forall|m: int| 0 <= m < old(self)@.mons.len() ==> #[trigger] old(self)@.mons[m].clients.len() + 1 < MAX_CLIENTS,
            answers_all(fq),
        ensures
            final(self)@.wf(),
            ({
                let v = old(self)@;
                let cl = v.clients[c as int];
                exists|m: usize| #[trigger] rect_monitor(v, cl.x, cl.y, cl.w, cl.h, m) && (m as int) < v.mons.len() && {
                    if m != v.selmon && cl.mon == m {
                        &&& final(self)@ == focus_state(crate::events::with_selmon(v, m), None)
                        &&& final(fx)@ == old(fx)@ + focus_effects(crate::events::with_selmon(v, m), None)
                    } else if m != v.selmon {
                        let t = crate::transfer::sent_state(v, c, m);
                        let pre = unfocus_effects(v, c, true) + focus_effects(t, None);
                        exists|v2: WmView, e2: Seq<Effect>| {
                            &&& crate::transfer::sendmon_post(v, c, m, v2, fq)
                            &&& #[trigger] crate::engine::arranged_all_fx(focus_state(t, None), v2, e2, fq)
                            &&& final(self)@ == focus_state(crate::events::with_selmon(v2, m), None)
                            &&& final(fx)@ == old(fx)@ + pre + e2 + focus_effects(crate::events::with_selmon(v2, m), None)
                        }
                    } else {
                        final(self)@ == v && final(fx)@ == old(fx)@
                    }
                }
            }),
    {
        let ghost v = self@;
        let cl = self.clients[c];
        let m = self.recttomon(cl.x, cl.y, cl.w, cl.h);
        let ghost fx0 = fx@;
        if m != self.selmon {
            crate::transfer::sendmon(self, c, m, fq, fx);
            let ghost v2 = self@;
            proof { assert(crate::transfer::sendmon_post(v, c, m, v2, fq)); crate::events::lemma_wf_selmon(v2, m); }
            let ghost fx1 = fx@;
            self.selmon = m;
            proof {
                assert(self@.names =~= v2.names);
                assert(self@.mons =~= v2.mons);
            }
            self.focus(None, fx);
            proof {
                if cl.mon == m {
                    assert(v2 == v);
                    assert(fx1 == fx0);
                } else {
                    let t = crate::transfer::sent_state(v, c, m);
                    let pre = unfocus_effects(v, c, true) + focus_effects(t, None);
                    let e2 = added(fx0 + pre, fx1);
                    assert(crate::engine::arranged_all_fx(focus_state(t, None), v2, e2, fq));
                    assert(fx@ =~= fx0 + pre + e2 + focus_effects(crate::events::with_selmon(v2, m), None));
                }
            }
        }
    }
}

/// A drag step that moves the client to `(x, y)` at its size, taking `v`
/// to `v2` with the requests `e`.
pub open spec fn drag_step_keep_size<F: Fn(FloatQuery) -> (i32, i32)>(
    v: WmView, c: usize, unties: bool, x: i32, y: i32, v2: WmView, e: Seq<Effect>, fq: &F,
) -> bool {
    exists|v1: WmView, e1: Seq<Effect>, e2: Seq<Effect>|
        #![trigger drag_untied(v, unties, v1, e1, fq), drag_resized(v1, c, x, y, v1.clients[c as int].w, v1.clients[c as int].h, v2, e2, fq)]
    {
        &&& drag_untied(v, unties, v1, e1, fq)
        &&& drag_resized(v1, c, x, y, v1.clients[c as int].w, v1.clients[c as int].h, v2, e2, fq)
        &&& e == e1 + e2
    }
}

/// A drag step that resizes the client to `(w, h)` where it is, taking `v`
/// to `v2` with the requests `e`.
pub open spec fn drag_step_sized<F: Fn(FloatQuery) -> (i32, i32)>(
    v: WmView, c: usize, unties: bool, w: i32, h: i32, v2: WmView, e: Seq<Effect>, fq: &F,
) -> bool {
    exists|v1: WmView, e1: Seq<Effect>, e2: Seq<Effect>|
        #![trigger drag_untied(v, unties, v1, e1, fq), drag_resized(v1, c, v1.clients[c as int].x, v1.clients[c as int].y, w, h, v2, e2, fq)]
    {
        &&& drag_untied(v, unties, v1, e1, fq)
        &&& drag_resized(v1, c, v1.clients[c as int].x, v1.clients[c as int].y, w, h, v2, e2, fq)
        &&& e == e1 + e2
    }
}

proof fn lemma_togglefloating_keeps<F: Fn(FloatQuery) -> (i32, i32)>(v: WmView, v1: WmView, e1: Seq<Effect>, c: usize, unties: bool, fq: &F)
    requires
        v.wf(),
        (c as int) < v.clients.len(),
        v.clients[c as int].alive,
        drag_untied(v, unties, v1, e1, fq),
    ensures
        v1.clients.len() == v.clients.len(),
        v1.clients[c as int].alive,
{
    if unties && crate::commands::togglefloating_acts(v) {
        let t = crate::commands::togglefloating_state(v);
        let s = v.mons[v.selmon as int].sel.unwrap();
        assert(v.mon_ok(v.selmon as int));
        let j = choose|j: int| 0 <= j < v.mons[v.selmon as int].clients.len() && v.mons[v.selmon as int].clients[j] == s;
        assert(v.client_on(v.mons[v.selmon as int].clients[j] as int, v.selmon as int));
        let cl = t.clients[s as int];
        assert(t.clients.len() == v.clients.len());
        assert(t.clients[c as int].alive);
        if cl.isfloating {
            let a = choose|a: (i32, i32)| #[trigger] aspect_answer(t, cl, cl.x, cl.y, cl.w, cl.h, false, fq, a)
                && crate::engine::arranged(resize_done(t, s as int, cl.x, cl.y, cl.w, cl.h, false, a), v.selmon as int, v1, fq);
            let r = resize_done(t, s as int, cl.x, cl.y, cl.w, cl.h, false, a);
            assert(r.clients.len() == t.clients.len());
            assert(r.clients[c as int].alive);
            assert(crate::engine::same_keys(v1.clients[c as int], r.clients[c as int]));
        } else {
            assert(crate::engine::same_keys(v1.clients[c as int], t.clients[c as int]));
        }
    }
}

} // verus!
