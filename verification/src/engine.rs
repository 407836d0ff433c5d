use vstd::prelude::*;
use crate::config::{Layout, Arrange, RESIZEHINTS, resizehints, spec_layout_arrange, spec_layout_symbol};
use crate::model::{Client, Ratio, Monitor, MonitorView, Wm, WmView, MAX_CLIENTS, pick};

verus! {

/// An X request that the window manager's decisions call for, with the values
/// it carries. The caller performs them in order.
#[derive(Clone, Copy, PartialEq, Eq, Structural, Debug)]
pub enum Effect {
    /// Move and resize a window, and set its border width.
    Configure { win: u64, x: i32, y: i32, w: i32, h: i32, bw: i32 },
    /// Tell a client its geometry with a synthetic ConfigureNotify event.
    NotifyConfigure { win: u64, x: i32, y: i32, w: i32, h: i32, bw: i32 },
    /// Set only the border width of a window.
    ConfigureBorder { win: u64, bw: i32 },
    /// Stack a window right below a sibling.
    StackBelow { win: u64, sibling: u64 },
    MoveResize { win: u64, x: i32, y: i32, w: i32, h: i32 },
    Move { win: u64, x: i32, y: i32 },
    Raise { win: u64 },
    MapWindow { win: u64 },
    UnmapWindow { win: u64 },
    /// Paint the border of a window in the selected or the normal colour.
    SetBorder { win: u64, selected: bool },
    /// Grab the mouse buttons on a window, for a focused or unfocused client.
    GrabButtons { win: u64, focused: bool },
    /// Give input focus to a client (unless it never takes it) and offer it
    /// WM_TAKE_FOCUS.
    SetFocus { win: u64, neverfocus: bool },
    /// Give input focus to the root window and clear the active window.
    FocusRoot,
    /// Set or clear the urgency hint of a window.
    SetUrgent { win: u64, urgent: bool },
    /// Set the WM_STATE of a window.
    SetClientState { win: u64, state: i64 },
    /// Set or clear the fullscreen state property of a window.
    SetFullscreenProp { win: u64, fullscreen: bool },
    /// Read the title of a client's window again.
    UpdateTitle { client: usize },
    /// Rewrite the client list property of the root window.
    UpdateClientList,
    /// Append a window to the client list property of the root window.
    AppendClientList { win: u64 },
    /// Give a window that is no longer managed back: restore its border width,
    /// release its buttons and mark it withdrawn, with the server grabbed and
    /// errors ignored.
    Release { win: u64, bw: i32 },
    /// Ask for the events the window manager follows on a client window.
    SelectInput { win: u64 },
    /// Configure an unmanaged window as it asked.
    ConfigureRaw { request: crate::events::ConfigRequest },
    /// Destroy the bar window of a monitor that is gone.
    DestroyBar { win: u64 },
    /// Let the pointer event that was caught go on to the client.
    ReplayPointer,
    /// Resize the drawing surface of the bars to the screen width.
    ResizeDrawable { w: i32, h: i32 },
    /// Create the bar windows of monitors that have none yet.
    UpdateBars,
    /// Move and resize the bar window of a monitor.
    MoveBar { mon: usize, x: i32, y: i32, w: i32, h: i32 },
    /// Ask a client to close its window, or, where it does not take part in
    /// that protocol, kill it.
    Close { win: u64 },
    /// Redraw the bar of a monitor.
    DrawBar { mon: usize },
    /// Flush the request queue and wait for the server.
    Sync,
    /// Discard pending EnterNotify events.
    DrainEnterEvents,
}

/// A question whose answer needs floating point arithmetic, which the caller
/// answers.
#[derive(Clone, Copy, PartialEq, Eq, Structural, Debug)]
pub enum FloatQuery {
    /// Width and height of a window after its aspect ratio limits are applied.
    Aspect { w: i32, h: i32, mina: Ratio, maxa: Ratio },
    /// Width of the master area of monitor `mon` out of `avail` pixels.
    MasterWidth { mon: usize, avail: i32 },
}

/// The caller answers every float query.
pub open spec fn answers_all<F: Fn(FloatQuery) -> (i32, i32)>(fq: &F) -> bool {
    forall|q: FloatQuery| #[trigger] call_requires(*fq, (q,))
}

/// The value a C `int` holds after being assigned `v`.
pub open spec fn i32w(v: int) -> i32 {
    v as i32
}

pub fn wrap(v: i64) -> (r: i32)
    ensures
        r == i32w(v as int),
{
    #[verifier::truncate]
    (v as i32)
}

/// Division truncating towards zero, as C and Rust divide integers.
pub open spec fn tdiv(x: int, d: int) -> int {
    if x == 0 {
        0
    } else if x > 0 && d > 0 {
        x / d
    } else if x < 0 && d < 0 {
        (x * -1) / (d * -1)
    } else if x < 0 {
        ((x * -1) / d) * -1
    } else {
        (x / (d * -1)) * -1
    }
}

/// Remainder of the division truncating towards zero.
pub open spec fn trem(x: int, d: int) -> int {
    if x == 0 {
        0
    } else if x > 0 && d > 0 {
        x % d
    } else if x < 0 && d < 0 {
        ((x * -1) % (d * -1)) * -1
    } else if x < 0 {
        ((x * -1) % d) * -1
    } else {
        x % (d * -1)
    }
}

/// Taking off the remainder of a truncating division leaves a multiple of
/// the divisor, no farther from zero than the number itself.
pub proof fn lemma_trunc_multiple(x: int, d: int)
    requires
        d != 0,
    ensures
        x - trem(x, d) == tdiv(x, d) * d,
        x >= 0 ==> 0 <= x - trem(x, d) <= x,
        x < 0 ==> x <= x - trem(x, d) <= 0,
{
    if x > 0 && d > 0 {
        assert(x - x % d == (x / d) * d && 0 <= x - x % d <= x) by (nonlinear_arith) requires x > 0, d > 0;
    } else if x < 0 && d < 0 {
        let xx = x * -1;
        let dd = d * -1;
        assert(xx - xx % dd == (xx / dd) * dd && 0 <= xx - xx % dd <= xx) by (nonlinear_arith) requires xx > 0, dd > 0;
        assert((xx / dd) * d == ((xx / dd) * dd) * -1) by (nonlinear_arith) requires dd == d * -1;
    } else if x < 0 {
        let xx = x * -1;
        assert(xx - xx % d == (xx / d) * d && 0 <= xx - xx % d <= xx) by (nonlinear_arith) requires xx > 0, d > 0;
        assert(((xx / d) * -1) * d == ((xx / d) * d) * -1) by (nonlinear_arith);
    } else if x > 0 {
        let dd = d * -1;
        assert(x - x % dd == (x / dd) * dd && 0 <= x - x % dd <= x) by (nonlinear_arith) requires x > 0, dd > 0;
        assert(((x / dd) * -1) * d == (x / dd) * dd) by (nonlinear_arith) requires dd == d * -1;
    }
}

pub fn div_trunc(x: i64, d: i64) -> (r: i64)
    requires
        d != 0,
        -0x1_0000_0000 < x < 0x1_0000_0000,
        -0x1_0000_0000 < d < 0x1_0000_0000,
    ensures
        r == tdiv(x as int, d as int),
        d > 0 ==> -0x1_0000_0000 < r < 0x1_0000_0000,
{
    let q = x.checked_div(d);
    proof {
        if d > 0 {
            if x > 0 {
                assert(x as int / d as int <= x) by (nonlinear_arith) requires x > 0, d > 0;
                assert(x as int / d as int >= 0) by (nonlinear_arith) requires x > 0, d > 0;
            } else if x < 0 {
                assert((x * -1) as int / d as int <= x * -1) by (nonlinear_arith) requires x < 0, d > 0;
                assert((x * -1) as int / d as int >= 0) by (nonlinear_arith) requires x < 0, d > 0;
            }
        } else {
            if x > 0 {
                assert(x as int / (d * -1) as int <= x) by (nonlinear_arith) requires x > 0, d < 0;
                assert(x as int / (d * -1) as int >= 0) by (nonlinear_arith) requires x > 0, d < 0;
            } else if x < 0 {
                assert((x * -1) as int / (d * -1) as int <= x * -1) by (nonlinear_arith) requires x < 0, d < 0;
                assert((x * -1) as int / (d * -1) as int >= 0) by (nonlinear_arith) requires x < 0, d < 0;
            }
        }
    }
    q.unwrap()
}

pub fn rem_trunc(x: i64, d: i64) -> (r: i64)
    requires
        d != 0,
        -0x1_0000_0000 < x < 0x1_0000_0000,
        -0x1_0000_0000 < d < 0x1_0000_0000,
    ensures
        r == trem(x as int, d as int),
        -0x1_0000_0000 < r < 0x1_0000_0000,
{
    let q = x.checked_rem(d);
    proof {
        if x > 0 && d > 0 {
            assert(x as int % d as int <= x) by (nonlinear_arith) requires x > 0, d > 0;
        } else if x < 0 && d < 0 {
            assert((x * -1) as int % (d * -1) as int <= x * -1) by (nonlinear_arith) requires x < 0, d < 0;
        } else if x < 0 {
            assert((x * -1) as int % d as int <= x * -1) by (nonlinear_arith) requires x < 0, d > 0;
        } else if x > 0 {
            assert(x as int % (d * -1) as int <= x) by (nonlinear_arith) requires x > 0, d < 0;
        }
    }
    q.unwrap()
}


/// Monitor `m`'s selected layout arranges its windows.
pub open spec fn has_arrange(v: WmView, m: int) -> bool {
    spec_layout_arrange(pick(v.mons[m].lt, v.mons[m].sellt as int)) is Some
}

/// Width of a client with its border, as a C `int`.
pub open spec fn width_of(c: Client) -> i32 {
    i32w(c.w + 2 * c.bw)
}

/// Height of a client with its border, as a C `int`.
pub open spec fn height_of(c: Client) -> i32 {
    i32w(c.h + 2 * c.bw)
}

pub open spec fn max_i(a: i32, b: i32) -> i32 {
    if a >= b { a } else { b }
}

pub open spec fn min_i(a: i32, b: i32) -> i32 {
    if a <= b { a } else { b }
}

/// A requested geometry kept on the screen (interactive moves) or on the
/// client's monitor, with sizes of at least 1 and of at least the bar height.
pub open spec fn sh_clamped(v: WmView, c: Client, x: i32, y: i32, w: i32, h: i32, interact: bool) -> (i32, i32, i32, i32) {
    let w1 = max_i(1, w);
    let h1 = max_i(1, h);
    let xy: (i32, i32) = if interact {
        let xa = if x > v.sw { i32w(v.sw - width_of(c)) } else { x };
        let ya = if y > v.sh { i32w(v.sh - height_of(c)) } else { y };
        let xb = if xa + w1 + 2 * c.bw < 0 { 0i32 } else { xa };
        let yb = if ya + h1 + 2 * c.bw < 0 { 0i32 } else { ya };
        (xb, yb)
    } else {
        let m = v.mons[c.mon as int];
        let xa = if x >= m.wx + m.ww { i32w(m.wx + m.ww - width_of(c)) } else { x };
        let ya = if y >= m.wy + m.wh { i32w(m.wy + m.wh - height_of(c)) } else { y };
        let xb = if xa + w1 + 2 * c.bw <= m.wx { m.wx } else { xa };
        let yb = if ya + h1 + 2 * c.bw <= m.wy { m.wy } else { ya };
        (xb, yb)
    };
    let h2 = if h1 < v.bh { v.bh } else { h1 };
    let w2 = if w1 < v.bh { v.bh } else { w1 };
    (xy.0, xy.1, w2, h2)
}

/// The base size is the minimum size.
pub open spec fn baseismin(c: Client) -> bool {
    c.basew == c.minw && c.baseh == c.minh
}

/// Size hints are applied: always where the configuration asks for it, and
/// for floating windows or where no layout arranges the monitor.
pub open spec fn applies_hints(v: WmView, c: Client) -> bool {
    RESIZEHINTS != 0 || c.isfloating || !has_arrange(v, c.mon as int)
}

/// The ratio `r.num / r.den`, as a float quotient, is greater than zero (a
/// positive number over zero is infinite; zero over zero is no number).
pub open spec fn ratio_positive(r: Ratio) -> bool {
    (r.num > 0 && r.den >= 0) || (r.num < 0 && r.den < 0)
}

/// Whether a ratio, as a float quotient, is greater than zero.
pub fn ratio_is_positive(r: Ratio) -> (b: bool)
    ensures
        b == ratio_positive(r),
{
    (r.num > 0 && r.den >= 0) || (r.num < 0 && r.den < 0)
}

/// The client has aspect ratio limits, both greater than zero, so the float
/// step is asked for.
pub open spec fn aspect_active(c: Client) -> bool {
    ratio_positive(c.mina) && ratio_positive(c.maxa)
}

/// Sizes before the aspect step: the base size taken off where it is not the
/// minimum size.
pub open spec fn sh_pre(c: Client, w: i32, h: i32) -> (i32, i32) {
    if !baseismin(c) { (i32w(w - c.basew), i32w(h - c.baseh)) } else { (w, h) }
}

/// Sizes after the aspect step: base size taken off where it is the minimum,
/// rounded down to the resize increments, base size added back, and held
/// between the minimum and (where there is one) the maximum size.
pub open spec fn sh_post(c: Client, w: i32, h: i32) -> (i32, i32) {
    let w1 = if baseismin(c) { i32w(w - c.basew) } else { w };
    let h1 = if baseismin(c) { i32w(h - c.baseh) } else { h };
    let w2 = if c.incw != 0 { i32w(w1 - trem(w1 as int, c.incw as int)) } else { w1 };
    let h2 = if c.inch != 0 { i32w(h1 - trem(h1 as int, c.inch as int)) } else { h1 };
    let w3 = max_i(i32w(w2 + c.basew), c.minw);
    let h3 = max_i(i32w(h2 + c.baseh), c.minh);
    let w4 = if c.maxw != 0 { min_i(w3, c.maxw) } else { w3 };
    let h4 = if c.maxh != 0 { min_i(h3, c.maxh) } else { h3 };
    (w4, h4)
}

/// The aspect question asked for a requested geometry.
pub open spec fn aspect_query(v: WmView, c: Client, x: i32, y: i32, w: i32, h: i32, interact: bool) -> FloatQuery {
    let g = sh_clamped(v, c, x, y, w, h, interact);
    let p = sh_pre(c, g.2, g.3);
    FloatQuery::Aspect { w: p.0, h: p.1, mina: c.mina, maxa: c.maxa }
}

/// The geometry a requested one becomes under the client's size hints, where
/// `a` is the answer to the aspect question (used only where it is asked).
pub open spec fn size_hints(v: WmView, c: Client, x: i32, y: i32, w: i32, h: i32, interact: bool, a: (i32, i32)) -> (i32, i32, i32, i32) {
    let g = sh_clamped(v, c, x, y, w, h, interact);
    if applies_hints(v, c) {
        let p = sh_pre(c, g.2, g.3);
        let q = if aspect_active(c) { a } else { p };
        let r = sh_post(c, q.0, q.1);
        (g.0, g.1, r.0, r.1)
    } else {
        g
    }
}

/// `a` is an answer the caller may give to the aspect question, where it is
/// asked.
pub open spec fn aspect_answer<F: Fn(FloatQuery) -> (i32, i32)>(
    v: WmView, c: Client, x: i32, y: i32, w: i32, h: i32, interact: bool, fq: &F, a: (i32, i32),
) -> bool {
    (applies_hints(v, c) && aspect_active(c)) ==> call_ensures(*fq, (aspect_query(v, c, x, y, w, h, interact),), a)
}

fn max_i32(a: i32, b: i32) -> (r: i32)
    ensures
        r == max_i(a, b),
{
    if a >= b { a } else { b }
}

fn min_i32(a: i32, b: i32) -> (r: i32)
    ensures
        r == min_i(a, b),
{
    if a <= b { a } else { b }
}

impl Wm {
    /// Whether monitor `m`'s selected layout arranges windows.
    pub fn layout_has_arrange(&self, m: usize) -> (r: bool)
        requires
            m < self@.mons.len(),
            self@.mons[m as int].sellt < 2,
        ensures
            r == has_arrange(self@, m as int),
    {
        let l = self.mons[m].lt[self.mons[m].sellt];
        match l {
            Layout::Inert => false,
            _ => true,
        }
    }

    fn clamp_geometry(&self, cl: Client, x: i32, y: i32, w: i32, h: i32, interact: bool) -> (r: (i32, i32, i32, i32))
        requires
            cl.mon < self@.mons.len(),
        ensures
            r == sh_clamped(self@, cl, x, y, w, h, interact),
    {
        let bw = cl.bw as i64;
        let width = wrap(cl.w as i64 + 2 * bw);
        let height = wrap(cl.h as i64 + 2 * bw);
        let w1 = max_i32(1, w);
        let h1 = max_i32(1, h);
        let mut x1 = x;
        let mut y1 = y;
        if interact {
            if x1 > self.sw {
                x1 = wrap(self.sw as i64 - width as i64);
            }
            if y1 > self.sh {
                y1 = wrap(self.sh as i64 - height as i64);
            }
            if (x1 as i64) + (w1 as i64) + 2 * bw < 0 {
                x1 = 0;
            }
            if (y1 as i64) + (h1 as i64) + 2 * bw < 0 {
                y1 = 0;
            }
        } else {
            let m = cl.mon;
            let wx = self.mons[m].wx as i64;
            let wy = self.mons[m].wy as i64;
            let ww = self.mons[m].ww as i64;
            let wh = self.mons[m].wh as i64;
            if x1 as i64 >= wx + ww {
                x1 = wrap(wx + ww - width as i64);
            }
            if y1 as i64 >= wy + wh {
                y1 = wrap(wy + wh - height as i64);
            }
            if (x1 as i64) + (w1 as i64) + 2 * bw <= wx {
                x1 = self.mons[m].wx;
            }
            if (y1 as i64) + (h1 as i64) + 2 * bw <= wy {
                y1 = self.mons[m].wy;
            }
        }
        let h2 = if h1 < self.bh { self.bh } else { h1 };
        let w2 = if w1 < self.bh { self.bh } else { w1 };
        (x1, y1, w2, h2)
    }

    fn hints_post(cl: Client, w: i32, h: i32) -> (r: (i32, i32))
        ensures
            r == sh_post(cl, w, h),
    {
        let bim = cl.basew == cl.minw && cl.baseh == cl.minh;
        let mut w1 = w;
        let mut h1 = h;
        if bim {
            w1 = wrap(w1 as i64 - cl.basew as i64);
            h1 = wrap(h1 as i64 - cl.baseh as i64);
        }
        if cl.incw != 0 {
            let rm = rem_trunc(w1 as i64, cl.incw as i64);
            w1 = wrap(w1 as i64 - rm);
        }
        if cl.inch != 0 {
            let rm = rem_trunc(h1 as i64, cl.inch as i64);
            h1 = wrap(h1 as i64 - rm);
        }
        w1 = max_i32(wrap(w1 as i64 + cl.basew as i64), cl.minw);
        h1 = max_i32(wrap(h1 as i64 + cl.baseh as i64), cl.minh);
        if cl.maxw != 0 {
            w1 = min_i32(w1, cl.maxw);
        }
        if cl.maxh != 0 {
            h1 = min_i32(h1, cl.maxh);
        }
        (w1, h1)
    }

    /// Adjusts a requested geometry for client `c` to the screen or monitor
    /// and to the client's size hints. Returns whether it differs from the
    /// client's current geometry.
    pub fn applysizehints<F: Fn(FloatQuery) -> (i32, i32)>(
        &self, c: usize, x: &mut i32, y: &mut i32, w: &mut i32, h: &mut i32, interact: bool, fq: &F,
    ) -> (r: bool)
        requires
            c < self@.clients.len(),
            self@.clients[c as int].mon < self@.mons.len(),
            self@.mons[self@.clients[c as int].mon as int].sellt < 2,
            answers_all(fq),
        ensures
            exists|a: (i32, i32)| {
                &&& aspect_answer(self@, self@.clients[c as int], *old(x), *old(y), *old(w), *old(h), interact, fq, a)
                &&& (*final(x), *final(y), *final(w), *final(h)) == size_hints(self@, self@.clients[c as int],
                        *old(x), *old(y), *old(w), *old(h), interact, a)
            },
            r == (*final(x) != self@.clients[c as int].x || *final(y) != self@.clients[c as int].y
                || *final(w) != self@.clients[c as int].w || *final(h) != self@.clients[c as int].h),
    {
        let ghost v = self@;
        let cl = self.clients[c];
        let ghost (x0, y0, w0, h0) = (*x, *y, *w, *h);
        let g = self.clamp_geometry(cl, *x, *y, *w, *h, interact);
        *x = g.0;
        *y = g.1;
        *w = g.2;
        *h = g.3;
        let ghost mut ans: (i32, i32) = (0, 0);
        if resizehints() != 0 || cl.isfloating || !self.layout_has_arrange(cl.mon) {
            let bim = cl.basew == cl.minw && cl.baseh == cl.minh;
            if !bim {
                *w = wrap(*w as i64 - cl.basew as i64);
                *h = wrap(*h as i64 - cl.baseh as i64);
            }
            if ratio_is_positive(cl.mina) && ratio_is_positive(cl.maxa) {
                let q = FloatQuery::Aspect { w: *w, h: *h, mina: cl.mina, maxa: cl.maxa };
                assert(call_requires(*fq, (q,)));
                let res = fq(q);
                proof { ans = res; }
                *w = res.0;
                *h = res.1;
            }
            let p = Self::hints_post(cl, *w, *h);
            *w = p.0;
            *h = p.1;
        }
        assert(aspect_answer(v, cl, x0, y0, w0, h0, interact, fq, ans));
        assert((*x, *y, *w, *h) == size_hints(v, cl, x0, y0, w0, h0, interact, ans));
        *x != cl.x || *y != cl.y || *w != cl.w || *h != cl.h
    }

    /// The tiled clients of monitor `m`, in client list order.
    pub fn tiled_clients(&self, m: usize) -> (r: Vec<usize>)
        requires
            self@.wf(),
            m < self@.mons.len(),
        ensures
            r@ == tiled_seq(self@, self@.mons[m as int].clients),
    {
        let ghost s = self@.mons[m as int].clients;
        let n = self.mons[m].clients.len();
        let mut r: Vec<usize> = Vec::new();
        let mut i: usize = 0;
        proof { assert(s.subrange(0, 0) =~= Seq::<usize>::empty()); }
        while i < n
            invariant
                self@.wf(),
                m < self@.mons.len(),
                s == self@.mons[m as int].clients,
                n == s.len(),
                i <= n,
                r@ == tiled_seq(self@, s.subrange(0, i as int)),
            decreases n - i,
        {
            let c = self.mons[m].clients[i];
            proof {
                assert(self@.mon_ok(m as int));
                assert(self@.client_on(s[i as int] as int, m as int));
                assert(s.subrange(0, i + 1).drop_last() =~= s.subrange(0, i as int));
                assert(s.subrange(0, i + 1).last() == c);
            }
            if !self.clients[c].isfloating && self.isvisible(c) {
                r.push(c);
            }
            i += 1;
        }
        proof { assert(s.subrange(0, n as int) =~= s); }
        r
    }

    /// Moves and resizes client `c`. A client that is the only tiled one of its
    /// monitor, or that the monocle layout shows, and that is neither
    /// fullscreen nor floating, takes its border's room as well.
    pub fn resizeclient(&mut self, c: usize, x: i32, y: i32, w: i32, h: i32, fx: &mut Vec<Effect>)
        requires
            old(self)@.wf(),
            old(self)@.clients[c as int].alive,
            c < old(self)@.clients.len(),
        ensures
            final(self)@ == old(self)@.set_client(c as int, resized(old(self)@, c as int, x, y, w, h)),
            final(fx)@ == old(fx)@ + resize_effects(old(self)@, c as int, x, y, w, h),
            final(self)@.wf(),
    {
        let ghost v = self@;
        let m = self.clients[c].mon;
        proof { assert(v.mon_ok(m as int)); }
        let ts = self.tiled_clients(m);
        let monocle = match self.mons[m].lt[self.mons[m].sellt] {
            Layout::Monocle => true,
            _ => false,
        };
        let alone = ts.len() == 1 && ts[0] == c;
        proof {
            if alone {
                assert(ts@ =~= seq![c]);
            }
            if ts@ == seq![c] {
                assert(ts@[0] == c);
            }
        }
        let cl = self.clients[c];
        let bw = cl.bw;
        let fill = (alone || monocle) && !cl.isfullscreen && !cl.isfloating;
        let mut wc_w = w;
        let mut wc_h = h;
        let mut wc_bw = bw;
        let mut nw = w;
        let mut nh = h;
        if fill {
            nw = wrap(w as i64 + bw as i64 * 2);
            nh = wrap(h as i64 + bw as i64 * 2);
            wc_w = nw;
            wc_h = nh;
            wc_bw = 0;
        }
        self.clients[c].oldx = cl.x;
        self.clients[c].x = x;
        self.clients[c].oldy = cl.y;
        self.clients[c].y = y;
        self.clients[c].oldw = cl.w;
        self.clients[c].w = nw;
        self.clients[c].oldh = cl.h;
        self.clients[c].h = nh;
        fx.push(Effect::Configure { win: cl.win, x, y, w: wc_w, h: wc_h, bw: wc_bw });
        fx.push(Effect::NotifyConfigure { win: cl.win, x, y, w: nw, h: nh, bw });
        fx.push(Effect::Sync);
        proof {
            assert(self@.clients =~= v.clients.update(c as int, resized(v, c as int, x, y, w, h)));
            assert(self@.names =~= v.names);
            assert(self@.mons =~= v.mons);
            assert(self@ == v.set_client(c as int, resized(v, c as int, x, y, w, h)));
            lemma_wf_set_client(v, c as int, resized(v, c as int, x, y, w, h));
        }
    }

    /// Resizes client `c` to the requested geometry as its size hints allow,
    /// where that differs from its current geometry.
    pub fn resize<F: Fn(FloatQuery) -> (i32, i32)>(
        &mut self, c: usize, x: i32, y: i32, w: i32, h: i32, interact: bool, fq: &F, fx: &mut Vec<Effect>,
    )
        requires
            old(self)@.wf(),
            old(self)@.clients[c as int].alive,
            c < old(self)@.clients.len(),
            answers_all(fq),
        ensures
            exists|a: (i32, i32)| #[trigger] aspect_answer(old(self)@, old(self)@.clients[c as int], x, y, w, h, interact, fq, a)
                && final(self)@ == resize_done(old(self)@, c as int, x, y, w, h, interact, a)
                && final(fx)@ == old(fx)@ + resize_fx(old(self)@, c as int, x, y, w, h, interact, a),
            final(self)@.wf(),
    {
        let ghost v = self@;
        proof { assert(v.mon_ok(v.clients[c as int].mon as int)); }
        let mut x1 = x;
        let mut y1 = y;
        let mut w1 = w;
        let mut h1 = h;
        let changed = self.applysizehints(c, &mut x1, &mut y1, &mut w1, &mut h1, interact, fq);
        if changed {
            self.resizeclient(c, x1, y1, w1, h1, fx);
        }
        proof {
            if !changed {
                assert(fx@ =~= old(fx)@ + Seq::<Effect>::empty());
            }
        }
    }
}

/// Client `id` is tiled: it is not floating and it is visible.
pub open spec fn tiled(v: WmView, id: int) -> bool {
    !v.clients[id].isfloating && v.visible(id)
}

/// The tiled clients of `s`, in order.
pub open spec fn tiled_seq(v: WmView, s: Seq<usize>) -> Seq<usize>
    decreases s.len(),
{
    if s.len() == 0 {
        Seq::empty()
    } else {
        let p = tiled_seq(v, s.drop_last());
        if tiled(v, s.last() as int) { p.push(s.last()) } else { p }
    }
}

/// Client `id` fills its monitor's window area with its border: it is the
/// only tiled client of its monitor or the monocle layout shows it, and it is
/// neither fullscreen nor floating.
pub open spec fn fills_area(v: WmView, id: int) -> bool {
    let c = v.clients[id];
    let m = v.mons[c.mon as int];
    &&& (tiled_seq(v, m.clients) == seq![id as usize] || pick(m.lt, m.sellt as int) == Layout::Monocle)
    &&& !c.isfullscreen
    &&& !c.isfloating
}

/// Client `id` after being moved and resized to the given geometry.
pub open spec fn resized(v: WmView, id: int, x: i32, y: i32, w: i32, h: i32) -> Client {
    let c = v.clients[id];
    let f = fills_area(v, id);
    Client {
        oldx: c.x,
        x: x,
        oldy: c.y,
        y: y,
        oldw: c.w,
        w: if f { i32w(w + 2 * c.bw) } else { w },
        oldh: c.h,
        h: if f { i32w(h + 2 * c.bw) } else { h },
        ..c
    }
}

/// The requests that moving and resizing client `id` makes.
pub open spec fn resize_effects(v: WmView, id: int, x: i32, y: i32, w: i32, h: i32) -> Seq<Effect> {
    let c = v.clients[id];
    let n = resized(v, id, x, y, w, h);
    seq![
        Effect::Configure { win: c.win, x: x, y: y, w: n.w, h: n.h, bw: if fills_area(v, id) { 0 } else { c.bw } },
        Effect::NotifyConfigure { win: c.win, x: x, y: y, w: n.w, h: n.h, bw: c.bw },
        Effect::Sync
    ]
}

/// The state after client `id` was resized to a requested geometry, where
/// `a` answers the aspect question.
pub open spec fn resize_done(v: WmView, id: int, x: i32, y: i32, w: i32, h: i32, interact: bool, a: (i32, i32)) -> WmView {
    let cl = v.clients[id];
    let g = size_hints(v, cl, x, y, w, h, interact, a);
    if g.0 != cl.x || g.1 != cl.y || g.2 != cl.w || g.3 != cl.h {
        v.set_client(id, resized(v, id, g.0, g.1, g.2, g.3))
    } else {
        v
    }
}

/// The requests that resizing client `id` to a requested geometry makes.
pub open spec fn resize_fx(v: WmView, id: int, x: i32, y: i32, w: i32, h: i32, interact: bool, a: (i32, i32)) -> Seq<Effect> {
    let cl = v.clients[id];
    let g = size_hints(v, cl, x, y, w, h, interact, a);
    if g.0 != cl.x || g.1 != cl.y || g.2 != cl.w || g.3 != cl.h {
        resize_effects(v, id, g.0, g.1, g.2, g.3)
    } else {
        Seq::empty()
    }
}

/// Replacing a client by one with the same slot state and monitor keeps the
/// state well formed.
pub proof fn lemma_wf_set_client(v: WmView, id: int, c: Client)
    requires
        v.wf(),
        0 <= id < v.clients.len(),
        c.alive == v.clients[id].alive,
        c.mon == v.clients[id].mon,
        c.alive ==> WmView::tagset_ok(c.tags),
    ensures
        v.set_client(id, c).wf(),
{
    let v2 = v.set_client(id, c);
    assert forall|m: int| 0 <= m < v2.mons.len() implies #[trigger] v2.mon_ok(m) by {
        assert(v.mon_ok(m));
        let mon = v.mons[m];
        assert forall|k: int| 0 <= k < mon.clients.len() implies #[trigger] v2.client_on(mon.clients[k] as int, m) by {
            assert(v.client_on(mon.clients[k] as int, m));
        }
        assert forall|k: int| 0 <= k < mon.stack.len() implies #[trigger] v2.client_on(mon.stack[k] as int, m) by {
            assert(v.client_on(mon.stack[k] as int, m));
        }
    }
    assert forall|i: int| 0 <= i < v2.clients.len() && (#[trigger] v2.clients[i]).alive implies
        v2.clients[i].mon < v2.mons.len() && v2.mons[v2.clients[i].mon as int].clients.contains(i as usize) by {
        assert(v.clients[i].alive);
    }
}


/// Two clients agree on what decides whether and where they are tiled, and
/// on their window, border width, fullscreen state and whether they swallow
/// or may be swallowed: all that arranging leaves as it is.
pub open spec fn same_keys(a: Client, b: Client) -> bool {
    &&& a.alive == b.alive
    &&& a.mon == b.mon
    &&& a.tags == b.tags
    &&& a.isfloating == b.isfloating
    &&& a.win == b.win
    &&& a.bw == b.bw
    &&& a.isfullscreen == b.isfullscreen
    &&& a.isterminal == b.isterminal
    &&& a.noswallow == b.noswallow
}

/// Two states that differ at most in the geometry of clients.
pub open spec fn geometry_only(a: WmView, b: WmView) -> bool {
    &&& a == WmView { clients: a.clients, ..b }
    &&& a.clients.len() == b.clients.len()
    &&& forall|k: int| 0 <= k < a.clients.len() ==> #[trigger] same_keys(a.clients[k], b.clients[k])
}

/// Two states that agree on all that decides the size hints, the tiling and
/// the visibility of clients: they differ at most in client geometry and in
/// the layout symbols of monitors.
pub open spec fn frame_eq(a: WmView, b: WmView) -> bool {
    &&& a.clients.len() == b.clients.len()
    &&& (forall|k: int| 0 <= k < a.clients.len() ==> #[trigger] same_keys(a.clients[k], b.clients[k]))
    &&& a.mons.len() == b.mons.len()
    &&& (forall|mm: int| 0 <= mm < a.mons.len() ==>
            #[trigger] a.mons[mm] == MonitorView { ltsymbol: a.mons[mm].ltsymbol, ..b.mons[mm] })
    &&& a.sw == b.sw
    &&& a.sh == b.sh
    &&& a.bh == b.bh
}

pub proof fn lemma_geometry_frame(a: WmView, b: WmView)
    requires
        geometry_only(a, b),
    ensures
        frame_eq(a, b),
{
    assert forall|mm: int| 0 <= mm < a.mons.len() implies
        #[trigger] a.mons[mm] == MonitorView { ltsymbol: a.mons[mm].ltsymbol, ..b.mons[mm] } by {
        assert(a.mons == b.mons);
    }
}

/// A state in the frame of a well formed one, with as many titles and the
/// same selected monitor, is well formed.
pub proof fn lemma_frame_wf(a: WmView, b: WmView)
    requires
        b.wf(),
        frame_eq(a, b),
        a.names.len() == b.names.len(),
        a.selmon == b.selmon,
    ensures
        a.wf(),
{
    assert forall|mm: int| 0 <= mm < a.mons.len() implies #[trigger] a.mon_ok(mm) by {
        assert(b.mon_ok(mm));
        assert(a.mons[mm] == MonitorView { ltsymbol: a.mons[mm].ltsymbol, ..b.mons[mm] });
        assert forall|k: int| 0 <= k < a.mons[mm].clients.len() implies #[trigger] a.client_on(a.mons[mm].clients[k] as int, mm) by {
            assert(b.client_on(b.mons[mm].clients[k] as int, mm));
            assert(same_keys(a.clients[b.mons[mm].clients[k] as int], b.clients[b.mons[mm].clients[k] as int]));
        }
        assert forall|k: int| 0 <= k < a.mons[mm].stack.len() implies #[trigger] a.client_on(a.mons[mm].stack[k] as int, mm) by {
            assert(b.client_on(b.mons[mm].stack[k] as int, mm));
            assert(same_keys(a.clients[b.mons[mm].stack[k] as int], b.clients[b.mons[mm].stack[k] as int]));
        }
    }
    assert forall|id: int| 0 <= id < a.clients.len() && (#[trigger] a.clients[id]).alive implies
        a.clients[id].mon < a.mons.len() && a.mons[a.clients[id].mon as int].clients.contains(id as usize)
        && WmView::tagset_ok(a.clients[id].tags) by {
        assert(same_keys(a.clients[id], b.clients[id]));
        assert(b.clients[id].alive);
        let mm = b.clients[id].mon as int;
        assert(a.mons[mm] == MonitorView { ltsymbol: a.mons[mm].ltsymbol, ..b.mons[mm] });
    }
}

/// A state that differs from a well formed one only in layout symbols is well
/// formed.
pub proof fn lemma_wf_symbols(a: WmView, b: WmView)
    requires
        b.wf(),
        frame_eq(a, b),
        a.clients == b.clients,
        a.names.len() == b.names.len(),
        a.selmon == b.selmon,
    ensures
        a.wf(),
{
    assert forall|mm: int| 0 <= mm < a.mons.len() implies #[trigger] a.mon_ok(mm) by {
        assert(b.mon_ok(mm));
        assert(a.mons[mm] == MonitorView { ltsymbol: a.mons[mm].ltsymbol, ..b.mons[mm] });
        assert forall|k: int| 0 <= k < a.mons[mm].clients.len() implies #[trigger] a.client_on(a.mons[mm].clients[k] as int, mm) by {
            assert(b.client_on(b.mons[mm].clients[k] as int, mm));
        }
        assert forall|k: int| 0 <= k < a.mons[mm].stack.len() implies #[trigger] a.client_on(a.mons[mm].stack[k] as int, mm) by {
            assert(b.client_on(b.mons[mm].stack[k] as int, mm));
        }
    }
    assert forall|id: int| 0 <= id < a.clients.len() && (#[trigger] a.clients[id]).alive implies
        a.clients[id].mon < a.mons.len() && a.mons[a.clients[id].mon as int].clients.contains(id as usize) by {
        assert(b.clients[id].alive);
        let mm = b.clients[id].mon as int;
        assert(a.mons[mm] == MonitorView { ltsymbol: a.mons[mm].ltsymbol, ..b.mons[mm] });
    }
}

pub proof fn lemma_tiled_seq_frame(a: WmView, b: WmView, s: Seq<usize>)
    requires
        geometry_only(a, b) || frame_eq(a, b),
        forall|k: int| 0 <= k < s.len() ==> s[k] < a.clients.len() && (#[trigger] a.clients[s[k] as int]).mon < a.mons.len(),
    ensures
        tiled_seq(a, s) == tiled_seq(b, s),
    decreases s.len(),
{
    if geometry_only(a, b) {
        lemma_geometry_frame(a, b);
    }
    if s.len() > 0 {
        let l = s.last() as int;
        let m = a.clients[l].mon as int;
        if 0 <= m < a.mons.len() {
            assert(a.mons[m] == MonitorView { ltsymbol: a.mons[m].ltsymbol, ..b.mons[m] });
        }
        assert(same_keys(a.clients[l], b.clients[l]));
        assert(s[s.len() - 1] == s.last());
        assert forall|k: int| 0 <= k < s.drop_last().len() implies s.drop_last()[k] < a.clients.len()
            && (#[trigger] a.clients[s.drop_last()[k] as int]).mon < a.mons.len() by {
            assert(s.drop_last()[k] == s[k]);
            assert(a.clients[s[k] as int].mon < a.mons.len());
        }
        lemma_tiled_seq_frame(a, b, s.drop_last());
    }
}

/// The tiled clients of a sequence come from it, in order, each once where it
/// holds each once.
pub proof fn lemma_tiled_seq_props(v: WmView, s: Seq<usize>)
    ensures
        tiled_seq(v, s).len() <= s.len(),
        forall|k: int| 0 <= k < tiled_seq(v, s).len() ==> #[trigger] s.contains(tiled_seq(v, s)[k]),
        forall|k: int| 0 <= k < tiled_seq(v, s).len() ==> tiled(v, #[trigger] tiled_seq(v, s)[k] as int),
        s.no_duplicates() ==> tiled_seq(v, s).no_duplicates(),
    decreases s.len(),
{
    if s.len() > 0 {
        let p = tiled_seq(v, s.drop_last());
        lemma_tiled_seq_props(v, s.drop_last());
        assert forall|k: int| 0 <= k < p.len() implies #[trigger] s.contains(p[k]) by {
            assert(s.drop_last().contains(p[k]));
            let j = choose|j: int| 0 <= j < s.drop_last().len() && s.drop_last()[j] == p[k];
            assert(s[j] == p[k]);
        }
        if tiled(v, s.last() as int) {
            let q = p.push(s.last());
            assert(s[s.len() - 1] == s.last());
            assert forall|k: int| 0 <= k < q.len() implies #[trigger] s.contains(q[k]) by {
                if k < p.len() {
                    assert(s.contains(p[k]));
                } else {
                    assert(s[s.len() - 1] == q[k]);
                }
            }
            if s.no_duplicates() {
                assert(s.drop_last().no_duplicates());
                assert(!s.drop_last().contains(s.last())) by {
                    if s.drop_last().contains(s.last()) {
                        let j = choose|j: int| 0 <= j < s.drop_last().len() && s.drop_last()[j] == s.last();
                        assert(s[j] == s[s.len() - 1]);
                    }
                }
                assert forall|a: int, b: int| 0 <= a < q.len() && 0 <= b < q.len() && a != b implies q[a] != q[b] by {
                    if a == p.len() && b < p.len() {
                        assert(s.drop_last().contains(p[b]));
                    } else if b == p.len() && a < p.len() {
                        assert(s.drop_last().contains(p[a]));
                    }
                }
            }
        }
    }
}

#[verifier::rlimit(80)]
pub proof fn lemma_resize_frame(a: WmView, b: WmView, id: int, x: i32, y: i32, w: i32, h: i32, interact: bool, ans: (i32, i32))
    requires
        geometry_only(a, b) || frame_eq(a, b),
        0 <= id < a.clients.len(),
        a.clients[id] == b.clients[id],
        a.wf(),
        a.clients[id].alive,
    ensures
        size_hints(a, a.clients[id], x, y, w, h, interact, ans) == size_hints(b, b.clients[id], x, y, w, h, interact, ans),
        aspect_query(a, a.clients[id], x, y, w, h, interact) == aspect_query(b, b.clients[id], x, y, w, h, interact),
        applies_hints(a, a.clients[id]) == applies_hints(b, b.clients[id]),
        resize_done(a, id, x, y, w, h, interact, ans).clients[id] == resize_done(b, id, x, y, w, h, interact, ans).clients[id],
        resize_done(a, id, x, y, w, h, interact, ans) == a.set_client(id, resize_done(a, id, x, y, w, h, interact, ans).clients[id]),
        same_keys(resize_done(a, id, x, y, w, h, interact, ans).clients[id], a.clients[id]),
        resize_fx(a, id, x, y, w, h, interact, ans) == resize_fx(b, id, x, y, w, h, interact, ans),
{
    if geometry_only(a, b) {
        lemma_geometry_frame(a, b);
    }
    let m = a.clients[id].mon as int;
    assert(a.mon_ok(m));
    assert(a.mons[m] == MonitorView { ltsymbol: a.mons[m].ltsymbol, ..b.mons[m] });
    assert forall|k: int| 0 <= k < a.mons[m].clients.len() implies a.mons[m].clients[k] < a.clients.len()
        && (#[trigger] a.clients[a.mons[m].clients[k] as int]).mon < a.mons.len() by {
        assert(a.client_on(a.mons[m].clients[k] as int, m));
    }
    lemma_tiled_seq_frame(a, b, a.mons[m].clients);
    let g = size_hints(a, a.clients[id], x, y, w, h, interact, ans);
    assert(fills_area(a, id) == fills_area(b, id));
    assert(resized(a, id, g.0, g.1, g.2, g.3) == resized(b, id, g.0, g.1, g.2, g.3));
    if g.0 != a.clients[id].x || g.1 != a.clients[id].y || g.2 != a.clients[id].w || g.3 != a.clients[id].h {
    } else {
        assert(a.clients.update(id, a.clients[id]) =~= a.clients);
    }
}

/// The accumulated height of the windows placed before position `k` of the
/// tiled clients `ts` in one column (the master column, or the stack).
pub open spec fn col_acc(cs: Seq<Client>, ts: Seq<usize>, k: int, nm: int, master: bool) -> i32
    decreases k,
{
    if k <= 0 {
        0
    } else {
        let prev = col_acc(cs, ts, k - 1, nm, master);
        if ((k - 1) < nm) == master {
            i32w(prev + height_of(cs[ts[k - 1] as int]) + crate::config::GAPPX)
        } else {
            prev
        }
    }
}

pub proof fn lemma_col_acc_frame(c1: Seq<Client>, c2: Seq<Client>, ts: Seq<usize>, k: int, nm: int, master: bool)
    requires
        forall|l: int| 0 <= l < k ==> c1[ts[l] as int] == c2[ts[l] as int],
    ensures
        col_acc(c1, ts, k, nm, master) == col_acc(c2, ts, k, nm, master),
    decreases k,
{
    if k > 0 {
        lemma_col_acc_frame(c1, c2, ts, k - 1, nm, master);
    }
}

/// The geometry the tiling layout asks for the tiled client at position `k`,
/// out of `n`, whose column already holds `acc` pixels, with border `bw`.
pub open spec fn tile_target(mon: MonitorView, n: int, nm: int, mw: i32, g: i32, k: int, acc: i32, bw: i32) -> (i32, i32, i32, i32) {
    if k < nm {
        let r = (if n <= nm { n } else { nm }) - k;
        let hh = tdiv(i32w(mon.wh - acc - crate::config::GAPPX * (r - 1)) as int, r);
        (mon.wx, i32w(mon.wy + acc), i32w(mw - 2 * bw), i32w(hh - 2 * bw))
    } else {
        let r = n - k;
        let hh = tdiv(i32w(mon.wh - acc - crate::config::GAPPX * (r - 1)) as int, r);
        (i32w(mon.wx + mw + g), i32w(mon.wy + acc), i32w(mon.ww - mw - g - 2 * bw), i32w(hh - 2 * bw))
    }
}

/// The master count as the C code compares it: as an unsigned number.
pub open spec fn nmaster_u(mon: MonitorView) -> int {
    (mon.nmaster as u32) as int
}

/// The tiling layout asks for the master width.
pub open spec fn tile_asks_width(v: WmView, m: int) -> bool {
    let n = tiled_seq(v, v.mons[m].clients).len();
    n > nmaster_u(v.mons[m]) && v.mons[m].nmaster != 0
}

/// The master width question of the tiling layout.
pub open spec fn tile_width_query(v: WmView, m: int) -> FloatQuery {
    FloatQuery::MasterWidth { mon: m as usize, avail: i32w(v.mons[m].ww - crate::config::GAPPX) }
}

/// The master width, where `a` answers the master width question.
pub open spec fn tile_mw(v: WmView, m: int, a: (i32, i32)) -> i32 {
    let n = tiled_seq(v, v.mons[m].clients).len();
    if n > nmaster_u(v.mons[m]) {
        if v.mons[m].nmaster != 0 { a.0 } else { 0 }
    } else {
        v.mons[m].ww
    }
}

/// The gap between the master and the stack column.
pub open spec fn tile_gap(v: WmView, m: int) -> i32 {
    if tile_asks_width(v, m) { crate::config::GAPPX as i32 } else { 0 }
}

/// Position `k` of the tiled clients of monitor `m` was resized as the tiling
/// layout asks, in the state whose clients are `cs` afterwards.
pub open spec fn tile_step_done<F: Fn(FloatQuery) -> (i32, i32)>(
    v: WmView, m: int, cs: Seq<Client>, mw: i32, k: int, fq: &F,
) -> bool {
    let ts = tiled_seq(v, v.mons[m].clients);
    let nm = nmaster_u(v.mons[m]);
    let id = ts[k] as int;
    let acc = col_acc(cs, ts, k, nm, k < nm);
    let t = tile_target(v.mons[m], ts.len() as int, nm, mw, tile_gap(v, m), k, acc, v.clients[id].bw);
    exists|a: (i32, i32)| #[trigger] aspect_answer(v, v.clients[id], t.0, t.1, t.2, t.3, false, fq, a)
        && cs[id] == resize_done(v, id, t.0, t.1, t.2, t.3, false, a).clients[id]
}

/// The tiling layout placed the tiled clients of monitor `m` with master
/// width answer `a`: they form a master column of `nmaster` windows and a
/// stack column, each split evenly from top to bottom, with `cs` the clients
/// afterwards.
pub open spec fn tiled_with<F: Fn(FloatQuery) -> (i32, i32)>(v: WmView, m: int, cs: Seq<Client>, fq: &F, a: (i32, i32)) -> bool {
    let ts = tiled_seq(v, v.mons[m].clients);
    &&& (tile_asks_width(v, m) ==> call_ensures(*fq, (tile_width_query(v, m),), a))
    &&& forall|k: int| 0 <= k < ts.len() ==> #[trigger] tile_step_done(v, m, cs, tile_mw(v, m, a), k, fq)
}

/// The tiling layout placed the tiled clients of monitor `m`, for some answer
/// to the master width question.
pub open spec fn tiled_as_layout<F: Fn(FloatQuery) -> (i32, i32)>(v: WmView, m: int, cs: Seq<Client>, fq: &F) -> bool {
    exists|a: (i32, i32)| #[trigger] tiled_with(v, m, cs, fq, a)
}

/// The geometry the tiling layout asks for the tiled client at position `k`
/// of monitor `m`, the clients being `cs` once it is placed.
pub open spec fn tile_step_target(v: WmView, m: int, cs: Seq<Client>, mw: i32, k: int) -> (i32, i32, i32, i32) {
    let ts = tiled_seq(v, v.mons[m].clients);
    let nm = nmaster_u(v.mons[m]);
    tile_target(v.mons[m], ts.len() as int, nm, mw, tile_gap(v, m), k, col_acc(cs, ts, k, nm, k < nm), v.clients[ts[k] as int].bw)
}

/// Position `k` of the tiled clients of monitor `m` was resized as the tiling
/// layout asks, `a` answering its aspect question, in the state whose clients
/// are `cs` afterwards.
pub open spec fn tile_step_with<F: Fn(FloatQuery) -> (i32, i32)>(
    v: WmView, m: int, cs: Seq<Client>, mw: i32, k: int, a: (i32, i32), fq: &F,
) -> bool {
    let id = tiled_seq(v, v.mons[m].clients)[k] as int;
    let t = tile_step_target(v, m, cs, mw, k);
    &&& aspect_answer(v, v.clients[id], t.0, t.1, t.2, t.3, false, fq, a)
    &&& cs[id] == resize_done(v, id, t.0, t.1, t.2, t.3, false, a).clients[id]
}

/// The requests the tiling layout makes for the first `k` tiled clients of
/// monitor `m`, `ans` answering their aspect questions.
pub open spec fn tile_fx(v: WmView, m: int, cs: Seq<Client>, mw: i32, ans: Seq<(i32, i32)>, k: int) -> Seq<Effect>
    decreases k,
{
    if k <= 0 {
        Seq::empty()
    } else {
        let id = tiled_seq(v, v.mons[m].clients)[k - 1] as int;
        let t = tile_step_target(v, m, cs, mw, k - 1);
        tile_fx(v, m, cs, mw, ans, k - 1) + resize_fx(v, id, t.0, t.1, t.2, t.3, false, ans[k - 1])
    }
}

/// The tiling layout placed the tiled clients of monitor `m`, making the
/// requests `e`, with master width answer `a` and aspect answers `ans`.
pub open spec fn tiled_with_fx<F: Fn(FloatQuery) -> (i32, i32)>(
    v: WmView, m: int, cs: Seq<Client>, e: Seq<Effect>, fq: &F, a: (i32, i32), ans: Seq<(i32, i32)>,
) -> bool {
    let ts = tiled_seq(v, v.mons[m].clients);
    &&& (tile_asks_width(v, m) ==> call_ensures(*fq, (tile_width_query(v, m),), a))
    &&& ans.len() == ts.len()
    &&& forall|k: int| 0 <= k < ts.len() ==> #[trigger] tile_step_with(v, m, cs, tile_mw(v, m, a), k, ans[k], fq)
    &&& e == tile_fx(v, m, cs, tile_mw(v, m, a), ans, ts.len() as int)
}

/// The tiling layout placed the tiled clients of monitor `m`, leaving the
/// clients `cs`, and made the requests `e`, for some answers to its questions.
pub open spec fn tiled_fx<F: Fn(FloatQuery) -> (i32, i32)>(v: WmView, m: int, cs: Seq<Client>, e: Seq<Effect>, fq: &F) -> bool {
    exists|a: (i32, i32), ans: Seq<(i32, i32)>| #[trigger] tiled_with_fx(v, m, cs, e, fq, a, ans)
}

/// The requests made past `before` in `after`.
pub open spec fn added(before: Seq<Effect>, after: Seq<Effect>) -> Seq<Effect> {
    after.subrange(before.len() as int, after.len() as int)
}

/// The tiling requests depend only on the clients already placed and their
/// answers.
proof fn lemma_tile_fx_frame(v: WmView, m: int, c1: Seq<Client>, c2: Seq<Client>, mw: i32,
    a1: Seq<(i32, i32)>, a2: Seq<(i32, i32)>, k: int)
    requires
        forall|l: int| 0 <= l < k ==> c1[tiled_seq(v, v.mons[m].clients)[l] as int] == c2[tiled_seq(v, v.mons[m].clients)[l] as int],
        forall|l: int| 0 <= l < k ==> a1[l] == a2[l],
    ensures
        tile_fx(v, m, c1, mw, a1, k) == tile_fx(v, m, c2, mw, a2, k),
    decreases k,
{
    if k > 0 {
        lemma_tile_fx_frame(v, m, c1, c2, mw, a1, a2, k - 1);
        let ts = tiled_seq(v, v.mons[m].clients);
        let nm = nmaster_u(v.mons[m]);
        lemma_col_acc_frame(c1, c2, ts, k - 1, nm, k - 1 < nm);
    }
}

/// Placing with known answers is placing.
proof fn lemma_tiled_with_fx<F: Fn(FloatQuery) -> (i32, i32)>(v: WmView, m: int, cs: Seq<Client>, e: Seq<Effect>, fq: &F,
    a: (i32, i32), ans: Seq<(i32, i32)>)
    requires
        tiled_with_fx(v, m, cs, e, fq, a, ans),
    ensures
        tiled_with(v, m, cs, fq, a),
{
    let ts = tiled_seq(v, v.mons[m].clients);
    assert forall|k: int| 0 <= k < ts.len() implies #[trigger] tile_step_done(v, m, cs, tile_mw(v, m, a), k, fq) by {
        assert(tile_step_with(v, m, cs, tile_mw(v, m, a), k, ans[k], fq));
        let id = ts[k] as int;
        let t = tile_step_target(v, m, cs, tile_mw(v, m, a), k);
        assert(aspect_answer(v, v.clients[id], t.0, t.1, t.2, t.3, false, fq, ans[k]));
    }
}

proof fn lemma_tile_step<F: Fn(FloatQuery) -> (i32, i32)>(
    v0: WmView, cur: WmView, new: WmView, m: int, tsq: Seq<usize>, i: int, nm: int, mw: i32, g: i32,
    fq: &F, t: (i32, i32, i32, i32), a: (i32, i32), ans: Seq<(i32, i32)>,
)
    requires
        v0.wf(),
        cur.wf(),
        geometry_only(cur, v0),
        0 <= m < v0.mons.len(),
        tsq == tiled_seq(v0, v0.mons[m].clients),
        tsq.no_duplicates(),
        0 <= i < tsq.len(),
        forall|k: int| 0 <= k < tsq.len() ==> (#[trigger] tsq[k] as int) < v0.clients.len(),
        v0.clients[tsq[i] as int].alive,
        cur.clients[tsq[i] as int] == v0.clients[tsq[i] as int],
        nm == nmaster_u(v0.mons[m]),
        g == tile_gap(v0, m),
        ans.len() == i,
        forall|k: int| 0 <= k < i ==> #[trigger] tile_step_with(v0, m, cur.clients, mw, k, ans[k], fq),
        t == tile_target(v0.mons[m], tsq.len() as int, nm, mw, g, i,
            col_acc(cur.clients, tsq, i, nm, i < nm), v0.clients[tsq[i] as int].bw),
        aspect_answer(cur, cur.clients[tsq[i] as int], t.0, t.1, t.2, t.3, false, fq, a),
        new == resize_done(cur, tsq[i] as int, t.0, t.1, t.2, t.3, false, a),
    ensures
        geometry_only(new, v0),
        forall|id: int| 0 <= id < new.clients.len() && id != tsq[i] as int ==> #[trigger] new.clients[id] == cur.clients[id],
        col_acc(new.clients, tsq, i, nm, true) == col_acc(cur.clients, tsq, i, nm, true),
        col_acc(new.clients, tsq, i, nm, false) == col_acc(cur.clients, tsq, i, nm, false),
        forall|k: int| 0 <= k < i + 1 ==> #[trigger] tile_step_with(v0, m, new.clients, mw, k, ans.push(a)[k], fq),
        tile_fx(v0, m, new.clients, mw, ans.push(a), i + 1)
            == tile_fx(v0, m, cur.clients, mw, ans, i) + resize_fx(cur, tsq[i] as int, t.0, t.1, t.2, t.3, false, a),
{
    let c = tsq[i] as int;
    let ans2 = ans.push(a);
    lemma_resize_frame(cur, v0, c, t.0, t.1, t.2, t.3, false, a);
    assert forall|id: int| 0 <= id < new.clients.len() && id != c implies #[trigger] new.clients[id] == cur.clients[id] by {
    }
    assert forall|k: int| 0 <= k < new.clients.len() implies #[trigger] same_keys(new.clients[k], v0.clients[k]) by {
        if k == c {
        } else {
            assert(same_keys(cur.clients[k], v0.clients[k]));
        }
    }
    assert forall|l: int| 0 <= l < i implies new.clients[tsq[l] as int] == cur.clients[tsq[l] as int] by {
        assert(tsq[l] != tsq[i]);
    }
    lemma_col_acc_frame(new.clients, cur.clients, tsq, i, nm, true);
    lemma_col_acc_frame(new.clients, cur.clients, tsq, i, nm, false);
    assert forall|k: int| 0 <= k < i + 1 implies #[trigger] tile_step_with(v0, m, new.clients, mw, k, ans2[k], fq) by {
        if k < i {
            assert(tile_step_with(v0, m, cur.clients, mw, k, ans[k], fq));
            assert forall|l: int| 0 <= l < k implies new.clients[tsq[l] as int] == cur.clients[tsq[l] as int] by {
                assert(tsq[l] != tsq[i]);
            }
            lemma_col_acc_frame(new.clients, cur.clients, tsq, k, nm, k < nm);
            assert(tsq[k] != tsq[i]);
            assert(ans2[k] == ans[k]);
        } else {
            assert(ans2[k] == a);
            assert(tile_step_target(v0, m, new.clients, mw, i) == t);
        }
    }
    assert(forall|l: int| 0 <= l < i ==> ans2[l] == ans[l]);
    lemma_tile_fx_frame(v0, m, new.clients, cur.clients, mw, ans2, ans, i);
    assert(tile_step_target(v0, m, new.clients, mw, i) == t);
}

impl Wm {
    /// The tiling layout: the first `nmaster` tiled clients of monitor `m`
    /// share a master column, the others a stack column, each column split
    /// evenly from top to bottom with gaps between windows.
    #[verifier::rlimit(60)]
    pub fn tile<F: Fn(FloatQuery) -> (i32, i32)>(&mut self, m: usize, fq: &F, fx: &mut Vec<Effect>)
        requires
            old(self)@.wf(),
            m < old(self)@.mons.len(),
            answers_all(fq),
        ensures
            final(self)@.wf(),
            geometry_only(final(self)@, old(self)@),
            forall|id: int| 0 <= id < old(self)@.clients.len() && !tiled_seq(old(self)@, old(self)@.mons[m as int].clients).contains(id as usize)
                ==> #[trigger] final(self)@.clients[id] == old(self)@.clients[id],
            tiled_as_layout(old(self)@, m as int, final(self)@.clients, fq),
            old(fx)@.is_prefix_of(final(fx)@),
            final(fx)@ == old(fx)@ + added(old(fx)@, final(fx)@),
            tiled_fx(old(self)@, m as int, final(self)@.clients, added(old(fx)@, final(fx)@), fq),
    {
        let ghost v0 = self@;
        let ts = self.tiled_clients(m);
        let ghost tsq = ts@;
        let n = ts.len();
        proof {
            assert(v0.mon_ok(m as int));
            lemma_tiled_seq_props(v0, v0.mons[m as int].clients);
            assert forall|k: int| 0 <= k < tsq.len() implies (#[trigger] tsq[k]) < v0.clients.len() && v0.clients[tsq[k] as int].alive by {
                assert(v0.mons[m as int].clients.contains(tsq[k]));
                let j = choose|j: int| 0 <= j < v0.mons[m as int].clients.len() && v0.mons[m as int].clients[j] == tsq[k];
                assert(v0.client_on(v0.mons[m as int].clients[j] as int, m as int));
            }
        }
        if n == 0 {
            proof {
                assert(tiled_with(v0, m as int, self@.clients, fq, (0i32, 0i32)));
                assert(added(fx@, fx@) =~= Seq::<Effect>::empty());
                assert(fx@ =~= fx@ + added(fx@, fx@));
                assert(tiled_with_fx(v0, m as int, self@.clients, added(fx@, fx@), fq, (0i32, 0i32), Seq::empty()));
                lemma_prefix_concat(fx@, Seq::empty());
            }
            return;
        }
        let nmaster = self.mons[m].nmaster;
        let nm: u32 = #[verifier::truncate] (nmaster as u32);
        let wx = self.mons[m].wx;
        let wy = self.mons[m].wy;
        let ww = self.mons[m].ww;
        let wh = self.mons[m].wh;
        let gap = crate::config::gappx() as i64;
        let mut g: i32 = 0;
        let ghost mut ans: (i32, i32) = (0, 0);
        let mw: i32 = if (n as u64) > (nm as u64) {
            if nmaster != 0 {
                g = crate::config::gappx() as i32;
                let q = FloatQuery::MasterWidth { mon: m, avail: wrap(ww as i64 - g as i64) };
                assert(call_requires(*fq, (q,)));
                let res = fq(q);
                proof { ans = res; }
                res.0
            } else {
                0
            }
        } else {
            ww
        };
        assert(mw == tile_mw(v0, m as int, ans));
        assert(g == tile_gap(v0, m as int));
        let mut my: i32 = 0;
        let mut ty: i32 = 0;
        let mut i: usize = 0;
        let ghost mut fans: Seq<(i32, i32)> = Seq::empty();
        while i < n
            invariant
                self@.wf(),
                geometry_only(self@, v0),
                m < v0.mons.len(),
                answers_all(fq),
                tsq == ts@,
                tsq == tiled_seq(v0, v0.mons[m as int].clients),
                tsq.no_duplicates(),
                n == tsq.len(),
                n < MAX_CLIENTS,
                i <= n,
                nm as int == nmaster_u(v0.mons[m as int]),
                mw == tile_mw(v0, m as int, ans),
                g == tile_gap(v0, m as int),
                wx == v0.mons[m as int].wx,
                wy == v0.mons[m as int].wy,
                ww == v0.mons[m as int].ww,
                wh == v0.mons[m as int].wh,
                gap == crate::config::GAPPX,
                forall|k: int| 0 <= k < tsq.len() ==> (#[trigger] tsq[k]) < v0.clients.len() && v0.clients[tsq[k] as int].alive,
                v0.wf(),
                forall|id: int| 0 <= id < v0.clients.len() && !tsq.contains(id as usize)
                    ==> #[trigger] self@.clients[id] == v0.clients[id],
                forall|k: int| i <= k < n ==> #[trigger] self@.clients[tsq[k] as int] == v0.clients[tsq[k] as int],
                my == col_acc(self@.clients, tsq, i as int, nm as int, true),
                ty == col_acc(self@.clients, tsq, i as int, nm as int, false),
                fans.len() == i,
                forall|k: int| 0 <= k < i ==> #[trigger] tile_step_with(v0, m as int, self@.clients, mw, k, fans[k], fq),
                fx@ == old(fx)@ + tile_fx(v0, m as int, self@.clients, mw, fans, i as int),
            decreases n - i,
        {
            let c = ts[i];
            let ghost cur = self@;
            proof {
                assert(tsq[i as int] < v0.clients.len() && v0.clients[tsq[i as int] as int].alive);
                assert(cur.clients[tsq[i as int] as int] == v0.clients[tsq[i as int] as int]);
            }
            let bw = self.clients[c].bw;
            let hh: i64;
            let tx: i32;
            let tyy: i32;
            let tw: i32;
            if (i as u64) < (nm as u64) {
                let mn: i64 = if (n as u64) <= (nm as u64) { n as i64 } else { nm as i64 };
                let r: i64 = mn - i as i64;
                hh = div_trunc(wrap(wh as i64 - my as i64 - gap * (r - 1)) as i64, r);
                tx = wx;
                tyy = wrap(wy as i64 + my as i64);
                tw = wrap(mw as i64 - 2 * bw as i64);
            } else {
                let r: i64 = n as i64 - i as i64;
                hh = div_trunc(wrap(wh as i64 - ty as i64 - gap * (r - 1)) as i64, r);
                tx = wrap(wx as i64 + mw as i64 + g as i64);
                tyy = wrap(wy as i64 + ty as i64);
                tw = wrap(ww as i64 - mw as i64 - g as i64 - 2 * bw as i64);
            }
            let th = wrap(hh - 2 * bw as i64);
            let ghost acc = col_acc(cur.clients, tsq, i as int, nm as int, (i as int) < (nm as int));
            let ghost t = (tx, tyy, tw, th);
            proof {
                assert(t == tile_target(v0.mons[m as int], n as int, nm as int, mw, g, i as int, acc, v0.clients[c as int].bw));
            }
            let ghost fx_before = fx@;
            self.resize(c, tx, tyy, tw, th, false, fq, fx);
            proof {
                let a = choose|a: (i32, i32)| #[trigger] aspect_answer(cur, cur.clients[c as int], tx, tyy, tw, th, false, fq, a)
                    && self@ == resize_done(cur, c as int, tx, tyy, tw, th, false, a)
                    && fx@ == fx_before + resize_fx(cur, c as int, tx, tyy, tw, th, false, a);
                lemma_tile_step(v0, cur, self@, m as int, tsq, i as int, nm as int, mw, g, fq, t, a, fans);
                assert(fx@ == old(fx)@ + tile_fx(v0, m as int, self@.clients, mw, fans.push(a), i + 1));
                fans = fans.push(a);
                assert forall|id: int| 0 <= id < v0.clients.len() && !tsq.contains(id as usize)
                    implies #[trigger] self@.clients[id] == v0.clients[id] by {
                    assert(tsq[i as int] == c);
                    assert(id != c as int);
                    assert(self@.clients[id] == cur.clients[id]);
                }
                assert forall|k: int| i + 1 <= k < n implies #[trigger] self@.clients[tsq[k] as int] == v0.clients[tsq[k] as int] by {
                    assert(tsq[k] != tsq[i as int]);
                    assert(self@.clients[tsq[k] as int] == cur.clients[tsq[k] as int]);
                }
            }
            if (i as u64) < (nm as u64) {
                let hc = wrap(self.clients[c].h as i64 + 2 * self.clients[c].bw as i64);
                my = wrap(my as i64 + hc as i64 + gap);
            } else {
                let hc = wrap(self.clients[c].h as i64 + 2 * self.clients[c].bw as i64);
                ty = wrap(ty as i64 + hc as i64 + gap);
            }
            i += 1;
        }
        proof {
            if tile_asks_width(v0, m as int) {
                assert(call_ensures(*fq, (tile_width_query(v0, m as int),), ans));
            }
            let e = added(old(fx)@, fx@);
            assert(e =~= tile_fx(v0, m as int, self@.clients, mw, fans, n as int));
            assert(tiled_with_fx(v0, m as int, self@.clients, e, fq, ans, fans));
            lemma_tiled_with_fx(v0, m as int, self@.clients, e, fq, ans, fans);
            assert(fx@ =~= old(fx)@ + e);
            lemma_prefix_concat(old(fx)@, e);
        }
    }
}


/// Whether the stack walk resizes client `id` to its own geometry: it is
/// visible and floating or on a monitor without a layout, and not fullscreen.
pub open spec fn showhide_resizes(v: WmView, id: int) -> bool {
    let c = v.clients[id];
    v.visible(id) && (!has_arrange(v, c.mon as int) || c.isfloating) && !c.isfullscreen
}

/// Client `id` of state `v` became `cs[id]` in the stack walk.
pub open spec fn shown_done<F: Fn(FloatQuery) -> (i32, i32)>(v: WmView, cs: Seq<Client>, id: int, fq: &F) -> bool {
    let c = v.clients[id];
    if showhide_resizes(v, id) {
        exists|a: (i32, i32)| #[trigger] aspect_answer(v, c, c.x, c.y, c.w, c.h, false, fq, a)
            && cs[id] == resize_done(v, id, c.x, c.y, c.w, c.h, false, a).clients[id]
    } else {
        cs[id] == c
    }
}

/// The stack walk of monitor `m` took state `v` to clients `cs`.
pub open spec fn showhide_post<F: Fn(FloatQuery) -> (i32, i32)>(v: WmView, m: int, cs: Seq<Client>, fq: &F) -> bool {
    let s = v.mons[m].stack;
    &&& cs.len() == v.clients.len()
    &&& forall|k: int| 0 <= k < s.len() ==> #[trigger] shown_done(v, cs, s[k] as int, fq)
    &&& forall|id: int| 0 <= id < v.clients.len() && !s.contains(id as usize) ==> #[trigger] cs[id] == v.clients[id]
}

/// A sequence is a prefix of itself extended.
pub proof fn lemma_prefix_concat<A>(a: Seq<A>, b: Seq<A>)
    ensures
        a.is_prefix_of(a + b),
        a.is_prefix_of(a),
{
    assert((a + b).subrange(0, a.len() as int) =~= a);
    assert(a.subrange(0, a.len() as int) =~= a);
}

pub proof fn lemma_prefix_trans<A>(a: Seq<A>, b: Seq<A>, c: Seq<A>)
    requires
        a.is_prefix_of(b),
        b.is_prefix_of(c),
    ensures
        a.is_prefix_of(c),
{
    assert forall|k: int| 0 <= k < a.len() implies a[k] == c[k] by {
        assert(a[k] == b[k]);
    }
}

proof fn lemma_shown_frame<F: Fn(FloatQuery) -> (i32, i32)>(v0: WmView, cur: WmView, c1: Seq<Client>, c2: Seq<Client>, id: int, fq: &F)
    requires
        geometry_only(cur, v0),
        v0.wf(),
        cur.wf(),
        0 <= id < v0.clients.len(),
        v0.clients[id].alive,
        cur.clients[id] == v0.clients[id],
        c1[id] == c2[id],
        shown_done(cur, c1, id, fq),
    ensures
        shown_done(v0, c2, id, fq),
{
    let c = v0.clients[id];
    if showhide_resizes(v0, id) {
        let a = choose|a: (i32, i32)| #[trigger] aspect_answer(cur, c, c.x, c.y, c.w, c.h, false, fq, a)
            && c1[id] == resize_done(cur, id, c.x, c.y, c.w, c.h, false, a).clients[id];
        lemma_resize_frame(cur, v0, id, c.x, c.y, c.w, c.h, false, a);
        assert(aspect_answer(v0, c, c.x, c.y, c.w, c.h, false, fq, a));
    }
}

/// Client `id` became `cs[id]` in the stack walk, `a` answering its aspect
/// question where it is resized.
pub open spec fn shown_with<F: Fn(FloatQuery) -> (i32, i32)>(v: WmView, cs: Seq<Client>, id: int, a: (i32, i32), fq: &F) -> bool {
    let c = v.clients[id];
    if showhide_resizes(v, id) {
        &&& aspect_answer(v, c, c.x, c.y, c.w, c.h, false, fq, a)
        &&& cs[id] == resize_done(v, id, c.x, c.y, c.w, c.h, false, a).clients[id]
    } else {
        cs[id] == c
    }
}

/// The requests of the stack walk for client `id`: a visible client is
/// moved where it is, and resized where the walk resizes it.
pub open spec fn show_fx(v: WmView, id: int, a: (i32, i32)) -> Seq<Effect> {
    let c = v.clients[id];
    if v.visible(id) {
        seq![Effect::Move { win: c.win, x: c.x, y: c.y }]
            + if showhide_resizes(v, id) { resize_fx(v, id, c.x, c.y, c.w, c.h, false, a) } else { Seq::empty() }
    } else {
        Seq::empty()
    }
}

/// The requests of the stack walk for the first `k` clients of `s`.
pub open spec fn shown_fx(v: WmView, s: Seq<usize>, ans: Seq<(i32, i32)>, k: int) -> Seq<Effect>
    decreases k,
{
    if k <= 0 { Seq::empty() } else { shown_fx(v, s, ans, k - 1) + show_fx(v, s[k - 1] as int, ans[k - 1]) }
}

/// The clients among the first `k` of `s` that are not visible, in order.
pub open spec fn hidden_seq(v: WmView, s: Seq<usize>, k: int) -> Seq<usize>
    decreases k,
{
    if k <= 0 {
        Seq::empty()
    } else if v.visible(s[k - 1] as int) {
        hidden_seq(v, s, k - 1)
    } else {
        hidden_seq(v, s, k - 1).push(s[k - 1])
    }
}

/// The request that hides client `id`: it moves left out of sight.
pub open spec fn hide_move(v: WmView, id: int) -> Effect {
    let c = v.clients[id];
    Effect::Move { win: c.win, x: i32w(-2 * i32w(c.w + 2 * c.bw)), y: c.y }
}

/// The requests hiding the clients `hs[lo..hi]`, the last first.
pub open spec fn hide_moves(v: WmView, hs: Seq<usize>, lo: int, hi: int) -> Seq<Effect>
    decreases hi - lo,
{
    if lo >= hi { Seq::empty() } else { hide_moves(v, hs, lo + 1, hi) + seq![hide_move(v, hs[lo] as int)] }
}

/// The stack walk of monitor `m` left the clients `cs` with the aspect
/// answers `ans`, making the requests `e`: the visible clients in stack order,
/// then the hidden ones from the bottom of the stack up.
pub open spec fn showhide_with_all<F: Fn(FloatQuery) -> (i32, i32)>(
    v: WmView, m: int, cs: Seq<Client>, e: Seq<Effect>, fq: &F, ans: Seq<(i32, i32)>,
) -> bool {
    let s = v.mons[m].stack;
    let hs = hidden_seq(v, s, s.len() as int);
    &&& ans.len() == s.len()
    &&& forall|k: int| 0 <= k < s.len() ==> #[trigger] shown_with(v, cs, s[k] as int, ans[k], fq)
    &&& e == shown_fx(v, s, ans, s.len() as int) + hide_moves(v, hs, 0, hs.len() as int)
}

/// The stack walk of monitor `m` left the clients `cs` and made the requests
/// `e`, for some answers to its questions.
pub open spec fn showhide_fx<F: Fn(FloatQuery) -> (i32, i32)>(v: WmView, m: int, cs: Seq<Client>, e: Seq<Effect>, fq: &F) -> bool {
    exists|ans: Seq<(i32, i32)>| #[trigger] showhide_with_all(v, m, cs, e, fq, ans)
}

proof fn lemma_shown_fx_frame(v: WmView, s: Seq<usize>, a1: Seq<(i32, i32)>, a2: Seq<(i32, i32)>, k: int)
    requires
        forall|l: int| 0 <= l < k ==> a1[l] == a2[l],
    ensures
        shown_fx(v, s, a1, k) == shown_fx(v, s, a2, k),
    decreases k,
{
    if k > 0 {
        lemma_shown_fx_frame(v, s, a1, a2, k - 1);
    }
}

/// Each hidden client is a client of `s` that is not visible.
proof fn lemma_hidden_seq(v: WmView, s: Seq<usize>, k: int)
    requires
        0 <= k <= s.len(),
    ensures
        forall|j: int| 0 <= j < hidden_seq(v, s, k).len() ==>
            exists|l: int| 0 <= l < k && #[trigger] hidden_seq(v, s, k)[j] == s[l] && !v.visible(s[l] as int),
    decreases k,
{
    if k > 0 {
        lemma_hidden_seq(v, s, k - 1);
        let h = hidden_seq(v, s, k - 1);
        assert forall|j: int| 0 <= j < hidden_seq(v, s, k).len() implies
            exists|l: int| 0 <= l < k && #[trigger] hidden_seq(v, s, k)[j] == s[l] && !v.visible(s[l] as int) by {
            if j < h.len() {
                assert(hidden_seq(v, s, k)[j] == h[j]);
                let l = choose|l: int| 0 <= l < k - 1 && #[trigger] h[j] == s[l] && !v.visible(s[l] as int);
                assert(hidden_seq(v, s, k)[j] == s[l]);
            } else {
                assert(hidden_seq(v, s, k)[j] == s[k - 1]);
            }
        }
    }
}

impl Wm {
    /// Shows the visible clients of monitor `m`, in focus stack order, resizing
    /// the floating ones (all of them, where no layout arranges the monitor)
    /// to their own geometry, then hides the others, bottom of the stack first,
    /// by moving them out of sight.
    #[verifier::rlimit(80)]
    pub fn showhide<F: Fn(FloatQuery) -> (i32, i32)>(&mut self, m: usize, fq: &F, fx: &mut Vec<Effect>)
        requires
            old(self)@.wf(),
            m < old(self)@.mons.len(),
            answers_all(fq),
        ensures
            final(self)@.wf(),
            geometry_only(final(self)@, old(self)@),
            showhide_post(old(self)@, m as int, final(self)@.clients, fq),
            old(fx)@.is_prefix_of(final(fx)@),
            final(fx)@ == old(fx)@ + added(old(fx)@, final(fx)@),
            showhide_fx(old(self)@, m as int, final(self)@.clients, added(old(fx)@, final(fx)@), fq),
    {
        let ghost v0 = self@;
        let ghost s = v0.mons[m as int].stack;
        let n = self.mons[m].stack.len();
        let mut hidden: Vec<usize> = Vec::new();
        let mut i: usize = 0;
        let ghost mut sans: Seq<(i32, i32)> = Seq::empty();
        proof {
            assert(v0.mon_ok(m as int));
            assert(hidden@ =~= hidden_seq(v0, s, 0));
        }
        while i < n
            invariant
                self@.wf(),
                v0.wf(),
                v0.mon_ok(m as int),
                geometry_only(self@, v0),
                m < v0.mons.len(),
                answers_all(fq),
                s == v0.mons[m as int].stack,
                s == self@.mons[m as int].stack,
                s.no_duplicates(),
                n == s.len(),
                i <= n,
                forall|k: int| 0 <= k < hidden@.len() ==> (#[trigger] hidden@[k]) < self@.clients.len(),
                forall|id: int| 0 <= id < v0.clients.len() && !s.contains(id as usize)
                    ==> #[trigger] self@.clients[id] == v0.clients[id],
                forall|k: int| i <= k < n ==> #[trigger] self@.clients[s[k] as int] == v0.clients[s[k] as int],
                forall|k: int| 0 <= k < i ==> #[trigger] shown_done(v0, self@.clients, s[k] as int, fq),
                sans.len() == i,
                forall|k: int| 0 <= k < i ==> #[trigger] shown_with(v0, self@.clients, s[k] as int, sans[k], fq),
                fx@ == old(fx)@ + shown_fx(v0, s, sans, i as int),
                hidden@ == hidden_seq(v0, s, i as int),
            decreases n - i,
        {
            let c = self.mons[m].stack[i];
            let ghost cur = self@;
            let ghost fx0 = fx@;
            proof {
                assert(v0.client_on(s[i as int] as int, m as int));
                assert(self@.clients[c as int] == v0.clients[c as int]);
            }
            let cl = self.clients[c];
            let ghost mut a_used: (i32, i32) = (0, 0);
            if self.isvisible(c) {
                fx.push(Effect::Move { win: cl.win, x: cl.x, y: cl.y });
                let ghost fx_mid = fx@;
                if (!self.layout_has_arrange(cl.mon) || cl.isfloating) && !cl.isfullscreen {
                    self.resize(c, cl.x, cl.y, cl.w, cl.h, false, fq, fx);
                    proof {
                        let a = choose|a: (i32, i32)| #[trigger] aspect_answer(cur, cur.clients[c as int], cl.x, cl.y, cl.w, cl.h, false, fq, a)
                            && self@ == resize_done(cur, c as int, cl.x, cl.y, cl.w, cl.h, false, a)
                            && fx@ == fx_mid + resize_fx(cur, c as int, cl.x, cl.y, cl.w, cl.h, false, a);
                        lemma_resize_frame(cur, v0, c as int, cl.x, cl.y, cl.w, cl.h, false, a);
                        assert(aspect_answer(v0, v0.clients[c as int], cl.x, cl.y, cl.w, cl.h, false, fq, a));
                        assert(shown_done(v0, self@.clients, c as int, fq));
                        a_used = a;
                        assert(shown_with(v0, self@.clients, c as int, a, fq));
                        assert(fx@ == fx0 + show_fx(v0, c as int, a));
                    }
                } else {
                    proof {
                        assert(shown_done(v0, self@.clients, c as int, fq));
                        assert(fx@ =~= fx0 + show_fx(v0, c as int, a_used));
                    }
                }
            } else {
                hidden.push(c);
                proof {
                    assert(shown_done(v0, self@.clients, c as int, fq));
                    assert(fx@ =~= fx0 + show_fx(v0, c as int, a_used));
                }
            }
            proof {
                let sans2 = sans.push(a_used);
                assert(shown_with(v0, self@.clients, c as int, a_used, fq));
                assert forall|id: int| 0 <= id < self@.clients.len() && id != c as int implies #[trigger] self@.clients[id] == cur.clients[id] by {
                }
                assert forall|k: int| 0 <= k < i + 1 implies #[trigger] shown_with(v0, self@.clients, s[k] as int, sans2[k], fq) by {
                    if k < i {
                        assert(s[k] != s[i as int]);
                        assert(shown_with(v0, cur.clients, s[k] as int, sans[k], fq));
                        assert(v0.client_on(s[k] as int, m as int));
                        assert(self@.clients[s[k] as int] == cur.clients[s[k] as int]);
                        assert(sans2[k] == sans[k]);
                    } else {
                        assert(sans2[k] == a_used);
                    }
                }
                assert(forall|l: int| 0 <= l < i ==> sans2[l] == sans[l]);
                lemma_shown_fx_frame(v0, s, sans2, sans, i as int);
                assert(s[i as int] == c);
                assert(fx@ =~= old(fx)@ + shown_fx(v0, s, sans2, i + 1));
                assert(v0.visible(c as int) == cur.visible(c as int));
                assert(hidden@ =~= hidden_seq(v0, s, i + 1));
                sans = sans2;
                assert(geometry_only(self@, v0)) by {
                    assert forall|k: int| 0 <= k < self@.clients.len() implies #[trigger] same_keys(self@.clients[k], v0.clients[k]) by {
                        assert(same_keys(cur.clients[k], v0.clients[k]));
                    }
                }
                assert forall|k: int| 0 <= k < i + 1 implies #[trigger] shown_done(v0, self@.clients, s[k] as int, fq) by {
                    if k < i {
                        assert(s[k] != s[i as int]);
                        assert(shown_done(v0, cur.clients, s[k] as int, fq));
                        assert(v0.client_on(s[k] as int, m as int));
                        assert(self@.clients[s[k] as int] == cur.clients[s[k] as int]);
                        lemma_shown_frame(v0, v0, cur.clients, self@.clients, s[k] as int, fq);
                    }
                }
                assert forall|k: int| i + 1 <= k < n implies #[trigger] self@.clients[s[k] as int] == v0.clients[s[k] as int] by {
                    assert(s[k] != s[i as int]);
                    assert(v0.client_on(s[k] as int, m as int));
                    assert(self@.clients[s[k] as int] == cur.clients[s[k] as int]);
                    assert(cur.clients[s[k] as int] == v0.clients[s[k] as int]);
                }
                assert forall|id: int| 0 <= id < v0.clients.len() && !s.contains(id as usize)
                    implies #[trigger] self@.clients[id] == v0.clients[id] by {
                    assert(s[i as int] == c);
                }
            }
            i += 1;
        }
        let ghost fx1 = fx@;
        let ghost hs = hidden@;
        let ghost v1 = self@;
        let ghost hl = hidden@.len() as int;
        proof {
            lemma_hidden_seq(v0, s, n as int);
            assert forall|k: int| 0 <= k < hl implies (#[trigger] hs[k]) < v0.clients.len()
                && v1.clients[hs[k] as int] == v0.clients[hs[k] as int] by {
                let l = choose|l: int| 0 <= l < n && #[trigger] hidden_seq(v0, s, n as int)[k] == s[l] && !v0.visible(s[l] as int);
                assert(shown_with(v0, v1.clients, s[l] as int, sans[l], fq));
                assert(v0.client_on(s[l] as int, m as int));
            }
            assert(fx@ == fx1 + hide_moves(v0, hs, hl, hl));
        }
        let mut j = hidden.len();
        while j > 0
            invariant
                j <= hidden@.len(),
                hidden@ == hs,
                hl == hs.len(),
                self@ == v1,
                v1.clients.len() == v0.clients.len(),
                forall|k: int| 0 <= k < hl ==> (#[trigger] hs[k]) < v0.clients.len()
                    && v1.clients[hs[k] as int] == v0.clients[hs[k] as int],
                fx@ == fx1 + hide_moves(v0, hs, j as int, hl),
            decreases j,
        {
            j -= 1;
            let c = hidden[j];
            let cl = self.clients[c];
            let width = wrap(cl.w as i64 + 2 * cl.bw as i64);
            let ghost fx_before = fx@;
            fx.push(Effect::Move { win: cl.win, x: wrap(-2 * width as i64), y: cl.y });
            proof {
                assert(hs[j as int] == c);
                assert(cl == v0.clients[c as int]);
                assert(fx@ =~= fx1 + hide_moves(v0, hs, j as int, hl));
            }
        }
        proof {
            let e = added(old(fx)@, fx@);
            assert(hs == hidden_seq(v0, s, s.len() as int));
            assert(e =~= shown_fx(v0, s, sans, s.len() as int) + hide_moves(v0, hs, 0, hs.len() as int));
            assert(showhide_with_all(v0, m as int, self@.clients, e, fq, sans));
            assert(fx@ =~= old(fx)@ + e);
            lemma_prefix_concat(old(fx)@, e);
        }
    }
}


/// The decimal digits of `n`.
pub open spec fn dec_digits(n: nat) -> Seq<u8>
    decreases n,
{
    if n < 10 {
        seq![(48 + n) as u8]
    } else {
        dec_digits(n / 10).push((48 + n % 10) as u8)
    }
}

/// What a 16-byte C string buffer keeps of `b`.
pub open spec fn cstr16(b: Seq<u8>) -> Seq<u8> {
    if b.len() <= 15 { b } else { b.take(15) }
}

/// The monocle symbol for `n` visible windows: the count in brackets.
pub open spec fn monocle_symbol(n: nat) -> Seq<u8> {
    cstr16(seq![91u8] + dec_digits(n) + seq![93u8])
}

pub fn decimal(n: u64) -> (r: Vec<u8>)
    ensures
        r@ == dec_digits(n as nat),
    decreases n,
{
    if n < 10 {
        let mut v: Vec<u8> = Vec::new();
        v.push((48 + n) as u8);
        v
    } else {
        let mut v = decimal(n / 10);
        v.push((48 + n % 10) as u8);
        v
    }
}

/// Keeps what a 16-byte C string buffer holds of `b`.
pub fn to_cstr16(b: &Vec<u8>) -> (r: Vec<u8>)
    ensures
        r@ == cstr16(b@),
{
    let n = if b.len() <= 15 { b.len() } else { 15 };
    let mut r: Vec<u8> = Vec::new();
    let mut i: usize = 0;
    while i < n
        invariant
            n <= b@.len(),
            n == (if b@.len() <= 15 { b@.len() } else { 15 }),
            i <= n,
            r@ == b@.take(i as int),
        decreases n - i,
    {
        r.push(b[i]);
        i += 1;
        proof { assert(r@ =~= b@.take(i as int)); }
    }
    proof { assert(b@.take(b@.len() as int) =~= b@); }
    r
}

/// The number of visible clients among `s`.
pub open spec fn count_visible(v: WmView, s: Seq<usize>) -> nat
    decreases s.len(),
{
    if s.len() == 0 {
        0
    } else {
        count_visible(v, s.drop_last()) + if v.visible(s.last() as int) { 1nat } else { 0nat }
    }
}

/// The geometry the monocle layout asks for client `id`: the window area of
/// monitor `m`, less the border.
pub open spec fn monocle_target(v: WmView, m: int, id: int) -> (i32, i32, i32, i32) {
    let mon = v.mons[m];
    let bw = v.clients[id].bw;
    (mon.wx, mon.wy, i32w(mon.ww - 2 * bw), i32w(mon.wh - 2 * bw))
}

/// Tiled client `id` of monitor `m` of state `v` became `cs[id]` under the
/// monocle layout.
pub open spec fn monocle_done<F: Fn(FloatQuery) -> (i32, i32)>(v: WmView, m: int, cs: Seq<Client>, id: int, fq: &F) -> bool {
    let t = monocle_target(v, m, id);
    exists|a: (i32, i32)| #[trigger] aspect_answer(v, v.clients[id], t.0, t.1, t.2, t.3, false, fq, a)
        && cs[id] == resize_done(v, id, t.0, t.1, t.2, t.3, false, a).clients[id]
}

/// Tiled client `id` of monitor `m` was made to fill the window area, `a`
/// answering its aspect question, leaving it as `cs[id]`.
pub open spec fn monocle_with<F: Fn(FloatQuery) -> (i32, i32)>(v: WmView, m: int, cs: Seq<Client>, id: int, a: (i32, i32), fq: &F) -> bool {
    let t = monocle_target(v, m, id);
    &&& aspect_answer(v, v.clients[id], t.0, t.1, t.2, t.3, false, fq, a)
    &&& cs[id] == resize_done(v, id, t.0, t.1, t.2, t.3, false, a).clients[id]
}

/// The requests the monocle layout makes for the first `k` tiled clients of
/// monitor `m`, `ans` answering their aspect questions.
pub open spec fn monocle_fx(v: WmView, m: int, ans: Seq<(i32, i32)>, k: int) -> Seq<Effect>
    decreases k,
{
    if k <= 0 {
        Seq::empty()
    } else {
        let id = tiled_seq(v, v.mons[m].clients)[k - 1] as int;
        let t = monocle_target(v, m, id);
        monocle_fx(v, m, ans, k - 1) + resize_fx(v, id, t.0, t.1, t.2, t.3, false, ans[k - 1])
    }
}

/// The monocle layout resized the tiled clients of monitor `m` to `cs` with
/// the aspect answers `ans`, making the requests `e`.
pub open spec fn monocle_with_all<F: Fn(FloatQuery) -> (i32, i32)>(
    v: WmView, m: int, cs: Seq<Client>, e: Seq<Effect>, fq: &F, ans: Seq<(i32, i32)>,
) -> bool {
    let ts = tiled_seq(v, v.mons[m].clients);
    &&& ans.len() == ts.len()
    &&& forall|k: int| 0 <= k < ts.len() ==> #[trigger] monocle_with(v, m, cs, ts[k] as int, ans[k], fq)
    &&& e == monocle_fx(v, m, ans, ts.len() as int)
}

/// The monocle layout resized the tiled clients of monitor `m` to `cs`,
/// making the requests `e`, for some answers to its questions.
pub open spec fn monocle_fx_done<F: Fn(FloatQuery) -> (i32, i32)>(v: WmView, m: int, cs: Seq<Client>, e: Seq<Effect>, fq: &F) -> bool {
    exists|ans: Seq<(i32, i32)>| #[trigger] monocle_with_all(v, m, cs, e, fq, ans)
}

proof fn lemma_monocle_fx_frame(v: WmView, m: int, a1: Seq<(i32, i32)>, a2: Seq<(i32, i32)>, k: int)
    requires
        forall|l: int| 0 <= l < k ==> a1[l] == a2[l],
    ensures
        monocle_fx(v, m, a1, k) == monocle_fx(v, m, a2, k),
    decreases k,
{
    if k > 0 {
        lemma_monocle_fx_frame(v, m, a1, a2, k - 1);
    }
}

impl Wm {
    /// The monocle layout: every tiled client of monitor `m` fills the window
    /// area; the layout symbol shows how many clients are visible.
    pub fn monocle<F: Fn(FloatQuery) -> (i32, i32)>(&mut self, m: usize, fq: &F, fx: &mut Vec<Effect>)
        requires
            old(self)@.wf(),
            m < old(self)@.mons.len(),
            answers_all(fq),
        ensures
            final(self)@.wf(),
            final(self)@.clients.len() == old(self)@.clients.len(),
            forall|k: int| 0 <= k < final(self)@.clients.len() ==> #[trigger] same_keys(final(self)@.clients[k], old(self)@.clients[k]),
            ({
                let v = old(self)@;
                let n = count_visible(v, v.mons[m as int].clients);
                let mv = v.mons[m as int];
                final(self)@ == WmView {
                    clients: final(self)@.clients,
                    mons: v.mons.update(m as int, MonitorView {
                        ltsymbol: if n > 0 { monocle_symbol(n) } else { mv.ltsymbol },
                        ..mv
                    }),
                    ..v
                }
            }),
            forall|id: int| 0 <= id < old(self)@.clients.len() && !tiled_seq(old(self)@, old(self)@.mons[m as int].clients).contains(id as usize)
                ==> #[trigger] final(self)@.clients[id] == old(self)@.clients[id],
            forall|k: int| 0 <= k < tiled_seq(old(self)@, old(self)@.mons[m as int].clients).len() ==>
                #[trigger] monocle_done(old(self)@, m as int, final(self)@.clients,
                    tiled_seq(old(self)@, old(self)@.mons[m as int].clients)[k] as int, fq),
            old(fx)@.is_prefix_of(final(fx)@),
            final(fx)@ == old(fx)@ + added(old(fx)@, final(fx)@),
            monocle_fx_done(old(self)@, m as int, final(self)@.clients, added(old(fx)@, final(fx)@), fq),
    {
        let ghost v0 = self@;
        proof { assert(v0.mon_ok(m as int)); }
        let nc = self.mons[m].clients.len();
        let ghost cl = v0.mons[m as int].clients;
        let mut n: u64 = 0;
        let mut i: usize = 0;
        proof { assert(cl.subrange(0, 0) =~= Seq::<usize>::empty()); }
        while i < nc
            invariant
                self@ == v0,
                v0.wf(),
                v0.mon_ok(m as int),
                m < v0.mons.len(),
                cl == v0.mons[m as int].clients,
                nc == cl.len(),
                nc < MAX_CLIENTS,
                i <= nc,
                n <= i,
                n == count_visible(v0, cl.subrange(0, i as int)),
            decreases nc - i,
        {
            let c = self.mons[m].clients[i];
            proof {
                assert(v0.client_on(cl[i as int] as int, m as int));
                assert(cl.subrange(0, i + 1).drop_last() =~= cl.subrange(0, i as int));
            }
            if self.isvisible(c) {
                n += 1;
            }
            i += 1;
        }
        proof { assert(cl.subrange(0, nc as int) =~= cl); }
        if n > 0 {
            let mut sym: Vec<u8> = Vec::new();
            sym.push(91u8);
            let mut d = decimal(n);
            sym.append(&mut d);
            sym.push(93u8);
            let t = to_cstr16(&sym);
            self.mons[m].ltsymbol = t;
            proof {
                assert(sym@ =~= seq![91u8] + dec_digits(n as nat) + seq![93u8]);
            }
        }
        let ghost v1 = self@;
        proof {
            assert(self@.mons =~= v0.mons.update(m as int, MonitorView {
                ltsymbol: if n > 0 { monocle_symbol(n as nat) } else { v0.mons[m as int].ltsymbol },
                ..v0.mons[m as int]
            }));
            assert(v1.names =~= v0.names);
            assert(frame_eq(v1, v0)) by {
                assert forall|kk: int| 0 <= kk < v1.clients.len() implies #[trigger] same_keys(v1.clients[kk], v0.clients[kk]) by {}
                assert forall|mm: int| 0 <= mm < v1.mons.len() implies
                    #[trigger] v1.mons[mm] == MonitorView { ltsymbol: v1.mons[mm].ltsymbol, ..v0.mons[mm] } by {}
            }
            lemma_wf_symbols(v1, v0);
            assert forall|k: int| 0 <= k < cl.len() implies cl[k] < v1.clients.len()
                && (#[trigger] v1.clients[cl[k] as int]).mon < v1.mons.len() by {
                assert(v0.client_on(cl[k] as int, m as int));
            }
        }
        let ts = self.tiled_clients(m);
        let ghost tsq = ts@;
        let nt = ts.len();
        proof {
            lemma_tiled_seq_props(v1, cl);
            lemma_tiled_seq_frame(v1, v0, cl);
            assert forall|k: int| 0 <= k < tsq.len() implies (#[trigger] tsq[k]) < v0.clients.len() && v0.clients[tsq[k] as int].alive by {
                assert(cl.contains(tsq[k]));
                let j = choose|j: int| 0 <= j < cl.len() && cl[j] == tsq[k];
                assert(v0.client_on(cl[j] as int, m as int));
            }
        }
        let wx = self.mons[m].wx;
        let wy = self.mons[m].wy;
        let ww = self.mons[m].ww;
        let wh = self.mons[m].wh;
        let mut k: usize = 0;
        let ghost mut mans: Seq<(i32, i32)> = Seq::empty();
        while k < nt
            invariant
                self@.wf(),
                v1.wf(),
                geometry_only(self@, v1),
                m < v1.mons.len(),
                answers_all(fq),
                tsq == ts@,
                tsq == tiled_seq(v0, cl),
                tsq == tiled_seq(v1, cl),
                cl == v1.mons[m as int].clients,
                tsq.no_duplicates(),
                nt == tsq.len(),
                k <= nt,
                wx == v1.mons[m as int].wx,
                wy == v1.mons[m as int].wy,
                ww == v1.mons[m as int].ww,
                wh == v1.mons[m as int].wh,
                v1.clients == v0.clients,
                frame_eq(v1, v0),
                forall|j: int| 0 <= j < tsq.len() ==> (#[trigger] tsq[j]) < v0.clients.len() && v0.clients[tsq[j] as int].alive,
                forall|id: int| 0 <= id < v0.clients.len() && !tsq.contains(id as usize)
                    ==> #[trigger] self@.clients[id] == v0.clients[id],
                forall|j: int| k <= j < nt ==> #[trigger] self@.clients[tsq[j] as int] == v0.clients[tsq[j] as int],
                forall|j: int| 0 <= j < k ==> #[trigger] monocle_done(v1, m as int, self@.clients, tsq[j] as int, fq),
                v0.wf(),
                mans.len() == k,
                forall|j: int| 0 <= j < k ==> #[trigger] monocle_with(v0, m as int, self@.clients, tsq[j] as int, mans[j], fq),
                fx@ == old(fx)@ + monocle_fx(v0, m as int, mans, k as int),
            decreases nt - k,
        {
            let c = ts[k];
            let ghost cur = self@;
            let ghost fx0 = fx@;
            proof {
                assert(tsq[k as int] < v0.clients.len() && v0.clients[tsq[k as int] as int].alive);
                assert(cur.clients[tsq[k as int] as int] == v0.clients[tsq[k as int] as int]);
            }
            let bw = self.clients[c].bw as i64;
            let tw = wrap(ww as i64 - 2 * bw);
            let th = wrap(wh as i64 - 2 * bw);
            self.resize(c, wx, wy, tw, th, false, fq, fx);
            proof {
                let a = choose|a: (i32, i32)| #[trigger] aspect_answer(cur, cur.clients[c as int], wx, wy, tw, th, false, fq, a)
                    && self@ == resize_done(cur, c as int, wx, wy, tw, th, false, a)
                    && fx@ == fx0 + resize_fx(cur, c as int, wx, wy, tw, th, false, a);
                lemma_resize_frame(cur, v1, c as int, wx, wy, tw, th, false, a);
                assert(monocle_target(v1, m as int, c as int) == (wx, wy, tw, th));
                assert(aspect_answer(v1, v1.clients[c as int], wx, wy, tw, th, false, fq, a));
                assert(monocle_done(v1, m as int, self@.clients, c as int, fq));
                lemma_resize_frame(v1, v0, c as int, wx, wy, tw, th, false, a);
                assert(monocle_target(v0, m as int, c as int) == (wx, wy, tw, th));
                assert forall|id: int| 0 <= id < self@.clients.len() && id != c as int implies #[trigger] self@.clients[id] == cur.clients[id] by {
                }
                let mans2 = mans.push(a);
                assert forall|j: int| 0 <= j < k + 1 implies #[trigger] monocle_with(v0, m as int, self@.clients, tsq[j] as int, mans2[j], fq) by {
                    if j < k {
                        assert(tsq[j] != tsq[k as int]);
                        assert(monocle_with(v0, m as int, cur.clients, tsq[j] as int, mans[j], fq));
                        assert(self@.clients[tsq[j] as int] == cur.clients[tsq[j] as int]);
                        assert(mans2[j] == mans[j]);
                    } else {
                        assert(mans2[j] == a);
                    }
                }
                assert(forall|l: int| 0 <= l < k ==> mans2[l] == mans[l]);
                lemma_monocle_fx_frame(v0, m as int, mans2, mans, k as int);
                assert(tsq[k as int] == c);
                assert(fx@ == old(fx)@ + monocle_fx(v0, m as int, mans2, k + 1));
                mans = mans2;
                assert(geometry_only(self@, v1)) by {
                    assert forall|j: int| 0 <= j < self@.clients.len() implies #[trigger] same_keys(self@.clients[j], v1.clients[j]) by {
                        assert(same_keys(cur.clients[j], v1.clients[j]));
                    }
                }
                assert forall|j: int| 0 <= j < k + 1 implies #[trigger] monocle_done(v1, m as int, self@.clients, tsq[j] as int, fq) by {
                    if j < k {
                        assert(tsq[j] != tsq[k as int]);
                        assert(monocle_done(v1, m as int, cur.clients, tsq[j] as int, fq));
                        assert(self@.clients[tsq[j] as int] == cur.clients[tsq[j] as int]);
                        let idj = tsq[j] as int;
                        let t = monocle_target(v1, m as int, idj);
                        let aj = choose|aj: (i32, i32)| #[trigger] aspect_answer(v1, v1.clients[idj], t.0, t.1, t.2, t.3, false, fq, aj)
                            && cur.clients[idj] == resize_done(v1, idj, t.0, t.1, t.2, t.3, false, aj).clients[idj];
                        assert(aspect_answer(v1, v1.clients[idj], t.0, t.1, t.2, t.3, false, fq, aj));
                    }
                }
                assert forall|j: int| k + 1 <= j < nt implies #[trigger] self@.clients[tsq[j] as int] == v0.clients[tsq[j] as int] by {
                    assert(tsq[j] != tsq[k as int]);
                    assert(self@.clients[tsq[j] as int] == cur.clients[tsq[j] as int]);
                }
                assert forall|id: int| 0 <= id < v0.clients.len() && !tsq.contains(id as usize)
                    implies #[trigger] self@.clients[id] == v0.clients[id] by {
                    assert(tsq[k as int] == c);
                    assert(self@.clients[id] == cur.clients[id]);
                }
            }
            k += 1;
        }
        proof {
            assert forall|j: int| 0 <= j < tsq.len() implies #[trigger] monocle_done(v0, m as int, self@.clients, tsq[j] as int, fq) by {
                assert(monocle_done(v1, m as int, self@.clients, tsq[j] as int, fq));
                let idj = tsq[j] as int;
                let t = monocle_target(v1, m as int, idj);
                assert(monocle_target(v0, m as int, idj) == t);
                let aj = choose|aj: (i32, i32)| #[trigger] aspect_answer(v1, v1.clients[idj], t.0, t.1, t.2, t.3, false, fq, aj)
                    && self@.clients[idj] == resize_done(v1, idj, t.0, t.1, t.2, t.3, false, aj).clients[idj];
                lemma_resize_frame(v1, v0, idj, t.0, t.1, t.2, t.3, false, aj);
                assert(aspect_answer(v0, v0.clients[idj], t.0, t.1, t.2, t.3, false, fq, aj));
            }
            assert forall|kk: int| 0 <= kk < self@.clients.len() implies #[trigger] same_keys(self@.clients[kk], v0.clients[kk]) by {
                assert(same_keys(self@.clients[kk], v1.clients[kk]));
            }
            let e = added(old(fx)@, fx@);
            assert(e =~= monocle_fx(v0, m as int, mans, nt as int));
            assert(monocle_with_all(v0, m as int, self@.clients, e, fq, mans));
            assert(fx@ =~= old(fx)@ + e);
            lemma_prefix_concat(old(fx)@, e);
        }
    }
}


/// State `v` with monitor `m` showing layout symbol `sym`.
pub open spec fn with_symbol(v: WmView, m: int, sym: Seq<u8>) -> WmView {
    WmView { mons: v.mons.update(m, MonitorView { ltsymbol: sym, ..v.mons[m] }), ..v }
}

/// The layout monitor `m` has selected.
pub open spec fn sel_layout(v: WmView, m: int) -> Layout {
    pick(v.mons[m].lt, v.mons[m].sellt as int)
}

/// The tiling layout took `v` to `v2` on monitor `m`.
pub open spec fn tile_post<F: Fn(FloatQuery) -> (i32, i32)>(v: WmView, m: int, v2: WmView, fq: &F) -> bool {
    &&& geometry_only(v2, v)
    &&& (forall|id: int| 0 <= id < v.clients.len() && !tiled_seq(v, v.mons[m].clients).contains(id as usize)
            ==> #[trigger] v2.clients[id] == v.clients[id])
    &&& tiled_as_layout(v, m, v2.clients, fq)
}

/// The monocle layout took `v` to `v2` on monitor `m`.
pub open spec fn monocle_post<F: Fn(FloatQuery) -> (i32, i32)>(v: WmView, m: int, v2: WmView, fq: &F) -> bool {
    let n = count_visible(v, v.mons[m].clients);
    let mv = v.mons[m];
    let ts = tiled_seq(v, v.mons[m].clients);
    &&& v2.clients.len() == v.clients.len()
    &&& (forall|k: int| 0 <= k < v2.clients.len() ==> #[trigger] same_keys(v2.clients[k], v.clients[k]))
    &&& v2 == WmView {
            clients: v2.clients,
            mons: v.mons.update(m, MonitorView { ltsymbol: if n > 0 { monocle_symbol(n) } else { mv.ltsymbol }, ..mv }),
            ..v
        }
    &&& (forall|id: int| 0 <= id < v.clients.len() && !ts.contains(id as usize) ==> #[trigger] v2.clients[id] == v.clients[id])
    &&& (forall|k: int| 0 <= k < ts.len() ==> #[trigger] monocle_done(v, m, v2.clients, ts[k] as int, fq))
}

/// Arranging monitor `m` took `v` to `v2`: its layout symbol was set and its
/// layout, if any, placed its tiled clients.
pub open spec fn arrangemon_post<F: Fn(FloatQuery) -> (i32, i32)>(v: WmView, m: int, v2: WmView, fq: &F) -> bool {
    let l = sel_layout(v, m);
    let v1 = with_symbol(v, m, cstr16(spec_layout_symbol(l)));
    match spec_layout_arrange(l) {
        None => v2 == v1,
        Some(Arrange::Tile) => tile_post(v1, m, v2, fq),
        Some(Arrange::Monocle) => monocle_post(v1, m, v2, fq),
    }
}

/// Arranging monitor `m` with its layout took `v` to `v2` and made the
/// requests `e`: those of the tiling or the monocle layout, none for a layout
/// that arranges nothing.
pub open spec fn arrangemon_fx<F: Fn(FloatQuery) -> (i32, i32)>(v: WmView, m: int, v2: WmView, e: Seq<Effect>, fq: &F) -> bool {
    let l = sel_layout(v, m);
    let v1 = with_symbol(v, m, cstr16(spec_layout_symbol(l)));
    &&& arrangemon_post(v, m, v2, fq)
    &&& match spec_layout_arrange(l) {
            None => e == Seq::<Effect>::empty(),
            Some(Arrange::Tile) => tiled_fx(v1, m, v2.clients, e, fq),
            Some(Arrange::Monocle) => monocle_fx_done(v1, m, v2.clients, e, fq),
        }
}

/// The stacking requests for the tiled clients of `s`, each below the one
/// before, the first below `sibling`.
pub open spec fn stacking_effects(v: WmView, s: Seq<usize>, sibling: u64) -> Seq<Effect>
    decreases s.len(),
{
    if s.len() == 0 {
        Seq::empty()
    } else {
        let c = v.clients[s[0] as int];
        if !c.isfloating && v.visible(s[0] as int) {
            seq![Effect::StackBelow { win: c.win, sibling: sibling }] + stacking_effects(v, s.drop_first(), c.win)
        } else {
            stacking_effects(v, s.drop_first(), sibling)
        }
    }
}

/// The requests of restacking monitor `m`: redraw its bar; raise the selected
/// client where it floats or no layout arranges; stack the tiled clients in
/// focus order below the bar; then wait and drop crossing events.
pub open spec fn restack_effects(v: WmView, m: int) -> Seq<Effect> {
    let mon = v.mons[m];
    seq![Effect::DrawBar { mon: m as usize }] + match mon.sel {
        None => Seq::empty(),
        Some(s) => {
            let c = v.clients[s as int];
            (if c.isfloating || !has_arrange(v, m) { seq![Effect::Raise { win: c.win }] } else { Seq::empty() })
            + (if has_arrange(v, m) { stacking_effects(v, mon.stack, mon.barwin) } else { Seq::empty() })
            + seq![Effect::Sync, Effect::DrainEnterEvents]
        },
    }
}

impl Wm {
    /// Sets monitor `m`'s layout symbol from its selected layout, then lets
    /// that layout place the tiled clients.
    pub fn arrangemon<F: Fn(FloatQuery) -> (i32, i32)>(&mut self, m: usize, fq: &F, fx: &mut Vec<Effect>)
        requires
            old(self)@.wf(),
            m < old(self)@.mons.len(),
            answers_all(fq),
        ensures
            final(self)@.wf(),
            arrangemon_post(old(self)@, m as int, final(self)@, fq),
            old(fx)@.is_prefix_of(final(fx)@),
            final(fx)@ == old(fx)@ + added(old(fx)@, final(fx)@),
            arrangemon_fx(old(self)@, m as int, final(self)@, added(old(fx)@, final(fx)@), fq),
    {
        let ghost v0 = self@;
        proof { assert(v0.mon_ok(m as int)); }
        let l = self.mons[m].lt[self.mons[m].sellt];
        let sym = crate::config::layout_symbol(l);
        let sym16 = to_cstr16(&sym);
        self.mons[m].ltsymbol = sym16;
        proof {
            let v1 = with_symbol(v0, m as int, cstr16(spec_layout_symbol(l)));
            assert(self@.mons =~= v1.mons);
            assert(self@.names =~= v1.names);
            assert(self@ == v1);
            assert(frame_eq(v1, v0)) by {
                assert forall|kk: int| 0 <= kk < v1.clients.len() implies #[trigger] same_keys(v1.clients[kk], v0.clients[kk]) by {}
                assert forall|mm: int| 0 <= mm < v1.mons.len() implies
                    #[trigger] v1.mons[mm] == MonitorView { ltsymbol: v1.mons[mm].ltsymbol, ..v0.mons[mm] } by {}
            }
            lemma_wf_symbols(v1, v0);
        }
        match crate::config::layout_arrange(l) {
            Some(Arrange::Tile) => {
                self.tile(m, fq, fx);
            },
            Some(Arrange::Monocle) => {
                self.monocle(m, fq, fx);
            },
            None => {
                proof {
                    assert(fx@ =~= old(fx)@);
                    assert(added(old(fx)@, fx@) =~= Seq::<Effect>::empty());
                    assert(fx@ =~= old(fx)@ + added(old(fx)@, fx@));
                }
            },
        }
    }

    /// Requests the stacking order of monitor `m`.
    pub fn restack(&self, m: usize, fx: &mut Vec<Effect>)
        requires
            self@.wf(),
            m < self@.mons.len(),
        ensures
            final(fx)@ == old(fx)@ + restack_effects(self@, m as int),
    {
        let ghost v = self@;
        proof { assert(v.mon_ok(m as int)); }
        fx.push(Effect::DrawBar { mon: m });
        match self.mons[m].sel {
            None => {
                proof { assert(fx@ =~= old(fx)@ + restack_effects(v, m as int)); }
            },
            Some(s) => {
                let ghost fx1 = fx@;
                proof {
                    assert(v.mons[m as int].clients.contains(s));
                    let j = choose|j: int| 0 <= j < v.mons[m as int].clients.len() && v.mons[m as int].clients[j] == s;
                    assert(v.client_on(v.mons[m as int].clients[j] as int, m as int));
                }
                let cl = self.clients[s];
                let arr = self.layout_has_arrange(m);
                if cl.isfloating || !arr {
                    fx.push(Effect::Raise { win: cl.win });
                }
                let ghost fx2 = fx@;
                if arr {
                    let mut sibling = self.mons[m].barwin;
                    let n = self.mons[m].stack.len();
                    let ghost st = v.mons[m as int].stack;
                    let mut i: usize = 0;
                    proof { assert(st.subrange(0, n as int) =~= st); }
                    while i < n
                        invariant
                            self@ == v,
                            v.wf(),
                            v.mon_ok(m as int),
                            m < v.mons.len(),
                            st == v.mons[m as int].stack,
                            n == st.len(),
                            i <= n,
                            fx@ + stacking_effects(v, st.subrange(i as int, n as int), sibling)
                                == fx2 + stacking_effects(v, st, v.mons[m as int].barwin),
                        decreases n - i,
                    {
                        let c = self.mons[m].stack[i];
                        proof {
                            assert(v.client_on(st[i as int] as int, m as int));
                            assert(st.subrange(i as int, n as int).drop_first() =~= st.subrange(i + 1, n as int));
                            assert(st.subrange(i as int, n as int)[0] == c);
                        }
                        let ci = self.clients[c];
                        if !ci.isfloating && self.isvisible(c) {
                            let ghost before = fx@;
                            fx.push(Effect::StackBelow { win: ci.win, sibling });
                            proof {
                                assert(fx@ + stacking_effects(v, st.subrange(i + 1, n as int), ci.win)
                                    =~= before + stacking_effects(v, st.subrange(i as int, n as int), sibling));
                            }
                            sibling = ci.win;
                        }
                        i += 1;
                    }
                    proof { assert(fx@ =~= fx@ + stacking_effects(v, st.subrange(n as int, n as int), sibling)); }
                }
                fx.push(Effect::Sync);
                fx.push(Effect::DrainEnterEvents);
                proof {
                    assert(fx@ =~= old(fx)@ + restack_effects(v, m as int));
                }
            },
        }
    }

    /// Shows and hides the clients of monitor `m` (of every monitor, for
    /// `None`), lets the layouts place them, and restacks monitor `m`.
    pub fn arrange<F: Fn(FloatQuery) -> (i32, i32)>(&mut self, m: Option<usize>, fq: &F, fx: &mut Vec<Effect>)
        requires
            old(self)@.wf(),
            m matches Some(mm) ==> mm < old(self)@.mons.len(),
            answers_all(fq),
        ensures
            final(self)@.wf(),
            frame_eq(final(self)@, old(self)@),
            final(self)@.names == old(self)@.names,
            final(self)@.selmon == old(self)@.selmon,
            m matches Some(mm) ==> arranged(old(self)@, mm as int, final(self)@, fq),
            m matches Some(mm) ==> exists|fxm: Seq<Effect>| old(fx)@.is_prefix_of(fxm)
                && #[trigger] final(fx)@ == fxm + restack_effects(final(self)@, mm as int),
            m is None ==> arranged_all(old(self)@, final(self)@, fq),
            old(fx)@.is_prefix_of(final(fx)@),
            final(fx)@ == old(fx)@ + added(old(fx)@, final(fx)@),
            m matches Some(mm) ==> arranged_fx(old(self)@, mm as int, final(self)@, added(old(fx)@, final(fx)@), fq),
            m is None ==> arranged_all_fx(old(self)@, final(self)@, added(old(fx)@, final(fx)@), fq),
    {
        let ghost v0 = self@;
        match m {
            Some(mm) => {
                self.showhide(mm, fq, fx);
                let ghost v1 = self@;
                let ghost fx1 = fx@;
                self.arrangemon(mm, fq, fx);
                let ghost fx2 = fx@;
                proof { lemma_arrangemon_frame(v1, mm as int, self@, fq); lemma_frame_trans(self@, v1, v0); }
                let ghost fxm = fx@;
                self.restack(mm, fx);
                proof {
                    assert(geometry_only(v1, v0));
                    lemma_geometry_frame(v1, v0);
                    assert(arranged(v0, mm as int, self@, fq));
                    assert(old(fx)@.is_prefix_of(fxm));
                    assert(fx@ == fxm + restack_effects(self@, mm as int));
                    assert(fxm.is_prefix_of(fx@));
                    lemma_prefix_trans(old(fx)@, fxm, fx@);
                    let e1 = added(old(fx)@, fx1);
                    let e2 = added(fx1, fx2);
                    let e = added(old(fx)@, fx@);
                    assert(e =~= e1 + e2 + restack_effects(self@, mm as int));
                    assert(arranged_parts(v0, mm as int, v1, self@, e, e1, e2, fq));
                    assert(fx@ =~= old(fx)@ + e);
                }
            },
            None => {
                let n = self.mons.len();
                let mut i: usize = 0;
                let ghost mut ss: Seq<WmView> = seq![v0];
                let ghost mut es: Seq<Seq<Effect>> = Seq::empty();
                proof { lemma_frame_refl(v0); }
                while i < n
                    invariant
                        self@.wf(),
                        answers_all(fq),
                        n == self@.mons.len(),
                        n == v0.mons.len(),
                        frame_eq(self@, v0),
                        self@.names == v0.names,
                        self@.selmon == v0.selmon,
                        i <= n,
                        old(fx)@.is_prefix_of(fx@),
                        ss.len() == i + 1,
                        ss[0] == v0,
                        ss[i as int] == self@,
                        forall|k: int| 0 <= k < i ==> #[trigger] shown_step(ss, k, fq),
                        es.len() == i,
                        forall|k: int| 0 <= k < i ==> #[trigger] shown_step_fx(ss, es, k, fq),
                        fx@ == old(fx)@ + concat_fx(es, i as int),
                    decreases n - i,
                {
                    let ghost cur = self@;
                    let ghost fx0 = fx@;
                    let ghost ss0 = ss;
                    let ghost es0 = es;
                    self.showhide(i, fq, fx);
                    proof {
                        lemma_geometry_frame(self@, cur);
                        lemma_frame_trans(self@, cur, v0);
                        lemma_prefix_trans(old(fx)@, fx0, fx@);
                        ss = ss.push(self@);
                        es = es.push(added(fx0, fx@));
                        assert forall|k: int| 0 <= k < i + 1 implies #[trigger] shown_step(ss, k, fq) by {
                            if k < i {
                                assert(shown_step(ss0, k, fq));
                                assert(ss[k] == ss0[k] && ss[k + 1] == ss0[k + 1]);
                            } else {
                                assert(ss[k] == cur && ss[k + 1] == self@);
                            }
                        }
                        assert forall|k: int| 0 <= k < i + 1 implies #[trigger] shown_step_fx(ss, es, k, fq) by {
                            if k < i {
                                assert(shown_step_fx(ss0, es0, k, fq));
                                assert(ss[k] == ss0[k] && ss[k + 1] == ss0[k + 1] && es[k] == es0[k]);
                            } else {
                                assert(ss[k] == cur && ss[k + 1] == self@);
                                assert(shown_step(ss, k, fq));
                            }
                        }
                        assert(forall|l: int| 0 <= l < i ==> es[l] == es0[l]);
                        lemma_concat_fx_frame(es, es0, i as int);
                        assert(fx@ =~= old(fx)@ + concat_fx(es, i + 1));
                    }
                    i += 1;
                }
                let mut i: usize = 0;
                let ghost mut ts: Seq<WmView> = seq![self@];
                let ghost mut ls: Seq<Seq<Effect>> = Seq::empty();
                let ghost fxs = fx@;
                while i < n
                    invariant
                        self@.wf(),
                        answers_all(fq),
                        n == self@.mons.len(),
                        frame_eq(self@, v0),
                        self@.names == v0.names,
                        self@.selmon == v0.selmon,
                        i <= n,
                        old(fx)@.is_prefix_of(fx@),
                        ts.len() == i + 1,
                        ts[i as int] == self@,
                        n == v0.mons.len(),
                        ss.len() == n + 1,
                        ss[0] == v0,
                        ts[0] == ss[n as int],
                        forall|k: int| 0 <= k < n ==> #[trigger] shown_step(ss, k, fq),
                        forall|k: int| 0 <= k < i ==> #[trigger] laid_step(ts, k, fq),
                        es.len() == n,
                        forall|k: int| 0 <= k < n ==> #[trigger] shown_step_fx(ss, es, k, fq),
                        fxs == old(fx)@ + concat_fx(es, n as int),
                        ls.len() == i,
                        forall|k: int| 0 <= k < i ==> #[trigger] laid_step_fx(ts, ls, k, fq),
                        fx@ == fxs + concat_fx(ls, i as int),
                    decreases n - i,
                {
                    let ghost cur = self@;
                    let ghost fx0 = fx@;
                    let ghost ts0 = ts;
                    let ghost ls0 = ls;
                    self.arrangemon(i, fq, fx);
                    proof {
                        lemma_arrangemon_frame(cur, i as int, self@, fq);
                        lemma_frame_trans(self@, cur, v0);
                        lemma_prefix_trans(old(fx)@, fx0, fx@);
                        ts = ts.push(self@);
                        ls = ls.push(added(fx0, fx@));
                        assert forall|k: int| 0 <= k < i + 1 implies #[trigger] laid_step(ts, k, fq) by {
                            if k < i {
                                assert(laid_step(ts0, k, fq));
                                assert(ts[k] == ts0[k] && ts[k + 1] == ts0[k + 1]);
                            } else {
                                assert(ts[k] == cur && ts[k + 1] == self@);
                            }
                        }
                        assert forall|k: int| 0 <= k < i + 1 implies #[trigger] laid_step_fx(ts, ls, k, fq) by {
                            if k < i {
                                assert(laid_step_fx(ts0, ls0, k, fq));
                                assert(ts[k] == ts0[k] && ts[k + 1] == ts0[k + 1] && ls[k] == ls0[k]);
                            } else {
                                assert(ts[k] == cur && ts[k + 1] == self@);
                            }
                        }
                        assert(forall|l: int| 0 <= l < i ==> ls[l] == ls0[l]);
                        lemma_concat_fx_frame(ls, ls0, i as int);
                        assert(fx@ =~= fxs + concat_fx(ls, i + 1));
                    }
                    i += 1;
                }
                proof {
                    assert(arrange_chain(v0, ss, ts, self@, fq));
                    let e = added(old(fx)@, fx@);
                    assert(e =~= concat_fx(es, n as int) + concat_fx(ls, n as int));
                    assert(arrange_chain_fx(v0, ss, ts, es, ls, self@, e, fq));
                    assert(fx@ =~= old(fx)@ + e);
                }
            },
        }
    }
}

/// Step `k` of the walk over all monitors: showing and hiding the clients of
/// monitor `k` took `ss[k]` to `ss[k + 1]`.
pub open spec fn shown_step<F: Fn(FloatQuery) -> (i32, i32)>(ss: Seq<WmView>, k: int, fq: &F) -> bool {
    &&& geometry_only(ss[k + 1], ss[k])
    &&& showhide_post(ss[k], k, ss[k + 1].clients, fq)
}

/// Step `k` of the second walk over all monitors: arranging monitor `k` took
/// `ts[k]` to `ts[k + 1]`.
pub open spec fn laid_step<F: Fn(FloatQuery) -> (i32, i32)>(ts: Seq<WmView>, k: int, fq: &F) -> bool {
    arrangemon_post(ts[k], k, ts[k + 1], fq)
}

/// The states `ss` show and hide the clients of each monitor in turn,
/// starting from `v`; then the states `ts` arrange each monitor in turn,
/// ending in `v2`.
pub open spec fn arrange_chain<F: Fn(FloatQuery) -> (i32, i32)>(
    v: WmView, ss: Seq<WmView>, ts: Seq<WmView>, v2: WmView, fq: &F,
) -> bool {
    let n = v.mons.len() as int;
    &&& ss.len() == n + 1
    &&& ts.len() == n + 1
    &&& ss[0] == v
    &&& ts[0] == ss[n]
    &&& ts[n] == v2
    &&& forall|k: int| 0 <= k < n ==> #[trigger] shown_step(ss, k, fq)
    &&& forall|k: int| 0 <= k < n ==> #[trigger] laid_step(ts, k, fq)
}

/// Arranging every monitor took `v` to `v2`: the clients of all monitors
/// were shown or hidden, monitor by monitor, then each monitor was arranged.
pub open spec fn arranged_all<F: Fn(FloatQuery) -> (i32, i32)>(v: WmView, v2: WmView, fq: &F) -> bool {
    exists|ss: Seq<WmView>, ts: Seq<WmView>| #[trigger] arrange_chain(v, ss, ts, v2, fq)
}

/// The requests of chunks `cs[0..k]`, in order.
pub open spec fn concat_fx(cs: Seq<Seq<Effect>>, k: int) -> Seq<Effect>
    decreases k,
{
    if k <= 0 { Seq::empty() } else { concat_fx(cs, k - 1) + cs[k - 1] }
}

/// Chunks after the first `k` do not change what the first `k` request.
pub proof fn lemma_concat_fx_frame(c1: Seq<Seq<Effect>>, c2: Seq<Seq<Effect>>, k: int)
    requires
        forall|l: int| 0 <= l < k ==> c1[l] == c2[l],
    ensures
        concat_fx(c1, k) == concat_fx(c2, k),
    decreases k,
{
    if k > 0 {
        lemma_concat_fx_frame(c1, c2, k - 1);
    }
}

/// Arranging monitor `m` took `v` through `v1` (its clients shown or hidden,
/// with the requests `e1`) to `v2` (its layout applied, with the requests
/// `e2`), and the requests `e` were those, then the restacking.
pub open spec fn arranged_parts<F: Fn(FloatQuery) -> (i32, i32)>(
    v: WmView, m: int, v1: WmView, v2: WmView, e: Seq<Effect>, e1: Seq<Effect>, e2: Seq<Effect>, fq: &F,
) -> bool {
    &&& geometry_only(v1, v)
    &&& showhide_fx(v, m, v1.clients, e1, fq)
    &&& arrangemon_fx(v1, m, v2, e2, fq)
    &&& e == e1 + e2 + restack_effects(v2, m)
}

/// Arranging monitor `m` took `v` to `v2` and made the requests `e`.
pub open spec fn arranged_fx<F: Fn(FloatQuery) -> (i32, i32)>(v: WmView, m: int, v2: WmView, e: Seq<Effect>, fq: &F) -> bool {
    &&& arranged(v, m, v2, fq)
    &&& exists|v1: WmView, e1: Seq<Effect>, e2: Seq<Effect>| #[trigger] arranged_parts(v, m, v1, v2, e, e1, e2, fq)
}

/// Step `k` of the walk showing and hiding the clients of every monitor made
/// the requests `es[k]`.
pub open spec fn shown_step_fx<F: Fn(FloatQuery) -> (i32, i32)>(ss: Seq<WmView>, es: Seq<Seq<Effect>>, k: int, fq: &F) -> bool {
    &&& shown_step(ss, k, fq)
    &&& showhide_fx(ss[k], k, ss[k + 1].clients, es[k], fq)
}

/// Step `k` of the walk arranging every monitor made the requests `ls[k]`.
pub open spec fn laid_step_fx<F: Fn(FloatQuery) -> (i32, i32)>(ts: Seq<WmView>, ls: Seq<Seq<Effect>>, k: int, fq: &F) -> bool {
    arrangemon_fx(ts[k], k, ts[k + 1], ls[k], fq)
}

/// Arranging every monitor took `v` to `v2` through the states `ss` and `ts`,
/// and the requests `e` were those of showing and hiding each monitor's
/// clients (`es`), then those of each monitor's layout (`ls`).
pub open spec fn arrange_chain_fx<F: Fn(FloatQuery) -> (i32, i32)>(
    v: WmView, ss: Seq<WmView>, ts: Seq<WmView>, es: Seq<Seq<Effect>>, ls: Seq<Seq<Effect>>, v2: WmView, e: Seq<Effect>, fq: &F,
) -> bool {
    let n = v.mons.len() as int;
    &&& arrange_chain(v, ss, ts, v2, fq)
    &&& es.len() == n
    &&& ls.len() == n
    &&& forall|k: int| 0 <= k < n ==> #[trigger] shown_step_fx(ss, es, k, fq)
    &&& forall|k: int| 0 <= k < n ==> #[trigger] laid_step_fx(ts, ls, k, fq)
    &&& e == concat_fx(es, n) + concat_fx(ls, n)
}

/// Arranging every monitor took `v` to `v2` and made the requests `e`.
pub open spec fn arranged_all_fx<F: Fn(FloatQuery) -> (i32, i32)>(v: WmView, v2: WmView, e: Seq<Effect>, fq: &F) -> bool {
    exists|ss: Seq<WmView>, ts: Seq<WmView>, es: Seq<Seq<Effect>>, ls: Seq<Seq<Effect>>|
        #[trigger] arrange_chain_fx(v, ss, ts, es, ls, v2, e, fq)
}

/// Arranging monitor `m` took `v` to `v2`: its clients were shown or hidden,
/// then its layout placed them.
pub open spec fn arranged<F: Fn(FloatQuery) -> (i32, i32)>(v: WmView, m: int, v2: WmView, fq: &F) -> bool {
    &&& frame_eq(v2, v)
    &&& v2.names == v.names
    &&& v2.selmon == v.selmon
    &&& exists|v1: WmView| {
            &&& #[trigger] geometry_only(v1, v)
            &&& showhide_post(v, m, v1.clients, fq)
            &&& arrangemon_post(v1, m, v2, fq)
        }
}

pub proof fn lemma_frame_refl(v: WmView)
    ensures
        frame_eq(v, v),
{
    assert forall|kk: int| 0 <= kk < v.clients.len() implies #[trigger] same_keys(v.clients[kk], v.clients[kk]) by {}
    assert forall|mm: int| 0 <= mm < v.mons.len() implies
        #[trigger] v.mons[mm] == MonitorView { ltsymbol: v.mons[mm].ltsymbol, ..v.mons[mm] } by {}
}

pub proof fn lemma_frame_trans(a: WmView, b: WmView, c: WmView)
    requires
        frame_eq(a, b),
        frame_eq(b, c),
    ensures
        frame_eq(a, c),
{
    assert forall|kk: int| 0 <= kk < a.clients.len() implies #[trigger] same_keys(a.clients[kk], c.clients[kk]) by {
        assert(same_keys(a.clients[kk], b.clients[kk]));
        assert(same_keys(b.clients[kk], c.clients[kk]));
    }
    assert forall|mm: int| 0 <= mm < a.mons.len() implies
        #[trigger] a.mons[mm] == MonitorView { ltsymbol: a.mons[mm].ltsymbol, ..c.mons[mm] } by {
        assert(a.mons[mm] == MonitorView { ltsymbol: a.mons[mm].ltsymbol, ..b.mons[mm] });
        assert(b.mons[mm] == MonitorView { ltsymbol: b.mons[mm].ltsymbol, ..c.mons[mm] });
    }
}

pub proof fn lemma_arrangemon_frame<F: Fn(FloatQuery) -> (i32, i32)>(v: WmView, m: int, v2: WmView, fq: &F)
    requires
        v.wf(),
        0 <= m < v.mons.len(),
        arrangemon_post(v, m, v2, fq),
    ensures
        frame_eq(v2, v),
        v2.names == v.names,
        v2.selmon == v.selmon,
{
    let l = sel_layout(v, m);
    let v1 = with_symbol(v, m, cstr16(spec_layout_symbol(l)));
    assert(frame_eq(v1, v)) by {
        assert forall|kk: int| 0 <= kk < v1.clients.len() implies #[trigger] same_keys(v1.clients[kk], v.clients[kk]) by {}
        assert forall|mm: int| 0 <= mm < v1.mons.len() implies
            #[trigger] v1.mons[mm] == MonitorView { ltsymbol: v1.mons[mm].ltsymbol, ..v.mons[mm] } by {}
    }
    match spec_layout_arrange(l) {
        None => {},
        Some(Arrange::Tile) => {
            lemma_geometry_frame(v2, v1);
            lemma_frame_trans(v2, v1, v);
        },
        Some(Arrange::Monocle) => {
            let n = count_visible(v1, v1.mons[m].clients);
            assert(frame_eq(v2, v1)) by {
                assert forall|mm: int| 0 <= mm < v2.mons.len() implies
                    #[trigger] v2.mons[mm] == MonitorView { ltsymbol: v2.mons[mm].ltsymbol, ..v1.mons[mm] } by {}
            }
            lemma_frame_trans(v2, v1, v);
        },
    }
}

} // verus!
