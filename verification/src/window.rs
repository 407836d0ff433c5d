use vstd::prelude::*;
use crate::engine::{i32w, max_i, min_i, wrap};
use crate::model::{Client, MonitorView, Wm, WmView};

verus! {

/// Client `c` answers to window `w`: by its own window, or, for
/// `swallowed`, by the window of the terminal it swallowed.
pub open spec fn answers_to(c: Client, w: u64, swallowed: bool) -> bool {
    if swallowed { c.swallowing == Some(w) } else { c.win == w }
}

/// The first client of `s` that answers to `w`.
pub open spec fn first_answering(v: WmView, s: Seq<usize>, w: u64, swallowed: bool) -> Option<usize>
    decreases s.len(),
{
    if s.len() == 0 {
        None
    } else if answers_to(v.clients[s[0] as int], w, swallowed) {
        Some(s[0])
    } else {
        first_answering(v, s.drop_first(), w, swallowed)
    }
}

/// The first client that answers to `w` in the client lists of monitors
/// `k`, `k + 1`, and so on.
pub open spec fn client_for(v: WmView, k: int, w: u64, swallowed: bool) -> Option<usize>
    decreases v.mons.len() - k,
{
    if k < 0 || k >= v.mons.len() {
        None
    } else {
        match first_answering(v, v.mons[k].clients, w, swallowed) {
            Some(c) => Some(c),
            None => client_for(v, k + 1, w, swallowed),
        }
    }
}

proof fn lemma_first_answering_step(v: WmView, s: Seq<usize>, i: int, w: u64, sw: bool)
    requires
        0 <= i < s.len(),
    ensures
        first_answering(v, s.subrange(i, s.len() as int), w, sw) ==
            (if answers_to(v.clients[s[i] as int], w, sw) { Some(s[i]) }
             else { first_answering(v, s.subrange(i + 1, s.len() as int), w, sw) }),
{
    assert(s.subrange(i, s.len() as int).drop_first() =~= s.subrange(i + 1, s.len() as int));
}

/// The first client found in `s` is one of its clients.
pub proof fn lemma_first_answering_in(v: WmView, s: Seq<usize>, w: u64, sw: bool)
    ensures
        first_answering(v, s, w, sw) matches Some(c) ==> s.contains(c) && answers_to(v.clients[c as int], w, sw),
    decreases s.len(),
{
    if s.len() > 0 && !answers_to(v.clients[s[0] as int], w, sw) {
        lemma_first_answering_in(v, s.drop_first(), w, sw);
        if let Some(c) = first_answering(v, s.drop_first(), w, sw) {
            let j = choose|j: int| 0 <= j < s.drop_first().len() && s.drop_first()[j] == c;
            assert(s[j + 1] == c);
        }
    } else if s.len() > 0 {
        assert(s[0] == s[0]);
    }
}

/// A client found by window is listed on some monitor, so it is managed.
pub proof fn lemma_client_for_in(v: WmView, k: int, w: u64, sw: bool)
    requires
        v.wf(),
    ensures
        client_for(v, k, w, sw) matches Some(c) ==> (c as int) < v.clients.len() && v.clients[c as int].alive
            && answers_to(v.clients[c as int], w, sw),
    decreases v.mons.len() - k,
{
    if 0 <= k < v.mons.len() {
        lemma_first_answering_in(v, v.mons[k].clients, w, sw);
        match first_answering(v, v.mons[k].clients, w, sw) {
            Some(c) => {
                assert(v.mon_ok(k));
                let j = choose|j: int| 0 <= j < v.mons[k].clients.len() && v.mons[k].clients[j] == c;
                assert(v.client_on(v.mons[k].clients[j] as int, k));
            },
            None => { lemma_client_for_in(v, k + 1, w, sw); },
        }
    }
}

/// The area in which a rectangle and the window area of a monitor overlap,
/// computed in C `int`s.
pub open spec fn overlap(mv: MonitorView, x: i32, y: i32, w: i32, h: i32) -> i32 {
    let ax = max_i(0, i32w(min_i(i32w(x + w), i32w(mv.wx + mv.ww)) - max_i(x, mv.wx)));
    let ay = max_i(0, i32w(min_i(i32w(y + h), i32w(mv.wy + mv.wh)) - max_i(y, mv.wy)));
    i32w(ax * ay)
}

/// The monitor a rectangle overlaps most: the first of those with the
/// largest overlap, where some overlap is positive; else the selected monitor.
pub open spec fn rect_monitor(v: WmView, x: i32, y: i32, w: i32, h: i32, r: usize) -> bool {
    if forall|k: int| 0 <= k < v.mons.len() ==> #[trigger] overlap(v.mons[k], x, y, w, h) <= 0 {
        r == v.selmon
    } else {
        &&& (r as int) < v.mons.len()
        &&& forall|k: int| 0 <= k < v.mons.len() ==> #[trigger] overlap(v.mons[k], x, y, w, h) <= overlap(v.mons[r as int], x, y, w, h)
        &&& forall|k: int| 0 <= k < r ==> #[trigger] overlap(v.mons[k], x, y, w, h) < overlap(v.mons[r as int], x, y, w, h)
    }
}

/// The first monitor whose bar window is `w`.
pub open spec fn bar_monitor(v: WmView, k: int, w: u64) -> Option<usize>
    decreases v.mons.len() - k,
{
    if k < 0 || k >= v.mons.len() {
        None
    } else if v.mons[k].barwin == w {
        Some(k as usize)
    } else {
        bar_monitor(v, k + 1, w)
    }
}

/// `r` is the monitor of window `w`: for the root window, the one a
/// 1x1 rectangle at the pointer overlaps most, where the pointer position is
/// known; else the one whose bar `w` is; else the monitor of the client whose
/// window `w` is; else the selected monitor.
pub open spec fn window_monitor(v: WmView, w: u64, pointer: Option<(i32, i32)>, r: usize) -> bool {
    if w == v.root && pointer is Some {
        rect_monitor(v, pointer.unwrap().0, pointer.unwrap().1, 1, 1, r)
    } else if bar_monitor(v, 0, w) is Some {
        Some(r) == bar_monitor(v, 0, w)
    } else {
        match client_for(v, 0, w, false) {
            Some(c) => r == v.clients[c as int].mon,
            None => r == v.selmon,
        }
    }
}

/// The bytes of `s` before its first zero byte.
pub open spec fn before_nul(s: Seq<u8>) -> Seq<u8>
    decreases s.len(),
{
    if s.len() == 0 || s[0] == 0 {
        Seq::empty()
    } else {
        seq![s[0]] + before_nul(s.drop_first())
    }
}

/// The title shown for a window name property holding `text`: its C string,
/// cut to the 255 bytes that fit the title buffer, and "broken" where that
/// is empty.
pub open spec fn title_of(text: Seq<u8>) -> Seq<u8> {
    let p = before_nul(text);
    let t = if p.len() > 255 { p.take(255) } else { p };
    if t.len() == 0 { broken_title() } else { t }
}

/// The title of a window without a usable name.
pub open spec fn broken_title() -> Seq<u8> {
    seq![98u8, 114u8, 111u8, 107u8, 101u8, 110u8]
}

/// The C string of `text`, cut to `cap` bytes, as bytes.
pub fn cstr_bytes(text: &[u8], cap: usize) -> (r: Vec<u8>)
    ensures
        r@ == (if before_nul(text@).len() > cap { before_nul(text@).take(cap as int) } else { before_nul(text@) }),
{
    let mut r: Vec<u8> = Vec::new();
    let mut i: usize = 0;
    let n = text.len();
    proof { assert(text@.subrange(0, n as int) =~= text@); }
    while i < n && i < cap && text[i] != 0
        invariant
            n == text@.len(),
            i <= n,
            i <= cap,
            r@.len() == i,
            before_nul(text@) == r@ + before_nul(text@.subrange(i as int, n as int)),
        decreases n - i,
    {
        proof {
            let rest = text@.subrange(i as int, n as int);
            assert(rest.drop_first() =~= text@.subrange(i as int + 1, n as int));
            assert(rest[0] == text@[i as int]);
        }
        r.push(text[i]);
        proof {
            assert(r@ + before_nul(text@.subrange(i as int + 1, n as int)) =~=
                old_r_plus(r@.drop_last(), text@[i as int], before_nul(text@.subrange(i as int + 1, n as int))));
        }
        i += 1;
    }
    proof {
        let rest = text@.subrange(i as int, n as int);
        lemma_before_nul_len(rest);
        if i == n {
            assert(rest.len() == 0);
            assert(before_nul(text@) =~= r@);
        } else if text@[i as int] == 0 {
            assert(rest[0] == 0);
            assert(before_nul(text@) =~= r@);
        } else {
            assert(i == cap);
            assert(before_nul(text@).take(cap as int) =~= r@);
            if before_nul(rest).len() == 0 {
                assert(rest[0] != 0);
                assert(before_nul(rest) == seq![rest[0]] + before_nul(rest.drop_first()));
            }
        }
    }
    r
}

spec fn old_r_plus(a: Seq<u8>, b: u8, c: Seq<u8>) -> Seq<u8> {
    a + (seq![b] + c)
}

pub proof fn lemma_before_nul_len(s: Seq<u8>)
    ensures
        before_nul(s).len() <= s.len(),
    decreases s.len(),
{
    if s.len() > 0 && s[0] != 0 {
        lemma_before_nul_len(s.drop_first());
    }
}

/// The title to show for a window whose name property holds `text`.
pub fn title_for(text: &[u8]) -> (r: Vec<u8>)
    ensures
        r@ == title_of(text@),
{
    let t = cstr_bytes(text, 255);
    if t.len() == 0 {
        let b: Vec<u8> = vec![98u8, 114u8, 111u8, 107u8, 101u8, 110u8];
        proof { assert(b@ =~= broken_title()); }
        b
    } else {
        t
    }
}


/// The status text shown where the root window has no name: "dwm-" and the
/// version.
pub open spec fn default_status() -> Seq<u8> {
    seq![100u8, 119u8, 109u8, 45u8, 54u8, 46u8, 50u8]
}

impl Wm {
    /// The first client in the first client list (monitor by monitor) of
    /// monitor `k` on that answers to window `w`.
    fn first_answering_in(&self, k: usize, w: u64, swallowed: bool) -> (r: Option<usize>)
        requires
            self@.wf(),
            (k as int) < self@.mons.len(),
        ensures
            r == first_answering(self@, self@.mons[k as int].clients, w, swallowed),
    {
        let ghost s = self@.mons[k as int].clients;
        proof { assert(self@.mon_ok(k as int)); }
        let n = self.mons[k].clients.len();
        let mut i: usize = 0;
        proof { assert(s.subrange(0, n as int) =~= s); }
        while i < n
            invariant
                self@.wf(),
                (k as int) < self@.mons.len(),
                s == self@.mons[k as int].clients,
                n == s.len(),
                i <= n,
                forall|j: int| 0 <= j < s.len() ==> #[trigger] self@.client_on(s[j] as int, k as int),
                first_answering(self@, s.subrange(i as int, n as int), w, swallowed) == first_answering(self@, s, w, swallowed),
            decreases n - i,
        {
            let c = self.mons[k].clients[i];
            proof {
                assert(self@.client_on(s[i as int] as int, k as int));
                lemma_first_answering_step(self@, s, i as int, w, swallowed);
            }
            let hit = if swallowed { self.clients[c].swallowing == Some(w) } else { self.clients[c].win == w };
            if hit {
                return Some(c);
            }
            i += 1;
        }
        proof { assert(s.subrange(n as int, n as int).len() == 0); }
        None
    }

    /// The first client, monitor by monitor, that answers to window `w`.
    fn find_client(&self, w: u64, swallowed: bool) -> (r: Option<usize>)
        requires
            self@.wf(),
        ensures
            r == client_for(self@, 0, w, swallowed),
    {
        let n = self.mons.len();
        let mut k: usize = 0;
        while k < n
            invariant
                self@.wf(),
                n == self@.mons.len(),
                k <= n,
                client_for(self@, k as int, w, swallowed) == client_for(self@, 0, w, swallowed),
            decreases n - k,
        {
            match self.first_answering_in(k, w, swallowed) {
                Some(c) => { return Some(c); },
                None => {},
            }
            k += 1;
        }
        None
    }

    /// The managed client whose window is `w`.
    pub fn wintoclient(&self, w: u64) -> (r: Option<usize>)
        requires
            self@.wf(),
        ensures
            r == client_for(self@, 0, w, false),
            r matches Some(c) ==> (c as int) < self@.clients.len() && self@.clients[c as int].alive
                && self@.clients[c as int].win == w,
    {
        proof { lemma_client_for_in(self@, 0, w, false); }
        self.find_client(w, false)
    }

    /// The managed client that swallowed the terminal whose window is `w`.
    pub fn swallowingclient(&self, w: u64) -> (r: Option<usize>)
        requires
            self@.wf(),
        ensures
            r == client_for(self@, 0, w, true),
            r matches Some(c) ==> (c as int) < self@.clients.len() && self@.clients[c as int].alive
                && self@.clients[c as int].swallowing == Some(w),
    {
        proof { lemma_client_for_in(self@, 0, w, true); }
        self.find_client(w, true)
    }

    /// The area in which a rectangle overlaps the window area of monitor `m`.
    pub fn intersect(&self, x: i32, y: i32, w: i32, h: i32, m: usize) -> (r: i32)
        requires
            (m as int) < self@.mons.len(),
        ensures
            r == overlap(self@.mons[m as int], x, y, w, h),
    {
        let mon = &self.mons[m];
        let right = crate::util::min_i32(wrap(x as i64 + w as i64), wrap(mon.wx as i64 + mon.ww as i64));
        let ax = crate::util::max_i32(0, wrap(right as i64 - crate::util::max_i32(x, mon.wx) as i64));
        let bottom = crate::util::min_i32(wrap(y as i64 + h as i64), wrap(mon.wy as i64 + mon.wh as i64));
        let ay = crate::util::max_i32(0, wrap(bottom as i64 - crate::util::max_i32(y, mon.wy) as i64));
        proof {
            assert(0 <= ax <= 0x7fff_ffff);
            assert(0 <= ay <= 0x7fff_ffff);
            assert(0 <= ax as int * ay as int <= 0x7fff_ffff * 0x7fff_ffff) by (nonlinear_arith)
                requires 0 <= ax <= 0x7fff_ffff, 0 <= ay <= 0x7fff_ffff;
        }
        wrap(ax as i64 * ay as i64)
    }

    /// The monitor that a rectangle overlaps most.
    pub fn recttomon(&self, x: i32, y: i32, w: i32, h: i32) -> (r: usize)
        requires
            self@.wf(),
        ensures
            rect_monitor(self@, x, y, w, h, r),
            (r as int) < self@.mons.len(),
    {
        let n = self.mons.len();
        let mut best: usize = self.selmon;
        let mut area: i32 = 0;
        let mut k: usize = 0;
        while k < n
            invariant
                self@.wf(),
                n == self@.mons.len(),
                k <= n,
                (best as int) < n,
                area >= 0,
                area == 0 ==> best == self@.selmon,
                area > 0 ==> best < k && overlap(self@.mons[best as int], x, y, w, h) == area,
                forall|j: int| 0 <= j < k ==> #[trigger] overlap(self@.mons[j], x, y, w, h) <= area,
                area > 0 ==> forall|j: int| 0 <= j < best ==> #[trigger] overlap(self@.mons[j], x, y, w, h) < area,
            decreases n - k,
        {
            let a = self.intersect(x, y, w, h, k);
            if a > area {
                area = a;
                best = k;
            }
            k += 1;
        }
        proof {
            if area > 0 {
                assert(overlap(self@.mons[best as int], x, y, w, h) > 0);
            }
        }
        best
    }

    /// The first monitor whose bar window is `w`.
    fn bar_monitor_of(&self, w: u64) -> (r: Option<usize>)
        ensures
            r == bar_monitor(self@, 0, w),
    {
        let n = self.mons.len();
        let mut k: usize = 0;
        while k < n
            invariant
                n == self@.mons.len(),
                k <= n,
                bar_monitor(self@, k as int, w) == bar_monitor(self@, 0, w),
            decreases n - k,
        {
            if self.mons[k].barwin == w {
                return Some(k);
            }
            k += 1;
        }
        None
    }

    /// The monitor of window `w`: for the root window, the one under the
    /// pointer at `pointer` (where the pointer could be queried); the one whose
    /// bar `w` is; the one of the client whose window `w` is; else the selected
    /// monitor.
    pub fn wintomon(&self, w: u64, pointer: Option<(i32, i32)>) -> (r: usize)
        requires
            self@.wf(),
        ensures
            (r as int) < self@.mons.len(),
            window_monitor(self@, w, pointer, r),
    {
        if w == self.root {
            if let Some((px, py)) = pointer {
                return self.recttomon(px, py, 1, 1);
            }
        }
        if let Some(m) = self.bar_monitor_of(w) {
            proof { lemma_bar_monitor_range(self@, 0, w); }
            return m;
        }
        match self.wintoclient(w) {
            Some(c) => {
                proof { assert(self@.clients[c as int].alive); }
                self.clients[c].mon
            },
            None => self.selmon,
        }
    }

    /// Sets the title of client `c` from the name property `text` of its
    /// window.
    pub fn updatetitle(&mut self, c: usize, text: &[u8])
        requires
            (c as int) < old(self)@.clients.len(),
            old(self)@.names.len() == old(self)@.clients.len(),
        ensures
            final(self)@ == (WmView { names: old(self)@.names.update(c as int, title_of(text@)), ..old(self)@ }),
    {
        let t = title_for(text);
        self.names.set(c, t);
        proof {
            assert(self@.names =~= old(self)@.names.update(c as int, title_of(text@)));
            assert(self@.mons =~= old(self)@.mons);
        }
    }

    /// Sets the status text from the name property of the root window, or,
    /// where it has none, to "dwm-" and the version; then redraws the bar of
    /// the selected monitor.
    pub fn updatestatus(&mut self, text: Option<&[u8]>, fx: &mut Vec<crate::engine::Effect>)
        ensures
            final(self)@ == (WmView {
                stext: match text {
                    Some(t) => if before_nul(t@).len() > 255 { before_nul(t@).take(255) } else { before_nul(t@) },
                    None => default_status(),
                },
                ..old(self)@
            }),
            final(fx)@ == old(fx)@.push(crate::engine::Effect::DrawBar { mon: old(self)@.selmon }),
    {
        match text {
            Some(t) => { self.stext = cstr_bytes(t, 255); },
            None => {
                let d: Vec<u8> = vec![100u8, 119u8, 109u8, 45u8, 54u8, 46u8, 50u8];
                proof { assert(d@ =~= default_status()); }
                self.stext = d;
            },
        }
        proof {
            assert(self@.names =~= old(self)@.names);
            assert(self@.mons =~= old(self)@.mons);
        }
        fx.push(crate::engine::Effect::DrawBar { mon: self.selmon });
    }
}

proof fn lemma_bar_monitor_range(v: WmView, k: int, w: u64)
    ensures
        bar_monitor(v, k, w) matches Some(m) ==> (m as int) < v.mons.len(),
    decreases v.mons.len() - k,
{
    if 0 <= k < v.mons.len() && v.mons[k].barwin != w {
        lemma_bar_monitor_range(v, k + 1, w);
    }
}

} // verus!
