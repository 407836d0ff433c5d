use vstd::prelude::*;
use crate::commands::barpos;
use crate::config::{Layout, NMASTER, SHOWBAR, TOPBAR, spec_layout_symbol, layout_symbol};
use crate::engine::{Effect, FloatQuery, answers_all, cstr16, to_cstr16};
use crate::membership::{attached, detached, lemma_attached, lemma_without_set_client};
use crate::model::{Client, Monitor, MonitorView, Wm, WmView, MAX_CLIENTS};

verus! {

/// The geometry of a screen as Xinerama reports it.
#[derive(Clone, Copy, PartialEq, Eq, Structural, Debug)]
pub struct Geom {
    pub x: i32,
    pub y: i32,
    pub w: i32,
    pub h: i32,
}

/// A new monitor, as a value: one tag shown in both tag sets, the
/// configured master count and bar, tiling then monocle, no clients.
pub open spec fn new_monitor() -> MonitorView {
    MonitorView {
        ltsymbol: cstr16(spec_layout_symbol(Layout::Tile)),
        nmaster: NMASTER,
        num: 0,
        by: 0,
        mx: 0,
        my: 0,
        mw: 0,
        mh: 0,
        wx: 0,
        wy: 0,
        ww: 0,
        wh: 0,
        seltags: 0,
        sellt: 0,
        tagset: (1u32, 1u32),
        showbar: SHOWBAR != 0,
        topbar: TOPBAR != 0,
        clients: Seq::empty(),
        sel: None,
        stack: Seq::empty(),
        barwin: 0,
        lt: (Layout::Tile, Layout::Monocle),
    }
}

/// A new monitor.
pub fn createmon() -> (m: Monitor)
    ensures
        m@ == new_monitor(),
{
    let sym = layout_symbol(Layout::Tile);
    let m = Monitor {
        ltsymbol: to_cstr16(&sym),
        nmaster: NMASTER,
        num: 0,
        by: 0,
        mx: 0,
        my: 0,
        mw: 0,
        mh: 0,
        wx: 0,
        wy: 0,
        ww: 0,
        wh: 0,
        seltags: 0,
        sellt: 0,
        tagset: [1u32, 1u32],
        showbar: SHOWBAR != 0,
        topbar: TOPBAR != 0,
        clients: Vec::new(),
        sel: None,
        stack: Vec::new(),
        barwin: 0,
        lt: [Layout::Tile, Layout::Monocle],
    };
    proof { assert(m@.clients =~= Seq::<usize>::empty()); assert(m@.stack =~= Seq::<usize>::empty()); }
    m
}

impl Wm {
    /// The state of a window manager that manages nothing yet, on a screen
    /// of `sw` by `sh` pixels with root window `root`, a bar `bh` pixels
    /// high and `lrpad` pixels of padding round bar texts: one monitor.
    pub fn new(root: u64, sw: i32, sh: i32, bh: i32, lrpad: i32) -> (r: Wm)
        ensures
            r@.wf(),
            r@.mons == seq![new_monitor()],
            r@.clients.len() == 0,
            r@.selmon == 0,
            r@.root == root,
            r@.sw == sw,
            r@.sh == sh,
            r@.bh == bh,
            r@.lrpad == lrpad,
            r@.running,
            r@.numlockmask == 0,
            r@.motion_mon is None,
            r@.stext.len() == 0,
    {
        let mut mons: Vec<Monitor> = Vec::new();
        mons.push(createmon());
        let r = Wm {
            stext: Vec::new(),
            sw,
            sh,
            bh,
            blw: 0,
            lrpad,
            numlockmask: 0,
            running: true,
            clients: Vec::new(),
            names: Vec::new(),
            mons,
            selmon: 0,
            root,
            motion_mon: None,
        };
        proof {
            assert(r@.mons =~= seq![new_monitor()]);
            assert(r@.names =~= Seq::<Seq<u8>>::empty());
            assert(r@.mon_ok(0)) by {
                assert((1u32 & !0x1FFu32) == 0) by (bit_vector);
            }
        }
        r
    }
}

/// `g` is none of the geometries of `s`.
pub open spec fn unique_in(s: Seq<Geom>, g: Geom) -> bool {
    !s.contains(g)
}

/// The geometries of `s` without repetitions, each where it first occurs.
pub open spec fn dedup(s: Seq<Geom>) -> Seq<Geom>
    decreases s.len(),
{
    if s.len() == 0 {
        Seq::empty()
    } else {
        let d = dedup(s.drop_last());
        if d.contains(s.last()) { d } else { d.push(s.last()) }
    }
}

/// Whether geometry `g` is none of those of `unique`.
pub fn isuniquegeom(unique: &Vec<Geom>, g: Geom) -> (r: bool)
    ensures
        r == unique_in(unique@, g),
{
    let n = unique.len();
    let mut i: usize = 0;
    while i < n
        invariant
            n == unique@.len(),
            i <= n,
            forall|k: int| 0 <= k < i ==> unique@[k] != g,
        decreases n - i,
    {
        if unique[i] == g {
            return false;
        }
        i += 1;
    }
    true
}

/// The screen geometries without repetitions.
pub fn unique_geoms(s: &[Geom]) -> (r: Vec<Geom>)
    ensures
        r@ == dedup(s@),
{
    let mut r: Vec<Geom> = Vec::new();
    let n = s.len();
    let mut i: usize = 0;
    while i < n
        invariant
            n == s@.len(),
            i <= n,
            r@ == dedup(s@.subrange(0, i as int)),
        decreases n - i,
    {
        proof { assert(s@.subrange(0, i as int + 1).drop_last() =~= s@.subrange(0, i as int)); }
        if isuniquegeom(&r, s[i]) {
            r.push(s[i]);
        }
        i += 1;
    }
    proof { assert(s@.subrange(0, n as int) =~= s@); }
    r
}

/// Monitor `mv` taking screen number `i` with geometry `g`: its number, its
/// monitor and window areas, then its bar placed.
pub open spec fn on_screen(mv: MonitorView, i: int, g: Geom, bh: i32) -> MonitorView {
    barpos(MonitorView { num: i as i32, mx: g.x, wx: g.x, my: g.y, wy: g.y, mw: g.w, ww: g.w, mh: g.h, wh: g.h, ..mv }, bh)
}

/// Monitor `mv` at position `i` (of `n` that were there before) needs
/// screen `g`: it is new, or its geometry differs.
pub open spec fn needs_screen(mv: MonitorView, i: int, n: int, g: Geom) -> bool {
    i >= n || g.x != mv.mx || g.y != mv.my || g.w != mv.mw || g.h != mv.mh
}

/// The monitors when there are at least as many screens `gs` as monitors:
/// new monitors for the extra screens, and each monitor that needs it set
/// to its screen.
pub open spec fn grown_mons(v: WmView, gs: Seq<Geom>) -> Seq<MonitorView> {
    let n = v.mons.len() as int;
    Seq::new(gs.len(), |i: int| {
        let mv = mon_before(v, i);
        if needs_screen(mv, i, n, gs[i]) { on_screen(mv, i, gs[i], v.bh) } else { mv }
    })
}

/// Monitor `i` before it takes its screen: an existing one, or a new one.
pub open spec fn mon_before(v: WmView, i: int) -> MonitorView {
    if i < v.mons.len() { v.mons[i] } else { new_monitor() }
}

/// Client `c` moved to the head of the lists of monitor 0, its tags kept.
pub open spec fn moved_to_first(v: WmView, c: usize) -> WmView {
    attached(detached(v, c).set_client(c as int, on_first(v.clients[c as int])), c)
}

/// Client `cl` on monitor 0.
pub open spec fn on_first(cl: Client) -> Client {
    Client { mon: 0, ..cl }
}

/// The first `k` clients of monitor `m`'s list moved, one after the other,
/// to monitor 0.
pub open spec fn moved_n(v: WmView, m: int, k: nat) -> WmView
    decreases k,
{
    if k == 0 {
        v
    } else {
        moved_n(moved_to_first(v, v.mons[m].clients[0]), m, (k - 1) as nat)
    }
}

/// The last monitor removed: its clients first moved to monitor 0, the
/// selection moved to monitor 0 where it was the last one.
pub open spec fn without_last(v: WmView) -> WmView {
    let k = v.mons.len() - 1;
    let w = moved_n(v, k, v.mons[k].clients.len());
    WmView { mons: w.mons.drop_last(), selmon: if w.selmon == k { 0 } else { w.selmon }, ..w }
}

/// The last `t` monitors removed, one after the other.
pub open spec fn shrunk(v: WmView, t: nat) -> WmView
    decreases t,
{
    if t == 0 { v } else { shrunk(without_last(v), (t - 1) as nat) }
}


/// Moving the first `k + 1` clients is moving the first `k`, then the head
/// of what is left.
proof fn lemma_moved_n_step(v: WmView, m: int, k: nat)
    ensures
        moved_n(v, m, k + 1) == moved_to_first(moved_n(v, m, k), moved_n(v, m, k).mons[m].clients[0]),
    decreases k,
{
    let w = moved_to_first(v, v.mons[m].clients[0]);
    assert(moved_n(v, m, k + 1) == moved_n(w, m, k));
    if k > 0 {
        lemma_moved_n_step(w, m, (k - 1) as nat);
        assert(moved_n(v, m, k) == moved_n(w, m, (k - 1) as nat));
    } else {
        assert(moved_n(w, m, 0) == w);
        assert(moved_n(v, m, 0) == v);
    }
}

/// Moving a managed client of another monitor to monitor 0 keeps the state
/// well formed.
#[verifier::spinoff_prover]
proof fn lemma_moved_wf(v: WmView, c: usize)
    requires
        v.wf(),
        (c as int) < v.clients.len(),
        v.clients.len() <= usize::MAX,
        v.clients[c as int].alive,
        v.clients[c as int].mon != 0,
        v.clients.len() + 1 < MAX_CLIENTS,
    ensures
        moved_to_first(v, c).wf(),
{
    let d = detached(v, c);
    let nc = on_first(v.clients[c as int]);
    let d2 = d.set_client(c as int, nc);
    assert(d.wf_without(c as int) && d.clients == v.clients) by { crate::membership::lemma_detached(v, c); }
    assert(d2.wf_without(c as int)) by { lemma_without_set_client(d, c as int, nc); }
    assert(d2.mons[0].clients.len() + 1 < MAX_CLIENTS) by {
        assert(d.mons[0] == v.mons[0]);
        lemma_list_bounded(v, 0);
    }
    assert(WmView::tagset_ok(nc.tags)) by { assert(v.clients[c as int].alive); }
    lemma_attached(d2, c);
}

/// In a well formed state each monitor lists at most as many clients as the
/// client table holds.
pub proof fn lemma_list_bounded(v: WmView, m: int)
    requires
        v.wf(),
        0 <= m < v.mons.len(),
    ensures
        v.mons[m].clients.len() <= v.clients.len(),
{
    assert(v.mon_ok(m));
    let s = v.mons[m].clients;
    assert forall|k: int| 0 <= k < s.len() implies (#[trigger] s[k] as int) < v.clients.len() by {
        assert(v.client_on(s[k] as int, m));
    }
    crate::seqs::lemma_distinct_below(s, v.clients.len());
}

/// The screen setup Xinerama reports: none (a single screen), an answer
/// that could not be had, or the screens.
pub enum Screens {
    Single,
    Unavailable,
    Multi(Vec<Geom>),
}

/// The screens as values.
pub open spec fn screens_view(s: Screens) -> Option<Option<Seq<Geom>>> {
    match s {
        Screens::Single => None,
        Screens::Unavailable => Some(None),
        Screens::Multi(g) => Some(Some(g@)),
    }
}

/// The monitors after the screens changed, before the selection is looked
/// at again, and whether anything changed: a single screen resizes the first
/// monitor to the screen; with Xinerama, the monitors follow the distinct
/// screens, monitors being added or (the last ones, their clients moving to
/// the first monitor) removed.
pub open spec fn geom_update(v: WmView, screens: Option<Option<Seq<Geom>>>) -> (WmView, bool) {
    match screens {
        None => {
            let m0 = v.mons[0];
            if m0.mw != v.sw || m0.mh != v.sh {
                (v.set_mon(0, barpos(MonitorView { mw: v.sw, ww: v.sw, mh: v.sh, wh: v.sh, ..m0 }, v.bh)), true)
            } else {
                (v, false)
            }
        },
        Some(None) => (v, false),
        Some(Some(gs)) => {
            let u = dedup(gs);
            let n = v.mons.len() as int;
            if n <= u.len() {
                let g = grown_mons(v, u);
                (WmView { mons: g, ..v }, exists|i: int| 0 <= i < u.len() && #[trigger] needs_screen(mon_before(v, i), i, n, u[i]))
            } else {
                (shrunk(v, (n - u.len()) as nat), exists|i: int| u.len() <= i < n && (#[trigger] v.mons[i]).clients.len() > 0)
            }
        },
    }
}

/// The requests of removing the monitors from position `u` on, last first:
/// each bar window is unmapped and destroyed.
pub open spec fn removal_effects(v: WmView, u: int, n: int) -> Seq<Effect>
    decreases n - u,
{
    if n <= u {
        Seq::empty()
    } else {
        seq![Effect::UnmapWindow { win: v.mons[n - 1].barwin }, Effect::DestroyBar { win: v.mons[n - 1].barwin }]
            + removal_effects(v, u, n - 1)
    }
}

impl Wm {
    /// Moves client `c`, listed on a monitor other than 0, to the head of
    /// monitor 0's lists.
    fn move_one_first(&mut self, c: usize)
        requires
            old(self)@.wf(),
            (c as int) < old(self)@.clients.len(),
            old(self)@.clients[c as int].alive,
            old(self)@.clients[c as int].mon != 0,
            old(self)@.clients.len() + 1 < MAX_CLIENTS,
        ensures
            final(self)@.wf(),
            final(self)@ == moved_to_first(old(self)@, c),
    {
        let ghost cur = self@;
        let n = self.clients.len();
        proof { lemma_moved_wf(cur, c); }
        self.detach_both(c);
        let ghost d = self@;
        self.clients[c].mon = 0;
        proof {
            assert(self@.clients =~= d.set_client(c as int, on_first(cur.clients[c as int])).clients);
            assert(self@.names =~= d.names);
            assert(self@.mons =~= d.mons);
        }
        let ghost d2 = self@;
        self.attach(c);
        self.attachstack(c);
        proof {
            assert(self@.mons =~= attached(d2, c).mons);
            assert(self@.names =~= attached(d2, c).names);
        }
    }

    /// Moves the clients of monitor `m` to the head of monitor 0's lists,
    /// one after the other.
    fn move_clients_first(&mut self, m: usize)
        requires
            old(self)@.wf(),
            0 < m < old(self)@.mons.len(),
            old(self)@.clients.len() + 1 < MAX_CLIENTS,
        ensures
            final(self)@.wf(),
            final(self)@ == moved_n(old(self)@, m as int, old(self)@.mons[m as int].clients.len()),
            final(self)@.mons[m as int].clients.len() == 0,
            final(self)@.clients.len() == old(self)@.clients.len(),
            final(self)@.mons.len() == old(self)@.mons.len(),
            forall|i: int| 0 <= i < final(self)@.mons.len() ==> (#[trigger] final(self)@.mons[i]).barwin == old(self)@.mons[i].barwin,
    {
        let ghost v0 = self@;
        let ghost total = v0.mons[m as int].clients.len();
        let ghost mut k: nat = 0;
        while self.mons[m].clients.len() > 0
            invariant
                self@.wf(),
                0 < m < self@.mons.len(),
                self@.clients.len() == v0.clients.len(),
                self@.mons.len() == v0.mons.len(),
                v0.clients.len() + 1 < MAX_CLIENTS,
                self@ == moved_n(v0, m as int, k),
                self@.mons[m as int].clients.len() + k == total,
                total == v0.mons[m as int].clients.len(),
                forall|i: int| 0 <= i < self@.mons.len() ==> (#[trigger] self@.mons[i]).barwin == v0.mons[i].barwin,
            decreases self@.mons[m as int].clients.len(),
        {
            let ghost cur = self@;
            let c = self.mons[m].clients[0];
            proof {
                assert(cur.mon_ok(m as int));
                assert(cur.client_on(cur.mons[m as int].clients[0] as int, m as int));
                lemma_moved_n_step(v0, m as int, k);
                crate::seqs::lemma_remove_value_no_dup(cur.mons[m as int].clients, c);
                assert(cur.mons[m as int].clients.contains(c));
            }
            self.move_one_first(c);
            proof {
                k = k + 1;
            }
        }
    }
}


/// Removing the last `t + 1` monitors is removing the last `t`, then the
/// last of those left.
proof fn lemma_shrunk_step(v: WmView, t: nat)
    ensures
        shrunk(v, t + 1) == without_last(shrunk(v, t)),
    decreases t,
{
    let w = without_last(v);
    assert(shrunk(v, t + 1) == shrunk(w, t));
    if t > 0 {
        lemma_shrunk_step(w, (t - 1) as nat);
        assert(shrunk(v, t) == shrunk(w, (t - 1) as nat));
    }
}

/// The removal requests of one more monitor, below the ones before, come
/// last.
proof fn lemma_removal_step(v: WmView, u: int, n: int)
    requires
        1 <= u <= n,
    ensures
        removal_effects(v, u - 1, n) == removal_effects(v, u, n)
            + seq![Effect::UnmapWindow { win: v.mons[u - 1].barwin }, Effect::DestroyBar { win: v.mons[u - 1].barwin }],
    decreases n - u,
{
    if n == u {
        assert(removal_effects(v, u - 1, n - 1) == Seq::<Effect>::empty());
        assert(removal_effects(v, u - 1, n) =~= seq![Effect::UnmapWindow { win: v.mons[u - 1].barwin }, Effect::DestroyBar { win: v.mons[u - 1].barwin }]
            + Seq::<Effect>::empty());
    } else {
        lemma_removal_step(v, u, n - 1);
        let top = seq![Effect::UnmapWindow { win: v.mons[n - 1].barwin }, Effect::DestroyBar { win: v.mons[n - 1].barwin }];
        let low = seq![Effect::UnmapWindow { win: v.mons[u - 1].barwin }, Effect::DestroyBar { win: v.mons[u - 1].barwin }];
        assert(removal_effects(v, u - 1, n) == top + removal_effects(v, u - 1, n - 1));
        assert(removal_effects(v, u, n) == top + removal_effects(v, u, n - 1));
        assert(top + (removal_effects(v, u, n - 1) + low) =~= (top + removal_effects(v, u, n - 1)) + low);
    }
}

/// Dropping the last monitor, which lists no client, keeps the state well
/// formed once the selection is moved off it.
proof fn lemma_drop_last_wf(w: WmView)
    requires
        w.wf(),
        w.mons.len() > 1,
        w.mons[w.mons.len() - 1].clients.len() == 0,
    ensures
        (WmView { mons: w.mons.drop_last(), selmon: if w.selmon == w.mons.len() - 1 { 0 } else { w.selmon }, ..w }).wf(),
{
    let k = w.mons.len() - 1;
    let r = WmView { mons: w.mons.drop_last(), selmon: if w.selmon == k { 0 } else { w.selmon }, ..w };
    assert forall|m: int| 0 <= m < r.mons.len() implies #[trigger] r.mon_ok(m) by {
        assert(w.mon_ok(m));
        assert(r.mons[m] == w.mons[m]);
        let mon = w.mons[m];
        assert forall|j: int| 0 <= j < mon.clients.len() implies #[trigger] r.client_on(mon.clients[j] as int, m) by {
            assert(w.client_on(mon.clients[j] as int, m));
        }
        assert forall|j: int| 0 <= j < mon.stack.len() implies #[trigger] r.client_on(mon.stack[j] as int, m) by {
            assert(w.client_on(mon.stack[j] as int, m));
        }
    }
    assert forall|id: int| 0 <= id < r.clients.len() && (#[trigger] r.clients[id]).alive implies
        r.clients[id].mon < r.mons.len() && r.mons[r.clients[id].mon as int].clients.contains(id as usize)
        && WmView::tagset_ok(r.clients[id].tags) by {
        assert(w.clients[id].alive);
        let m = w.clients[id].mon as int;
        assert(w.mons[m].clients.contains(id as usize));
        if m == k {
            assert(w.mons[k].clients.len() == 0);
        }
    }
}

/// Adding a new monitor at the end keeps the state well formed.
proof fn lemma_push_monitor_wf(v: WmView)
    requires
        v.wf(),
    ensures
        (WmView { mons: v.mons.push(new_monitor()), ..v }).wf(),
{
    let r = WmView { mons: v.mons.push(new_monitor()), ..v };
    assert forall|m: int| 0 <= m < r.mons.len() implies #[trigger] r.mon_ok(m) by {
        if m < v.mons.len() {
            assert(w_mon(v, m));
            let mon = v.mons[m];
            assert(r.mons[m] == mon);
            assert forall|j: int| 0 <= j < mon.clients.len() implies #[trigger] r.client_on(mon.clients[j] as int, m) by {
                assert(v.client_on(mon.clients[j] as int, m));
            }
            assert forall|j: int| 0 <= j < mon.stack.len() implies #[trigger] r.client_on(mon.stack[j] as int, m) by {
                assert(v.client_on(mon.stack[j] as int, m));
            }
        } else {
            assert((1u32 & !0x1FFu32) == 0) by (bit_vector);
            assert(r.mons[m] == new_monitor());
        }
    }
    assert forall|id: int| 0 <= id < r.clients.len() && (#[trigger] r.clients[id]).alive implies
        r.clients[id].mon < r.mons.len() && r.mons[r.clients[id].mon as int].clients.contains(id as usize)
        && WmView::tagset_ok(r.clients[id].tags) by {
        assert(v.clients[id].alive);
    }
}

spec fn w_mon(v: WmView, m: int) -> bool {
    v.mon_ok(m)
}

impl Wm {
    /// Removes the last monitor, its clients moved to the first one, its bar
    /// window unmapped and destroyed.
    fn remove_last(&mut self, fx: &mut Vec<Effect>)
        requires
            old(self)@.wf(),
            old(self)@.mons.len() > 1,
            old(self)@.clients.len() + 1 < MAX_CLIENTS,
        ensures
            final(self)@.wf(),
            final(self)@ == without_last(old(self)@),
            final(self)@.clients.len() == old(self)@.clients.len(),
            final(self)@.mons.len() == old(self)@.mons.len() - 1,
            forall|i: int| 0 <= i < final(self)@.mons.len() ==> (#[trigger] final(self)@.mons[i]).barwin == old(self)@.mons[i].barwin,
            final(fx)@ == old(fx)@ + seq![
                Effect::UnmapWindow { win: old(self)@.mons[old(self)@.mons.len() - 1].barwin },
                Effect::DestroyBar { win: old(self)@.mons[old(self)@.mons.len() - 1].barwin },
            ],
    {
        let ghost v = self@;
        let k = self.mons.len() - 1;
        self.move_clients_first(k);
        let ghost w = self@;
        if self.selmon == k {
            self.selmon = 0;
        }
        let bar = self.mons[k].barwin;
        fx.push(Effect::UnmapWindow { win: bar });
        fx.push(Effect::DestroyBar { win: bar });
        self.mons.pop();
        proof {
            lemma_drop_last_wf(w);
            let t = without_last(v);
            assert(self@.mons =~= t.mons);
            assert(self@.names =~= t.names);
            assert(fx@ =~= old(fx)@ + seq![Effect::UnmapWindow { win: bar }, Effect::DestroyBar { win: bar }]);
        }
    }

    /// Appends a new monitor.
    fn push_monitor(&mut self)
        requires
            old(self)@.wf(),
        ensures
            final(self)@.wf(),
            final(self)@ == (WmView { mons: old(self)@.mons.push(new_monitor()), ..old(self)@ }),
    {
        let ghost v = self@;
        self.mons.push(createmon());
        proof {
            lemma_push_monitor_wf(v);
            assert(self@.mons =~= v.mons.push(new_monitor()));
            assert(self@.names =~= v.names);
        }
    }

    /// Sets monitor `i` to screen `g` and places its bar.
    fn take_screen(&mut self, i: usize, g: Geom)
        requires
            old(self)@.wf(),
            (i as int) < old(self)@.mons.len(),
        ensures
            final(self)@.wf(),
            final(self)@ == old(self)@.set_mon(i as int, on_screen(old(self)@.mons[i as int], i as int, g, old(self)@.bh)),
    {
        let ghost v = self@;
        proof { assert(v.mon_ok(i as int)); }
        #[verifier::truncate]
        let num = i as i32;
        self.mons[i].num = num;
        self.mons[i].mx = g.x;
        self.mons[i].wx = g.x;
        self.mons[i].my = g.y;
        self.mons[i].wy = g.y;
        self.mons[i].mw = g.w;
        self.mons[i].ww = g.w;
        self.mons[i].mh = g.h;
        self.mons[i].wh = g.h;
        let ghost nm = MonitorView { num: i as i32, mx: g.x, wx: g.x, my: g.y, wy: g.y, mw: g.w, ww: g.w, mh: g.h, wh: g.h, ..v.mons[i as int] };
        proof {
            assert(self@.mons =~= v.set_mon(i as int, nm).mons);
            assert(self@.names =~= v.names);
            crate::commands::lemma_wf_mon_geometry(v, i as int, nm);
        }
        self.updatebarpos(i);
        proof {
            assert(v.set_mon(i as int, nm).set_mon(i as int, barpos(nm, v.bh)).mons =~= v.set_mon(i as int, barpos(nm, v.bh)).mons);
        }
    }
}


/// The monitors with new ones appended up to `k` in all.
pub open spec fn padded(v: WmView, k: int) -> Seq<MonitorView> {
    Seq::new(k as nat, |j: int| mon_before(v, j))
}

/// The requests of following the screens `sv`: the bars of the monitors
/// that go are destroyed.
pub open spec fn updategeom_fx(v: WmView, sv: Option<Option<Seq<Geom>>>) -> Seq<Effect> {
    match sv {
        Some(Some(gs)) => if v.mons.len() > dedup(gs).len() {
            removal_effects(v, dedup(gs).len() as int, v.mons.len() as int)
        } else {
            Seq::empty()
        },
        _ => Seq::empty(),
    }
}

impl Wm {
    /// Follows a change of the screens: with a single screen, the first
    /// monitor takes its size; with Xinerama, monitors are added for new
    /// screens and set to changed ones, or the last ones removed; where
    /// anything changed, the monitor under the pointer becomes the selected
    /// one. Answers whether anything changed.
    pub fn updategeom(&mut self, screens: &Screens, pointer: Option<(i32, i32)>, fx: &mut Vec<Effect>) -> (dirty: bool)
        requires
            old(self)@.wf(),
            old(self)@.clients.len() + 1 < MAX_CLIENTS,
            screens matches Screens::Multi(g) ==> g@.len() > 0,
        ensures
            final(self)@.wf(),
            ({
                let v = old(self)@;
                let (t, d) = geom_update(v, screens_view(*screens));
                &&& dirty == d
                &&& d ==> exists|r: usize| #[trigger] crate::window::window_monitor(WmView { selmon: 0, ..t }, t.root, pointer, r)
                        && final(self)@ == (WmView { selmon: r, ..t })
                &&& !d ==> final(self)@ == t
                &&& final(fx)@ == match screens_view(*screens) {
                        Some(Some(gs)) => if v.mons.len() > dedup(gs).len() {
                            old(fx)@ + removal_effects(v, dedup(gs).len() as int, v.mons.len() as int)
                        } else {
                            old(fx)@
                        },
                        _ => old(fx)@,
                    }
            }),
    {
        let ghost v = self@;
        let d = match screens {
            Screens::Single => self.fit_single(),
            Screens::Unavailable => false,
            Screens::Multi(gs) => {
                let u = unique_geoms(gs.as_slice());
                proof { lemma_dedup_nonempty(gs@); }
                if self.mons.len() <= u.len() {
                    self.grow_to(&u)
                } else {
                    self.shrink_to(u.len(), fx)
                }
            },
        };
        proof {
            if !(screens matches Screens::Multi(_)) {
                assert(fx@ == old(fx)@);
            }
        }
        if d {
            let ghost t = self@;
            self.selmon = 0;
            proof {
                crate::events::lemma_wf_selmon(t, 0);
                assert(self@.names =~= t.names);
                assert(self@.mons =~= t.mons);
            }
            let m = self.wintomon(self.root, pointer);
            let ghost t0 = self@;
            self.selmon = m;
            proof {
                crate::events::lemma_wf_selmon(t0, m);
                assert(self@.names =~= t.names);
                assert(self@.mons =~= t.mons);
                assert(crate::window::window_monitor(WmView { selmon: 0, ..t }, t.root, pointer, m));
            }
        }
        d
    }

    /// A single screen: the first monitor takes the screen's size, where it
    /// differs.
    fn fit_single(&mut self) -> (d: bool)
        requires
            old(self)@.wf(),
        ensures
            final(self)@.wf(),
            (final(self)@, d) == geom_update(old(self)@, None),
    {
        let ghost v = self@;
        proof { assert(v.mon_ok(0)); }
        if self.mons[0].mw != self.sw || self.mons[0].mh != self.sh {
            let sw = self.sw;
            let sh = self.sh;
            self.mons[0].mw = sw;
            self.mons[0].ww = sw;
            self.mons[0].mh = sh;
            self.mons[0].wh = sh;
            let ghost nm = MonitorView { mw: v.sw, ww: v.sw, mh: v.sh, wh: v.sh, ..v.mons[0] };
            proof {
                assert(self@.mons =~= v.set_mon(0, nm).mons);
                assert(self@.names =~= v.names);
                crate::commands::lemma_wf_mon_geometry(v, 0, nm);
            }
            self.updatebarpos(0);
            proof {
                assert(v.set_mon(0, nm).set_mon(0, barpos(nm, v.bh)).mons =~= v.set_mon(0, barpos(nm, v.bh)).mons);
            }
            true
        } else {
            false
        }
    }

    /// At least as many distinct screens `u` as monitors: monitors are added
    /// for the extra screens, and each that needs it set to its screen.
    fn grow_to(&mut self, u: &Vec<Geom>) -> (d: bool)
        requires
            old(self)@.wf(),
            old(self)@.mons.len() <= u@.len(),
        ensures
            final(self)@.wf(),
            final(self)@ == (WmView { mons: grown_mons(old(self)@, u@), ..old(self)@ }),
            d == exists|i: int| 0 <= i < u@.len() && #[trigger] needs_screen(mon_before(old(self)@, i), i, old(self)@.mons.len() as int, u@[i]),
    {
        let ghost v = self@;
        let n = self.mons.len();
        proof { assert(self@.mons =~= padded(v, n as int)); }
        while self.mons.len() < u.len()
            invariant
                self@.wf(),
                n == v.mons.len(),
                n <= self@.mons.len() <= u@.len(),
                self@ == (WmView { mons: padded(v, self@.mons.len() as int), ..v }),
            decreases u@.len() - self@.mons.len(),
        {
            let ghost k = self@.mons.len();
            self.push_monitor();
            proof { assert(padded(v, k as int).push(new_monitor()) =~= padded(v, k as int + 1)); }
        }
        let mut dirty = false;
        let mut i: usize = 0;
        while i < u.len()
            invariant
                self@.wf(),
                n == v.mons.len(),
                self@.mons.len() == u@.len(),
                i <= u@.len(),
                self@ == (WmView { mons: self@.mons, ..v }),
                forall|j: int| 0 <= j < i ==> #[trigger] self@.mons[j] == grown_mons(v, u@)[j],
                forall|j: int| i <= j < u@.len() ==> #[trigger] self@.mons[j] == mon_before(v, j),
                dirty == exists|j: int| 0 <= j < i && #[trigger] needs_screen(mon_before(v, j), j, n as int, u@[j]),
            decreases u@.len() - i,
        {
            let g = u[i];
            let ghost mv = mon_before(v, i as int);
            proof { assert(self@.mons[i as int] == mv); }
            let needs = i >= n || g.x != self.mons[i].mx || g.y != self.mons[i].my || g.w != self.mons[i].mw || g.h != self.mons[i].mh;
            let ghost before = self@;
            if needs {
                self.take_screen(i, g);
                dirty = true;
            }
            proof {
                assert forall|j: int| 0 <= j < i + 1 implies #[trigger] self@.mons[j] == grown_mons(v, u@)[j] by {
                    if j < i { assert(self@.mons[j] == before.mons[j]); }
                }
                assert forall|j: int| i + 1 <= j < u@.len() implies #[trigger] self@.mons[j] == mon_before(v, j) by {
                    assert(self@.mons[j] == before.mons[j]);
                }
                assert(needs == needs_screen(mv, i as int, n as int, u@[i as int]));
                if needs {
                    assert(self@.mons =~= before.mons.update(i as int, self@.mons[i as int]));
                }
            }
            i += 1;
        }
        proof { assert(self@.mons =~= grown_mons(v, u@)); }
        dirty
    }

    /// Fewer distinct screens (`u` many) than monitors: the last monitors are
    /// removed, their clients moved to the first monitor.
    fn shrink_to(&mut self, u: usize, fx: &mut Vec<Effect>) -> (d: bool)
        requires
            old(self)@.wf(),
            0 < u < old(self)@.mons.len(),
            old(self)@.clients.len() + 1 < MAX_CLIENTS,
        ensures
            final(self)@.wf(),
            final(self)@ == shrunk(old(self)@, (old(self)@.mons.len() - u) as nat),
            d == exists|i: int| u <= i < old(self)@.mons.len() && (#[trigger] old(self)@.mons[i]).clients.len() > 0,
            final(fx)@ == old(fx)@ + removal_effects(old(self)@, u as int, old(self)@.mons.len() as int),
    {
        let ghost v = self@;
        let n = self.mons.len();
        let mut d = false;
        let mut i = u;
        while i < n
            invariant
                n == self@.mons.len(),
                self@ == v,
                u <= i <= n,
                d == exists|j: int| u <= j < i && (#[trigger] v.mons[j]).clients.len() > 0,
            decreases n - i,
        {
            let has = self.mons[i].clients.len() > 0;
            proof { assert(has == (v.mons[i as int].clients.len() > 0)); }
            if has {
                d = true;
            }
            proof {
                if has {
                    assert(u <= i < i + 1 && v.mons[i as int].clients.len() > 0);
                }
            }
            i += 1;
        }
        let mut t: usize = 0;
        proof {
            assert(removal_effects(v, n as int, n as int) == Seq::<Effect>::empty());
            assert(fx@ =~= old(fx)@ + removal_effects(v, n as int, n as int));
        }
        while t < n - u
            invariant
                self@.wf(),
                n == v.mons.len(),
                0 < u < n,
                t <= n - u,
                self@.mons.len() == n - t,
                self@.clients.len() == v.clients.len(),
                v.clients.len() + 1 < MAX_CLIENTS,
                self@ == shrunk(v, t as nat),
                forall|j: int| 0 <= j < self@.mons.len() ==> (#[trigger] self@.mons[j]).barwin == v.mons[j].barwin,
                fx@ == old(fx)@ + removal_effects(v, (n - t) as int, n as int),
            decreases n - u - t,
        {
            let ghost fx0 = fx@;
            self.remove_last(fx);
            proof {
                lemma_shrunk_step(v, t as nat);
                lemma_removal_step(v, (n - t) as int, n as int);
                assert(fx@ =~= old(fx)@ + removal_effects(v, (n - t - 1) as int, n as int));
            }
            t += 1;
        }
        d
    }
}

pub proof fn lemma_dedup_nonempty(s: Seq<Geom>)
    requires
        s.len() > 0,
    ensures
        dedup(s).len() > 0,
    decreases s.len(),
{
    if s.len() > 1 {
        lemma_dedup_nonempty(s.drop_last());
    } else {
        assert(dedup(s.drop_last()) == Seq::<Geom>::empty());
    }
}


/// Client `c`, where it is fullscreen, resized to fill monitor `k`.
pub open spec fn refit_one(v: WmView, c: usize, k: int) -> WmView {
    let cl = v.clients[c as int];
    let m = v.mons[k];
    if (c as int) < v.clients.len() && cl.isfullscreen {
        v.set_client(c as int, crate::engine::resized(v, c as int, m.mx, m.my, m.mw, m.mh))
    } else {
        v
    }
}

/// The fullscreen clients of `s`, in order, resized to fill monitor `k`.
pub open spec fn refit_seq(v: WmView, s: Seq<usize>, k: int) -> WmView
    decreases s.len(),
{
    if s.len() == 0 { v } else { refit_seq(refit_one(v, s[0], k), s.drop_first(), k) }
}

/// The requests of refitting client `c` to monitor `k`: a fullscreen client
/// is resized to fill it.
pub open spec fn refit_one_fx(v: WmView, c: usize, k: int) -> Seq<Effect> {
    let cl = v.clients[c as int];
    let m = v.mons[k];
    if (c as int) < v.clients.len() && cl.isfullscreen {
        crate::engine::resize_effects(v, c as int, m.mx, m.my, m.mw, m.mh)
    } else {
        Seq::empty()
    }
}

/// The requests of refitting the clients of `s`, in order, to monitor `k`.
pub open spec fn refit_seq_fx(v: WmView, s: Seq<usize>, k: int) -> Seq<Effect>
    decreases s.len(),
{
    if s.len() == 0 { Seq::empty() } else { refit_one_fx(v, s[0], k) + refit_seq_fx(refit_one(v, s[0], k), s.drop_first(), k) }
}

/// The requests of refitting the fullscreen clients of monitors `k`, `k + 1`,
/// and so on, each monitor's bar moved after its clients.
pub open spec fn refit_from_fx(v: WmView, k: int) -> Seq<Effect>
    decreases v.mons.len() - k,
{
    if k < 0 || k >= v.mons.len() {
        Seq::empty()
    } else {
        proof { lemma_refit_seq_frame(v, v.mons[k].clients, k); }
        let m = v.mons[k];
        refit_seq_fx(v, m.clients, k)
            + seq![Effect::MoveBar { mon: k as usize, x: m.wx, y: m.by, w: m.ww, h: v.bh }]
            + refit_from_fx(refit_seq(v, m.clients, k), k + 1)
    }
}

/// The parts of handling a change of the root window's size to `width` by
/// `height` with the screens `sv`, from `v` to `v3`: the screens looked at
/// again (to `v2`), and where anything changed, the drawing surface resized,
/// the bars created, the fullscreen clients refitted and the bars moved, the
/// focus reset and every monitor arranged (requests `ea`); `e` is all the
/// requests in order.
pub open spec fn configure_parts<F: Fn(FloatQuery) -> (i32, i32)>(
    v: WmView, width: i32, height: i32, sv: Option<Option<Seq<Geom>>>, pointer: Option<(i32, i32)>,
    v3: WmView, e: Seq<Effect>, v2: WmView, ea: Seq<Effect>, fq: &F,
) -> bool {
    let v1 = WmView { sw: width, sh: height, ..v };
    let (t, d) = geom_update(v1, sv);
    let changed = d || v.sw != width || v.sh != height;
    let ug = updategeom_fx(v1, sv);
    &&& settled(t, d, pointer, v2)
    &&& if changed {
            &&& crate::engine::arranged_all_fx(crate::focus::focus_state(refit_from(v2, 0), None), v3, ea, fq)
            &&& e == ug + seq![Effect::ResizeDrawable { w: v2.sw, h: v2.bh }, Effect::UpdateBars] + refit_from_fx(v2, 0)
                    + crate::focus::focus_effects(refit_from(v2, 0), None) + ea
        } else {
            v3 == v2 && e == ug
        }
}

/// Arranging every monitor after the fullscreen clients of `v2` were
/// refitted and the focus reset took it to `v3`, with the requests `ea`.
pub open spec fn settle_change_fx<F: Fn(FloatQuery) -> (i32, i32)>(v2: WmView, v3: WmView, ea: Seq<Effect>, fq: &F) -> bool {
    crate::engine::arranged_all_fx(crate::focus::focus_state(refit_from(v2, 0), None), v3, ea, fq)
}

/// The fullscreen clients of monitors `k`, `k + 1`, and so on resized to
/// fill their monitors.
pub open spec fn refit_from(v: WmView, k: int) -> WmView
    decreases v.mons.len() - k,
{
    if k < 0 || k >= v.mons.len() {
        v
    } else {
        proof { lemma_refit_seq_frame(v, v.mons[k].clients, k); }
        refit_from(refit_seq(v, v.mons[k].clients, k), k + 1)
    }
}

pub proof fn lemma_refit_seq_frame(v: WmView, s: Seq<usize>, k: int)
    ensures
        refit_seq(v, s, k).mons == v.mons,
        refit_seq(v, s, k).clients.len() == v.clients.len(),
        refit_seq(v, s, k).bh == v.bh,
        refit_seq(v, s, k).sw == v.sw,
    decreases s.len(),
{
    if s.len() > 0 {
        lemma_refit_seq_frame(refit_one(v, s[0], k), s.drop_first(), k);
    }
}

/// After the screens were looked at (state `t`, `d` whether anything
/// changed) the state is `v2`: where anything changed, the monitor under the
/// pointer is the selected one.
pub open spec fn settled(t: WmView, d: bool, pointer: Option<(i32, i32)>, v2: WmView) -> bool {
    if d {
        crate::window::window_monitor(WmView { selmon: 0, ..t }, t.root, pointer, v2.selmon)
            && v2 == (WmView { selmon: v2.selmon, ..t })
    } else {
        v2 == t
    }
}

impl Wm {
    /// Resizes the fullscreen clients of monitor `k` to fill it.
    fn refit_monitor(&mut self, k: usize, fx: &mut Vec<Effect>)
        requires
            old(self)@.wf(),
            (k as int) < old(self)@.mons.len(),
        ensures
            final(self)@.wf(),
            final(self)@ == refit_seq(old(self)@, old(self)@.mons[k as int].clients, k as int),
            final(fx)@ == old(fx)@ + refit_seq_fx(old(self)@, old(self)@.mons[k as int].clients, k as int),
    {
        let ghost v = self@;
        let ghost s = v.mons[k as int].clients;
        proof { assert(v.mon_ok(k as int)); assert(s.subrange(0, s.len() as int) =~= s); }
        let n = self.mons[k].clients.len();
        let mut j: usize = 0;
        while j < n
            invariant
                self@.wf(),
                (k as int) < self@.mons.len(),
                self@.mons == v.mons,
                s == v.mons[k as int].clients,
                n == s.len(),
                j <= n,
                forall|i: int| 0 <= i < s.len() ==> #[trigger] v.client_on(s[i] as int, k as int),
                self@.clients.len() == v.clients.len(),
                refit_seq(self@, s.subrange(j as int, n as int), k as int) == refit_seq(v, s, k as int),
                fx@ + refit_seq_fx(self@, s.subrange(j as int, n as int), k as int) == old(fx)@ + refit_seq_fx(v, s, k as int),
            decreases n - j,
        {
            let c = self.mons[k].clients[j];
            let ghost cur = self@;
            let ghost f0 = fx@;
            proof {
                assert(v.client_on(s[j as int] as int, k as int));
                let rest = s.subrange(j as int, n as int);
                assert(rest.drop_first() =~= s.subrange(j as int + 1, n as int));
                assert(rest[0] == c);
                assert(cur.clients[c as int].alive) by {
                    assert(cur.mons[k as int].clients.contains(c));
                    assert(cur.mon_ok(k as int));
                    let q = choose|q: int| 0 <= q < cur.mons[k as int].clients.len() && cur.mons[k as int].clients[q] == c;
                    assert(cur.client_on(cur.mons[k as int].clients[q] as int, k as int));
                }
            }
            if self.clients[c].isfullscreen {
                let (mx, my, mw, mh) = (self.mons[k].mx, self.mons[k].my, self.mons[k].mw, self.mons[k].mh);
                self.resizeclient(c, mx, my, mw, mh, fx);
                proof { assert(self@.mons =~= cur.mons); }
            }
            proof {
                assert(self@ == refit_one(cur, c, k as int));
                let rest = s.subrange(j as int, n as int);
                assert(fx@ =~= f0 + refit_one_fx(cur, c, k as int));
                assert(refit_seq_fx(cur, rest, k as int) == refit_one_fx(cur, c, k as int)
                    + refit_seq_fx(refit_one(cur, c, k as int), s.subrange(j as int + 1, n as int), k as int));
                assert(fx@ + refit_seq_fx(self@, s.subrange(j as int + 1, n as int), k as int)
                    =~= f0 + refit_seq_fx(cur, rest, k as int));
            }
            j += 1;
        }
        proof {
            assert(s.subrange(n as int, n as int).len() == 0);
            assert(refit_seq_fx(self@, s.subrange(n as int, n as int), k as int) =~= Seq::<Effect>::empty());
            assert(fx@ =~= fx@ + refit_seq_fx(self@, s.subrange(n as int, n as int), k as int));
        }
    }

    /// After the screens changed: the drawing surface is resized, the bars
    /// created, the fullscreen clients refitted and the bars moved, the focus
    /// reset and every monitor arranged.
    fn settle_change<F: Fn(FloatQuery) -> (i32, i32)>(&mut self, fq: &F, fx: &mut Vec<Effect>)
        requires
            old(self)@.wf(),
            answers_all(fq),
        ensures
            final(self)@.wf(),
            crate::engine::arranged_all(crate::focus::focus_state(refit_from(old(self)@, 0), None), final(self)@, fq),
            exists|ea: Seq<Effect>| #[trigger] settle_change_fx(old(self)@, final(self)@, ea, fq)
                && final(fx)@ == old(fx)@ + seq![Effect::ResizeDrawable { w: old(self)@.sw, h: old(self)@.bh }, Effect::UpdateBars]
                    + refit_from_fx(old(self)@, 0) + crate::focus::focus_effects(refit_from(old(self)@, 0), None) + ea,
    {
        let ghost v2 = self@;
        fx.push(Effect::ResizeDrawable { w: self.sw, h: self.bh });
        fx.push(Effect::UpdateBars);
        let ghost fst = fx@;
        let n = self.mons.len();
        let mut k: usize = 0;
        while k < n
            invariant
                self@.wf(),
                n == self@.mons.len(),
                self@.mons == v2.mons,
                self@.bh == v2.bh,
                k <= n,
                refit_from(self@, k as int) == refit_from(v2, 0),
                fx@ + refit_from_fx(self@, k as int) == fst + refit_from_fx(v2, 0),
            decreases n - k,
        {
            let ghost cur = self@;
            let ghost f0 = fx@;
            self.refit_monitor(k, fx);
            proof { lemma_refit_seq_frame(cur, cur.mons[k as int].clients, k as int); }
            fx.push(Effect::MoveBar { mon: k, x: self.mons[k].wx, y: self.mons[k].by, w: self.mons[k].ww, h: self.bh });
            proof {
                let m = cur.mons[k as int];
                assert(refit_from_fx(cur, k as int) == refit_seq_fx(cur, m.clients, k as int)
                    + seq![Effect::MoveBar { mon: k, x: m.wx, y: m.by, w: m.ww, h: cur.bh }]
                    + refit_from_fx(self@, k + 1));
                assert(fx@ + refit_from_fx(self@, k + 1) =~= f0 + refit_from_fx(cur, k as int));
            }
            k += 1;
        }
        proof {
            assert(refit_from_fx(self@, n as int) =~= Seq::<Effect>::empty());
            assert(fx@ =~= fst + refit_from_fx(v2, 0));
            assert(self@ == refit_from(v2, 0));
        }
        self.focus(None, fx);
        let ghost ff = fx@;
        self.arrange(None, fq, fx);
        proof {
            let ea = crate::engine::added(ff, fx@);
            assert(settle_change_fx(v2, self@, ea, fq));
            assert(fx@ =~= old(fx)@ + seq![Effect::ResizeDrawable { w: v2.sw, h: v2.bh }, Effect::UpdateBars]
                + refit_from_fx(v2, 0) + crate::focus::focus_effects(refit_from(v2, 0), None) + ea);
        }
    }

    /// Handles a change of the root window's size to `width` by `height`:
    /// the screens are looked at again; where anything changed, the fullscreen
    /// clients are refitted, the bars moved, the focus reset and every monitor
    /// arranged.
    #[verifier::spinoff_prover]
    #[verifier::rlimit(80)]
    pub fn configurenotify<F: Fn(FloatQuery) -> (i32, i32)>(
        &mut self, win: u64, width: i32, height: i32, screens: &Screens, pointer: Option<(i32, i32)>, fq: &F, fx: &mut Vec<Effect>,
    )
        requires
            old(self)@.wf(),
            old(self)@.clients.len() + 1 < MAX_CLIENTS,
            screens matches Screens::Multi(g) ==> g@.len() > 0,
            answers_all(fq),
        ensures
            final(self)@.wf(),
            ({
                let v = old(self)@;
                if win != v.root {
                    final(self)@ == v && final(fx)@ == old(fx)@
                } else {
                    let v1 = WmView { sw: width, sh: height, ..v };
                    let (t, d) = geom_update(v1, screens_view(*screens));
                    let changed = d || v.sw != width || v.sh != height;
                    exists|v2: WmView| {
                        &&& #[trigger] settled(t, d, pointer, v2)
                        &&& if changed {
                                crate::engine::arranged_all(crate::focus::focus_state(refit_from(v2, 0), None), final(self)@, fq)
                            } else {
                                final(self)@ == v2
                            }
                    }
                }
            }),
            final(fx)@ == old(fx)@ + crate::engine::added(old(fx)@, final(fx)@),
            win != old(self)@.root ==> crate::engine::added(old(fx)@, final(fx)@) == Seq::<Effect>::empty(),
            win == old(self)@.root ==> exists|v2: WmView, ea: Seq<Effect>| #[trigger] configure_parts(old(self)@, width, height,
                screens_view(*screens), pointer, final(self)@, crate::engine::added(old(fx)@, final(fx)@), v2, ea, fq),
    {
        let ghost v = self@;
        if win != self.root {
            return;
        }
        let dirty = self.sw != width || self.sh != height;
        self.sw = width;
        self.sh = height;
        proof {
            assert(self@.names =~= v.names);
            assert(self@.mons =~= v.mons);
            assert(self@.wf()) by {
                let w = self@;
                assert forall|mm: int| 0 <= mm < w.mons.len() implies #[trigger] w.mon_ok(mm) by {
                    assert(v.mon_ok(mm));
                    let mon = v.mons[mm];
                    assert forall|q: int| 0 <= q < mon.clients.len() implies #[trigger] w.client_on(mon.clients[q] as int, mm) by {
                        assert(v.client_on(mon.clients[q] as int, mm));
                    }
                    assert forall|q: int| 0 <= q < mon.stack.len() implies #[trigger] w.client_on(mon.stack[q] as int, mm) by {
                        assert(v.client_on(mon.stack[q] as int, mm));
                    }
                }
                assert forall|id: int| 0 <= id < w.clients.len() && (#[trigger] w.clients[id]).alive implies
                    w.clients[id].mon < w.mons.len() && w.mons[w.clients[id].mon as int].clients.contains(id as usize)
                    && WmView::tagset_ok(w.clients[id].tags) by {
                    assert(v.clients[id].alive);
                }
            }
        }
        proof { assert(self@ == (WmView { sw: width, sh: height, ..v })); }
        let ghost v1 = self@;
        let d = self.updategeom(screens, pointer, fx);
        let ghost v2 = self@;
        let ghost fug = fx@;
        proof { assert(fug =~= old(fx)@ + updategeom_fx(v1, screens_view(*screens))); }
        let ghost mut ea: Seq<Effect> = Seq::empty();
        if d || dirty {
            self.settle_change(fq, fx);
            proof {
                ea = choose|ea: Seq<Effect>| #[trigger] settle_change_fx(v2, self@, ea, fq)
                    && fx@ == fug + seq![Effect::ResizeDrawable { w: v2.sw, h: v2.bh }, Effect::UpdateBars] + refit_from_fx(v2, 0)
                        + crate::focus::focus_effects(refit_from(v2, 0), None) + ea;
                let e = crate::engine::added(old(fx)@, fx@);
                assert(e =~= updategeom_fx(v1, screens_view(*screens)) + seq![Effect::ResizeDrawable { w: v2.sw, h: v2.bh }, Effect::UpdateBars]
                    + refit_from_fx(v2, 0) + crate::focus::focus_effects(refit_from(v2, 0), None) + ea);
                assert(settle_change_fx(v2, self@, ea, fq));
            }
        } else {
            proof {
                assert(crate::engine::added(old(fx)@, fx@) =~= updategeom_fx(v1, screens_view(*screens)));
            }
        }
        proof {
            let t = geom_update(WmView { sw: width, sh: height, ..v }, screens_view(*screens)).0;
            if d {
                assert(crate::window::window_monitor(WmView { selmon: 0, ..t }, t.root, pointer, v2.selmon));
            }
            assert(settled(t, d, pointer, v2));
            assert(fx@ =~= old(fx)@ + crate::engine::added(old(fx)@, fx@));
            let sv = screens_view(*screens);
            assert(geom_update(v1, sv).1 == d);
            assert(geom_update(v1, sv).0 == t);
            assert(configure_parts(v, width, height, sv, pointer, self@, crate::engine::added(old(fx)@, fx@), v2, ea, fq));
        }
    }
}


/// Moving the clients of a later monitor to monitor 0 keeps the state well
/// formed, the monitors and the client table as many.
pub proof fn lemma_moved_n_wf(v: WmView, m: int, k: nat)
    requires
        v.wf(),
        0 < m < v.mons.len(),
        k <= v.mons[m].clients.len(),
        v.clients.len() + 1 < MAX_CLIENTS,
    ensures
        moved_n(v, m, k).wf(),
        moved_n(v, m, k).mons.len() == v.mons.len(),
        moved_n(v, m, k).clients.len() == v.clients.len(),
        moved_n(v, m, k).mons[m].clients.len() == v.mons[m].clients.len() - k,
    decreases k,
{
    if k > 0 {
        let c = v.mons[m].clients[0];
        assert(v.mon_ok(m));
        assert(v.client_on(v.mons[m].clients[0] as int, m));
        lemma_moved_wf(v, c);
        let w = moved_to_first(v, c);
        crate::seqs::lemma_remove_value_no_dup(v.mons[m].clients, c);
        assert(v.mons[m].clients.contains(c));
        let d = detached(v, c);
        assert(d.mons[m].clients == v.mons[m].clients.remove_value(c));
        assert(w.mons[m].clients == d.mons[m].clients);
        lemma_moved_n_wf(w, m, (k - 1) as nat);
    }
}

/// Removing the last `t` monitors (fewer than there are) keeps the state
/// well formed and leaves that many fewer monitors.
pub proof fn lemma_shrunk(v: WmView, t: nat)
    requires
        v.wf(),
        t < v.mons.len(),
        v.clients.len() + 1 < MAX_CLIENTS,
    ensures
        shrunk(v, t).wf(),
        shrunk(v, t).mons.len() == v.mons.len() - t,
        shrunk(v, t).clients.len() == v.clients.len(),
    decreases t,
{
    if t > 0 {
        let k = v.mons.len() - 1;
        lemma_moved_n_wf(v, k, v.mons[k].clients.len());
        let w = moved_n(v, k, v.mons[k].clients.len());
        lemma_drop_last_wf(w);
        lemma_shrunk(without_last(v), (t - 1) as nat);
    }
}

/// Setting the monitors to at least as many screens keeps the state well
/// formed.
pub proof fn lemma_grown_wf(v: WmView, u: Seq<Geom>)
    requires
        v.wf(),
        v.mons.len() <= u.len(),
    ensures
        (WmView { mons: grown_mons(v, u), ..v }).wf(),
        grown_mons(v, u).len() == u.len(),
{
    let r = WmView { mons: grown_mons(v, u), ..v };
    let n = v.mons.len() as int;
    assert forall|m: int| 0 <= m < r.mons.len() implies #[trigger] r.mon_ok(m) by {
        if m < n {
            assert(v.mon_ok(m));
            let mon = v.mons[m];
            assert(r.mons[m].clients == mon.clients && r.mons[m].stack == mon.stack);
            assert forall|j: int| 0 <= j < mon.clients.len() implies #[trigger] r.client_on(mon.clients[j] as int, m) by {
                assert(v.client_on(mon.clients[j] as int, m));
            }
            assert forall|j: int| 0 <= j < mon.stack.len() implies #[trigger] r.client_on(mon.stack[j] as int, m) by {
                assert(v.client_on(mon.stack[j] as int, m));
            }
        } else {
            assert((1u32 & !0x1FFu32) == 0) by (bit_vector);
        }
    }
    assert forall|id: int| 0 <= id < r.clients.len() && (#[trigger] r.clients[id]).alive implies
        r.clients[id].mon < r.mons.len() && r.mons[r.clients[id].mon as int].clients.contains(id as usize)
        && WmView::tagset_ok(r.clients[id].tags) by {
        assert(v.clients[id].alive);
        let m = v.clients[id].mon as int;
        assert(r.mons[m].clients == v.mons[m].clients);
    }
}

} // verus!
