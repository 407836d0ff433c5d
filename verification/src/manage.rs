use vstd::prelude::*;
use crate::config::{BORDERPX, opt_view};
use crate::engine::{Effect, FloatQuery, answers_all, arranged, i32w, max_i, tdiv, div_trunc, wrap, width_of, height_of,
    lemma_prefix_concat, lemma_prefix_trans};
use crate::focus::{focus_state, unfocus_effects};
use crate::hints::{SizeHints, WmHints, fullscreen_on, sized, updatesizehints};
use crate::lifecycle::NORMAL_STATE;
use crate::membership::{attached, lemma_attached};
use crate::model::{Client, MonitorView, Ratio, Wm, WmView, MAX_CLIENTS};
use crate::rules::ruled;
use crate::swallow::{swallow_post, terminal_for};
use crate::window::{client_for, title_for, title_of};

verus! {

/// What the window manager learns of a window it is to manage: its id, its
/// attributes (geometry and border), the process behind it with that
/// process's ancestry (the process first, then its parent, and so on), its
/// name, the window it is transient for (where that hint is there), its
/// class and instance names (where it reports them), whether it asks to be
/// fullscreen or is a dialog, and its size and WM hints.
pub struct NewWindow {
    pub win: u64,
    pub x: i32,
    pub y: i32,
    pub width: i32,
    pub height: i32,
    pub border_width: i32,
    pub pid: i32,
    pub ancestry: Vec<i32>,
    pub title: Vec<u8>,
    pub transient: Option<u64>,
    pub class: Option<Vec<u8>>,
    pub instance: Option<Vec<u8>>,
    pub fullscreen: bool,
    pub dialog: bool,
    pub size: SizeHints,
    pub wmhints: Option<WmHints>,
}

/// A client for a new window: at the window's geometry, with no border, tag
/// or limits yet.
pub open spec fn initial_client(nw: NewWindow) -> Client {
    Client {
        alive: true,
        mina: Ratio { num: 0, den: 1 },
        maxa: Ratio { num: 0, den: 1 },
        x: nw.x,
        y: nw.y,
        w: nw.width,
        h: nw.height,
        oldx: nw.x,
        oldy: nw.y,
        oldw: nw.width,
        oldh: nw.height,
        basew: 0,
        baseh: 0,
        incw: 0,
        inch: 0,
        maxw: 0,
        maxh: 0,
        minw: 0,
        minh: 0,
        bw: 0,
        oldbw: nw.border_width,
        tags: 0,
        isfixed: false,
        isfloating: false,
        isurgent: false,
        neverfocus: false,
        oldstate: false,
        isfullscreen: false,
        isterminal: false,
        noswallow: false,
        pid: nw.pid,
        swallowing: None,
        mon: 0,
        win: nw.win,
    }
}

/// The managed client that a new window is transient for.
pub open spec fn transient_client(v: WmView, nw: NewWindow) -> Option<usize> {
    match nw.transient {
        Some(w) => client_for(v, 0, w, false),
        None => None,
    }
}

/// The new window has a transient-for hint naming a window.
pub open spec fn has_transient(nw: NewWindow) -> bool {
    nw.transient matches Some(w) && w != 0
}

/// A new client takes the monitor and tags of the client it is transient
/// for; else it sits on the selected monitor and the rules apply.
pub open spec fn owned(v: WmView, nw: NewWindow, c: Client) -> Client {
    match transient_client(v, nw) {
        Some(t) => Client { mon: v.clients[t as int].mon, tags: v.clients[t as int].tags, ..c },
        None => ruled(v, Client { mon: v.selmon, ..c }, title_of(nw.title@), opt_view(nw.class), opt_view(nw.instance)),
    }
}

/// A new client placed on its monitor: its right and bottom edges pulled
/// back onto the monitor, its left edge onto it, its top below the bar where
/// the bar is at the top and the client's middle lies within the window
/// area; it gets the configured border.
pub open spec fn placed(v: WmView, c: Client) -> Client {
    let m = v.mons[c.mon as int];
    let x1 = if i32w(c.x + width_of(c)) > i32w(m.mx + m.mw) { i32w(m.mx + m.mw - width_of(c)) } else { c.x };
    let y1 = if i32w(c.y + height_of(c)) > i32w(m.my + m.mh) { i32w(m.my + m.mh - height_of(c)) } else { c.y };
    let x2 = max_i(x1, m.mx);
    let mid = i32w(x2 + tdiv(c.w as int, 2));
    let top = if m.by == m.my && mid >= m.wx && mid < i32w(m.wx + m.ww) { v.bh } else { m.my };
    Client { x: x2, y: max_i(y1, top), bw: BORDERPX as i32, ..c }
}

/// A new client that asks to be fullscreen fills its monitor; a dialog
/// floats.
pub open spec fn typed(v: WmView, nw: NewWindow, c: Client) -> Client {
    let m = v.mons[c.mon as int];
    let c2 = if nw.fullscreen { filling(fullscreen_on(c), m) } else { c };
    if nw.dialog { Client { isfloating: true, ..c2 } } else { c2 }
}

/// Client `f` moved and resized to fill monitor `m`.
pub open spec fn filling(f: Client, m: MonitorView) -> Client {
    Client { oldx: f.x, x: m.mx, oldy: f.y, y: m.my, oldw: f.w, w: m.mw, oldh: f.h, h: m.mh, ..f }
}

/// A new client with its size limits and WM hints.
pub open spec fn hinted(nw: NewWindow, c: Client) -> Client {
    with_wmhints(sized(c, nw.size), nw.wmhints)
}

/// A new client with the urgency and input behaviour of its WM hints, where
/// it has them.
pub open spec fn with_wmhints(c: Client, h: Option<WmHints>) -> Client {
    match h {
        Some(h) => Client { isurgent: h.urgent, neverfocus: h.input == Some(false), ..c },
        None => c,
    }
}

/// Takes the urgency and input behaviour of new client `c` from its WM
/// hints, where it has them.
fn apply_wmhints(c: &mut Client, h: Option<WmHints>)
    ensures
        *final(c) == with_wmhints(*old(c), h),
{
    match h {
        Some(h) => {
            c.isurgent = h.urgent;
            c.neverfocus = h.input == Some(false);
        },
        None => {},
    }
}

/// A new client that does not float yet floats where it is transient or of
/// fixed size; it remembers that as its former state.
pub open spec fn floated(nw: NewWindow, c: Client) -> Client {
    if !c.isfloating {
        let f = has_transient(nw) || c.isfixed;
        Client { isfloating: f, oldstate: f, ..c }
    } else {
        c
    }
}

/// The client that managing the new window `nw` creates.
#[verifier::opaque]
pub open spec fn new_client(v: WmView, nw: NewWindow) -> Client {
    floated(nw, hinted(nw, typed(v, nw, placed(v, owned(v, nw, initial_client(nw))))))
}

/// The terminal that swallows the new window.
pub open spec fn new_terminal(v: WmView, nw: NewWindow) -> Option<usize> {
    if transient_client(v, nw) is Some {
        None
    } else {
        terminal_for(v, owned(v, nw, initial_client(nw)), nw.ancestry@)
    }
}

/// The requests made for the new window before it is mapped.
pub open spec fn manage_effects(v: WmView, nw: NewWindow) -> Seq<Effect> {
    prep_effects(v, nw) + admit_effects(v, nw)
}

/// The requests made while the new client is set up: its border, its
/// geometry, fullscreen, events, buttons, raising where it floats.
pub open spec fn prep_effects(v: WmView, nw: NewWindow) -> Seq<Effect> {
    let p = placed(v, owned(v, nw, initial_client(nw)));
    border_effects(nw.win, p) + type_effects(v, nw, p) + input_effects(nw.win, new_client(v, nw).isfloating)
}

/// The border and geometry requests for a new client placed as `p`.
pub open spec fn border_effects(win: u64, p: Client) -> Seq<Effect> {
    seq![
        Effect::ConfigureBorder { win: win, bw: p.bw },
        Effect::SetBorder { win: win, selected: false },
        Effect::NotifyConfigure { win: win, x: p.x, y: p.y, w: p.w, h: p.h, bw: p.bw },
    ]
}

/// The requests of a new window that asks to be fullscreen, placed as `p`.
pub open spec fn type_effects(v: WmView, nw: NewWindow, p: Client) -> Seq<Effect> {
    if nw.fullscreen {
        let m = v.mons[p.mon as int];
        seq![
            Effect::SetFullscreenProp { win: nw.win, fullscreen: true },
            Effect::Configure { win: nw.win, x: m.mx, y: m.my, w: m.mw, h: m.mh, bw: 0 },
            Effect::NotifyConfigure { win: nw.win, x: m.mx, y: m.my, w: m.mw, h: m.mh, bw: 0 },
            Effect::Sync,
            Effect::Raise { win: nw.win },
        ]
    } else {
        Seq::empty()
    }
}

/// The requests for events and buttons of a new window, and raising it
/// where it floats.
pub open spec fn input_effects(win: u64, floating: bool) -> Seq<Effect> {
    seq![Effect::SelectInput { win: win }, Effect::GrabButtons { win: win, focused: false }]
        + (if floating { seq![Effect::Raise { win: win }] } else { Seq::empty() })
}

/// The requests made as the new client is admitted: listed, moved out of
/// sight, set to normal state; the old selection of its monitor, where that
/// is the selected one, loses the focus.
pub open spec fn admit_effects(v: WmView, nw: NewWindow) -> Seq<Effect> {
    let nc = new_client(v, nw);
    seq![
        Effect::AppendClientList { win: nw.win },
        Effect::MoveResize { win: nw.win, x: i32w(nc.x + 2 * v.sw), y: nc.y, w: nc.w, h: nc.h },
        Effect::SetClientState { win: nw.win, state: NORMAL_STATE },
    ]
    + (if nc.mon == v.selmon {
        match v.mons[v.selmon as int].sel {
            Some(s) => unfocus_effects(v, s, false),
            None => Seq::empty(),
        }
    } else {
        Seq::empty()
    })
}

/// The first slot from `k` on whose client is no longer managed, or the end
/// of the client table where there is none.
pub open spec fn free_slot_from(v: WmView, k: int) -> int
    decreases v.clients.len() - k,
{
    if k < 0 || k >= v.clients.len() {
        v.clients.len() as int
    } else if !v.clients[k].alive {
        k
    } else {
        free_slot_from(v, k + 1)
    }
}

/// The slot a new client takes: the lowest one whose client is no longer
/// managed, else a new one at the end of the client table.
pub open spec fn free_slot(v: WmView) -> int {
    free_slot_from(v, 0)
}

pub proof fn lemma_free_slot_from(v: WmView, k: int)
    requires
        0 <= k <= v.clients.len(),
    ensures
        k <= free_slot_from(v, k) <= v.clients.len(),
        free_slot_from(v, k) < v.clients.len() ==> !v.clients[free_slot_from(v, k)].alive,
        forall|j: int| k <= j < free_slot_from(v, k) ==> #[trigger] v.clients[j].alive,
    decreases v.clients.len() - k,
{
    if k < v.clients.len() && v.clients[k].alive {
        lemma_free_slot_from(v, k + 1);
    }
}

/// The slot the new client takes is free: no client that is managed holds it.
pub proof fn lemma_free_slot(v: WmView)
    ensures
        0 <= free_slot(v) <= v.clients.len(),
        free_slot(v) < v.clients.len() ==> !v.clients[free_slot(v)].alive,
{
    lemma_free_slot_from(v, 0);
}

/// The state with client `nc`, titled `title`, in slot `n`: a slot of the
/// table, or a new one at its end.
pub open spec fn slotted(v: WmView, n: int, nc: Client, title: Seq<u8>) -> WmView {
    if n < v.clients.len() {
        WmView { clients: v.clients.update(n, nc), names: v.names.update(n, title), ..v }
    } else {
        WmView { clients: v.clients.push(nc), names: v.names.push(title), ..v }
    }
}

/// The state with the new client `nc`, titled `title`, in the free slot,
/// at the head of its monitor's lists and selected there.
pub open spec fn admitted(v: WmView, nc: Client, title: Seq<u8>) -> WmView {
    let n = free_slot(v) as usize;
    let a = attached(slotted(v, n as int, nc, title), n);
    let m = nc.mon as int;
    a.set_mon(m, selecting(a.mons[m], n))
}

/// Monitor `mv` with client `n` selected.
pub open spec fn selecting(mv: MonitorView, n: usize) -> MonitorView {
    MonitorView { sel: Some(n), ..mv }
}

/// Managing the new window `nw` took `v` to `v2`: the new client is
/// admitted, its monitor arranged, the terminal it came from (if any)
/// swallows it, and the focus is reset.
pub open spec fn managed<F: Fn(FloatQuery) -> (i32, i32)>(v: WmView, nw: NewWindow, v2: WmView, fq: &F) -> bool {
    let nc = new_client(v, nw);
    let n = free_slot(v) as usize;
    exists|v3: WmView| {
        &&& #[trigger] arranged(admitted(v, nc, title_of(nw.title@)), nc.mon as int, v3, fq)
        &&& match new_terminal(v, nw) {
            Some(t) => exists|v4: WmView| #[trigger] swallow_post(v3, t, n, v4, fq) && v2 == focus_state(v4, None),
            None => v2 == focus_state(v3, None),
        }
    }
}

/// The parts of managing new window `nw`, from `v` to `v2`: the client set
/// up and admitted, its monitor arranged (to `v3`, requests `ea`), its window
/// mapped, the terminal it came from swallowing it where there is one (to
/// `v4`, requests `es`), and the focus reset; `e` is all the requests in
/// order.
pub open spec fn manage_parts<F: Fn(FloatQuery) -> (i32, i32)>(
    v: WmView, nw: NewWindow, v2: WmView, e: Seq<Effect>, v3: WmView, ea: Seq<Effect>, v4: WmView, es: Seq<Effect>, fq: &F,
) -> bool {
    let nc = new_client(v, nw);
    let n = free_slot(v) as usize;
    &&& crate::engine::arranged_fx(admitted(v, nc, title_of(nw.title@)), nc.mon as int, v3, ea, fq)
    &&& match new_terminal(v, nw) {
            Some(t) => {
                &&& crate::swallow::swallow_fx(v3, t, n, v4, es, fq)
                &&& v2 == focus_state(v4, None)
                &&& e == manage_effects(v, nw) + ea + seq![Effect::MapWindow { win: nw.win }] + es
                        + crate::focus::focus_effects(v4, None)
            },
            None => {
                &&& v2 == focus_state(v3, None)
                &&& e == manage_effects(v, nw) + ea + seq![Effect::MapWindow { win: nw.win }]
                        + crate::focus::focus_effects(v3, None)
            },
        }
}

/// Managing new window `nw` took `v` to `v2` with the requests `e`.
pub open spec fn managed_fx<F: Fn(FloatQuery) -> (i32, i32)>(v: WmView, nw: NewWindow, v2: WmView, e: Seq<Effect>, fq: &F) -> bool {
    exists|v3: WmView, ea: Seq<Effect>, v4: WmView, es: Seq<Effect>| #[trigger] manage_parts(v, nw, v2, e, v3, ea, v4, es, fq)
}

/// The client made for a new window is managed and shows that window.
pub proof fn lemma_new_client_window(v: WmView, nw: NewWindow)
    requires
        v.wf(),
    ensures
        new_client(v, nw).alive,
        new_client(v, nw).win == nw.win,
        new_client(v, nw).mon < v.mons.len(),
        WmView::tagset_ok(new_client(v, nw).tags),
{
    reveal(new_client);
    match transient_client(v, nw) {
        Some(t) => {
            crate::window::lemma_client_for_in(v, 0, nw.transient.unwrap(), false);
            assert(v.clients[t as int].alive);
        },
        None => {
            let c0 = Client { mon: v.selmon, ..initial_client(nw) };
            crate::rules::lemma_rules_from_mon(v, crate::config::spec_rules(), 0, Client { isfloating: false, tags: 0, ..c0 },
                title_of(nw.title@), crate::rules::hint_name(opt_view(nw.class)), crate::rules::hint_name(opt_view(nw.instance)));
        },
    }
    lemma_new_client_ok(v, nw);
}

/// Managing a new window adds exactly one managed client, in the free slot and
/// showing that window; where a terminal swallows it, the managed clients
/// stay the same and the terminal shows the window.
pub proof fn lemma_manage_clients<F: Fn(FloatQuery) -> (i32, i32)>(v: WmView, nw: NewWindow, v2: WmView, fq: &F)
    requires
        v.wf(),
        v.clients.len() < usize::MAX,
        forall|m: int| 0 <= m < v.mons.len() ==> #[trigger] v.mons[m].clients.len() + 1 < MAX_CLIENTS,
        managed(v, nw, v2, fq),
    ensures
        ({
            let n = free_slot(v) as usize;
            let nc = new_client(v, nw);
            &&& !v.managed_clients().contains(n)
            &&& match new_terminal(v, nw) {
                Some(t) if !nc.noswallow && !nc.isterminal => {
                    &&& v2.managed_clients() == v.managed_clients()
                    &&& v.managed_clients().contains(t)
                    &&& v2.clients[t as int].win == nw.win
                },
                _ => {
                    &&& v2.managed_clients() == v.managed_clients().insert(n)
                    &&& v2.clients[n as int].win == nw.win
                },
            }
        }),
{
    let nc = new_client(v, nw);
    let n = free_slot(v) as usize;
    let title = title_of(nw.title@);
    lemma_new_client_window(v, nw);
    let a = admitted(v, nc, title);
    assert(v.mons[nc.mon as int].clients.len() + 1 < MAX_CLIENTS);
    lemma_admitted_wf(v, nc, title);
    assert(a.clients[n as int] == nc);
    assert(a.clients.len() == if (n as int) < v.clients.len() { v.clients.len() as int } else { v.clients.len() + 1int });
    assert forall|k: int| 0 <= k < v.clients.len() && k != n implies #[trigger] a.clients[k] == v.clients[k] by {}
    let v3 = choose|v3: WmView| {
        &&& #[trigger] arranged(admitted(v, nc, title), nc.mon as int, v3, fq)
        &&& match new_terminal(v, nw) {
            Some(t) => exists|v4: WmView| #[trigger] swallow_post(v3, t, n, v4, fq) && v2 == focus_state(v4, None),
            None => v2 == focus_state(v3, None),
        }
    };
    assert(crate::engine::same_keys(v3.clients[n as int], nc));
    crate::engine::lemma_frame_wf(v3, a);
    assert forall|k: int| 0 <= k < v.clients.len() && k != n implies #[trigger] crate::engine::same_keys(v3.clients[k], v.clients[k]) by {
        assert(crate::engine::same_keys(v3.clients[k], a.clients[k]));
    }
    let swallows = match new_terminal(v, nw) { Some(t) => !nc.noswallow && !nc.isterminal, None => false };
    let v4: WmView = match new_terminal(v, nw) {
        Some(t) => choose|v4: WmView| #[trigger] swallow_post(v3, t, n, v4, fq) && v2 == focus_state(v4, None),
        None => v3,
    };
    assert(v2 == focus_state(v4, None));
    if swallows {
        let t = new_terminal(v, nw).unwrap();
        crate::swallow::lemma_swallower_from_in(v, 0, nw.ancestry@);
        assert(t != n);
        assert(crate::engine::same_keys(v3.clients[t as int], v.clients[t as int]));
        crate::swallow::lemma_swallowed_wf(v3, t, n);
        crate::engine::lemma_frame_wf(v4, crate::swallow::swallowed_state(v3, t, n));
    }
    assert(v4.wf());
    assert(v4.mon_ok(v4.selmon as int));
    let st = v4.mons[v4.selmon as int].stack;
    crate::clients::lemma_first_visible_in(v4, st);
    match crate::focus::focus_target(v4, None) {
        Some(f) => {
            let k = choose|k: int| 0 <= k < st.len() && st[k] == f;
            assert(v4.client_on(st[k] as int, v4.selmon as int));
            assert(v2 == crate::focus::focused_state(v4, f));
        },
        None => {},
    }
    assert(v2.clients.len() == v4.clients.len());
    assert forall|k: int| 0 <= k < v4.clients.len() implies
        #[trigger] v2.clients[k].alive == v4.clients[k].alive && v2.clients[k].win == v4.clients[k].win by {
        match crate::focus::focus_target(v4, None) {
            Some(f) => { assert(v2 == crate::focus::focused_state(v4, f)); },
            None => {},
        }
    }
    if swallows {
        let t = new_terminal(v, nw).unwrap();
        assert(transient_client(v, nw) is None);
        crate::swallow::lemma_swallower_from_in(v, 0, nw.ancestry@);
        assert((t as int) < v.clients.len() && v.clients[t as int].alive);
        let sw = crate::swallow::swallowed_state(v3, t, n);
        assert(arranged(sw, v3.clients[t as int].mon as int, v4, fq));
        assert forall|k: int| 0 <= k < sw.clients.len() implies #[trigger] crate::engine::same_keys(v4.clients[k], sw.clients[k]) by {}
        assert forall|id: usize| #[trigger] v2.managed_clients().contains(id) == v.managed_clients().contains(id) by {
            if (id as int) < sw.clients.len() {
                assert(crate::engine::same_keys(v4.clients[id as int], sw.clients[id as int]));
                assert(v2.clients[id as int].alive == v4.clients[id as int].alive);
                assert(crate::membership::detached(v3, n).clients == v3.clients);
                if id == n {
                    assert(!sw.clients[id as int].alive);
                } else {
                    assert(sw.clients[id as int].alive == v3.clients[id as int].alive);
                    assert(crate::engine::same_keys(v3.clients[id as int], v.clients[id as int]));
                }
            }
        }
        assert(v2.managed_clients() =~= v.managed_clients());
        assert(crate::engine::same_keys(v4.clients[t as int], sw.clients[t as int]));
    } else {
        assert forall|id: usize| #[trigger] v2.managed_clients().contains(id) == v.managed_clients().insert(n).contains(id) by {
            if (id as int) < a.clients.len() {
                assert(crate::engine::same_keys(v3.clients[id as int], a.clients[id as int]));
                assert(v2.clients[id as int].alive == v4.clients[id as int].alive);
            }
        }
        assert(v4 == v3);
        assert(v2.clients[n as int].win == v4.clients[n as int].win);
        assert(v2.managed_clients() =~= v.managed_clients().insert(n));
    }
}

/// The tags a new client ends with are a valid tag set.
proof fn lemma_new_client_ok(v: WmView, nw: NewWindow)
    requires
        v.wf(),
        owned(v, nw, initial_client(nw)).mon < v.mons.len(),
    ensures
        new_client(v, nw).mon == owned(v, nw, initial_client(nw)).mon,
        new_client(v, nw).alive,
        WmView::tagset_ok(new_client(v, nw).tags),
        new_client(v, nw).tags == owned(v, nw, initial_client(nw)).tags,
{
    reveal(new_client);
    let o = owned(v, nw, initial_client(nw));
    match transient_client(v, nw) {
        Some(t) => {
            crate::window::lemma_client_for_in(v, 0, nw.transient.unwrap(), false);
            assert(v.clients[t as int].alive);
        },
        None => {
            let c0 = Client { mon: v.selmon, ..initial_client(nw) };
            crate::rules::lemma_rules_from_mon(v, crate::config::spec_rules(), 0, Client { isfloating: false, tags: 0, ..c0 },
                title_of(nw.title@), crate::rules::hint_name(opt_view(nw.class)), crate::rules::hint_name(opt_view(nw.instance)));
            let c1 = crate::rules::rules_from(v, crate::config::spec_rules(), 0, Client { isfloating: false, tags: 0, ..c0 },
                title_of(nw.title@), crate::rules::hint_name(opt_view(nw.class)), crate::rules::hint_name(opt_view(nw.instance)));
            if c1.tags & crate::config::TAGMASK != 0 {
                crate::tags::lemma_tagmask_ok(c1.tags);
            } else {
                assert(v.mon_ok(c1.mon as int));
            }
        },
    }
}

/// Putting a new client into the free slot, at the head of its monitor's
/// lists and selected there, keeps the state well formed.
pub proof fn lemma_admitted_wf(v: WmView, nc: Client, title: Seq<u8>)
    requires
        v.wf(),
        v.clients.len() < usize::MAX,
        nc.alive,
        nc.mon < v.mons.len(),
        WmView::tagset_ok(nc.tags),
        v.mons[nc.mon as int].clients.len() + 1 < MAX_CLIENTS,
    ensures
        admitted(v, nc, title).wf(),
        admitted(v, nc, title).clients == slotted(v, free_slot(v), nc, title).clients,
        admitted(v, nc, title).names == slotted(v, free_slot(v), nc, title).names,
        admitted(v, nc, title).mons.len() == v.mons.len(),
        0 <= free_slot(v) <= v.clients.len(),
        free_slot(v) < v.clients.len() ==> !v.clients[free_slot(v)].alive,
{
    lemma_free_slot(v);
    let n = free_slot(v) as usize;
    let p = slotted(v, n as int, nc, title);
    assert(p.clients.len() == p.names.len());
    assert(p.clients[n as int] == nc);
    assert forall|id: int| 0 <= id < v.clients.len() && id != n implies #[trigger] p.clients[id] == v.clients[id] by {}
    assert(p.wf_without(n as int)) by {
        assert forall|m: int| 0 <= m < p.mons.len() implies #[trigger] p.mon_ok(m) by {
            assert(v.mon_ok(m));
            let mon = v.mons[m];
            assert forall|k: int| 0 <= k < mon.clients.len() implies #[trigger] p.client_on(mon.clients[k] as int, m) by {
                assert(v.client_on(mon.clients[k] as int, m));
            }
            assert forall|k: int| 0 <= k < mon.stack.len() implies #[trigger] p.client_on(mon.stack[k] as int, m) by {
                assert(v.client_on(mon.stack[k] as int, m));
            }
        }
        assert forall|m: int| 0 <= m < p.mons.len() implies !(#[trigger] p.mons[m]).clients.contains(n) by {
            assert(v.mon_ok(m));
            if v.mons[m].clients.contains(n) {
                let k = choose|k: int| 0 <= k < v.mons[m].clients.len() && v.mons[m].clients[k] == n;
                assert(v.client_on(v.mons[m].clients[k] as int, m));
            }
        }
        assert forall|id: int| 0 <= id < p.clients.len() && id != n && (#[trigger] p.clients[id]).alive implies
            p.clients[id].mon < p.mons.len()
            && p.mons[p.clients[id].mon as int].clients.contains(id as usize)
            && WmView::tagset_ok(p.clients[id].tags) by {
            assert(p.clients[id] == v.clients[id]);
        }
    }
    lemma_attached(p, n);
    let a = attached(p, n);
    let m = nc.mon as int;
    let mv = selecting(a.mons[m], n);
    assert(a.mon_ok(m));
    assert(a.mons[m].clients[0] == n);
    assert(a.mons[m].clients.contains(n));
    assert(a.set_mon(m, mv).mon_ok(m)) by {
        let a2 = a.set_mon(m, mv);
        assert forall|k: int| 0 <= k < mv.clients.len() implies #[trigger] a2.client_on(mv.clients[k] as int, m) by {
            assert(a.client_on(a.mons[m].clients[k] as int, m));
        }
        assert forall|k: int| 0 <= k < mv.stack.len() implies #[trigger] a2.client_on(mv.stack[k] as int, m) by {
            assert(a.client_on(a.mons[m].stack[k] as int, m));
        }
    }
    crate::focus::lemma_wf_set_mon(a, m, mv);
}

impl Wm {
    /// Places new client `c` on its monitor and gives it its border.
    fn place(&self, c: &mut Client)
        requires
            old(c).mon < self@.mons.len(),
        ensures
            *final(c) == placed(self@, *old(c)),
    {
        let m = &self.mons[c.mon];
        let width = wrap(c.w as i64 + 2 * c.bw as i64);
        let height = wrap(c.h as i64 + 2 * c.bw as i64);
        let mut x = c.x;
        let mut y = c.y;
        if wrap(x as i64 + width as i64) > wrap(m.mx as i64 + m.mw as i64) {
            x = wrap(m.mx as i64 + m.mw as i64 - width as i64);
        }
        if wrap(y as i64 + height as i64) > wrap(m.my as i64 + m.mh as i64) {
            y = wrap(m.my as i64 + m.mh as i64 - height as i64);
        }
        x = crate::util::max_i32(x, m.mx);
        let mid = wrap(x as i64 + div_trunc(c.w as i64, 2));
        let top = if m.by == m.my && mid >= m.wx && mid < wrap(m.wx as i64 + m.ww as i64) { self.bh } else { m.my };
        c.x = x;
        c.y = crate::util::max_i32(y, top);
        c.bw = crate::config::borderpx() as i32;
    }

    /// The client for new window `nw` on its monitor with its tags, its
    /// title, and the terminal that is to swallow it.
    fn owned_client(&self, nw: &NewWindow) -> (r: (Client, Vec<u8>, Option<usize>))
        requires
            self@.wf(),
        ensures
            r.0 == owned(self@, *nw, initial_client(*nw)),
            r.1@ == title_of(nw.title@),
            r.2 == new_terminal(self@, *nw),
            r.0.mon < self@.mons.len(),
            r.2 matches Some(t) ==> (t as int) < self@.clients.len() && self@.clients[t as int].alive,
    {
        let ghost v = self@;
        let mut c = Client {
            alive: true,
            mina: Ratio { num: 0, den: 1 },
            maxa: Ratio { num: 0, den: 1 },
            x: nw.x,
            y: nw.y,
            w: nw.width,
            h: nw.height,
            oldx: nw.x,
            oldy: nw.y,
            oldw: nw.width,
            oldh: nw.height,
            basew: 0,
            baseh: 0,
            incw: 0,
            inch: 0,
            maxw: 0,
            maxh: 0,
            minw: 0,
            minh: 0,
            bw: 0,
            oldbw: nw.border_width,
            tags: 0,
            isfixed: false,
            isfloating: false,
            isurgent: false,
            neverfocus: false,
            oldstate: false,
            isfullscreen: false,
            isterminal: false,
            noswallow: false,
            pid: nw.pid,
            swallowing: None,
            mon: 0,
            win: nw.win,
        };
        proof { assert(c == initial_client(*nw)); }
        let title = title_for(nw.title.as_slice());
        let trans = match nw.transient {
            Some(w) => self.wintoclient(w),
            None => None,
        };
        let term;
        match trans {
            Some(t) => {
                proof { assert(self@.clients[t as int].alive); }
                c.mon = self.clients[t].mon;
                c.tags = self.clients[t].tags;
                term = None;
            },
            None => {
                c.mon = self.selmon;
                let cls: Option<&[u8]> = match &nw.class { Some(x) => Some(x.as_slice()), None => None };
                let ins: Option<&[u8]> = match &nw.instance { Some(x) => Some(x.as_slice()), None => None };
                proof {
                    assert(crate::rules::opt_seq(cls) == opt_view(nw.class));
                    assert(crate::rules::opt_seq(ins) == opt_view(nw.instance));
                }
                self.applyrules(&mut c, title.as_slice(), cls, ins);
                term = self.termforwin(&c, nw.ancestry.as_slice());
            },
        }
        (c, title, term)
    }

    /// New client `c` made fullscreen where the window asks for it, and
    /// floating where it is a dialog.
    fn apply_type(&self, c: &mut Client, nw: &NewWindow, fx: &mut Vec<Effect>)
        requires
            old(c).mon < self@.mons.len(),
        ensures
            *final(c) == typed(self@, *nw, *old(c)),
            final(fx)@ == old(fx)@ + type_effects(self@, *nw, *old(c)),
    {
        let ghost c0 = *c;
        if nw.fullscreen {
            let m = c.mon;
            let (mx, my, mw, mh) = (self.mons[m].mx, self.mons[m].my, self.mons[m].mw, self.mons[m].mh);
            fx.push(Effect::SetFullscreenProp { win: nw.win, fullscreen: true });
            c.isfullscreen = true;
            c.oldstate = c.isfloating;
            c.oldbw = c.bw;
            c.bw = 0;
            c.isfloating = true;
            c.oldx = c.x;
            c.x = mx;
            c.oldy = c.y;
            c.y = my;
            c.oldw = c.w;
            c.w = mw;
            c.oldh = c.h;
            c.h = mh;
            fx.push(Effect::Configure { win: nw.win, x: mx, y: my, w: mw, h: mh, bw: 0 });
            fx.push(Effect::NotifyConfigure { win: nw.win, x: mx, y: my, w: mw, h: mh, bw: 0 });
            fx.push(Effect::Sync);
            fx.push(Effect::Raise { win: nw.win });
            proof {
                assert(*c == filling(fullscreen_on(c0), self@.mons[c0.mon as int]));
                assert(fx@ =~= old(fx)@ + type_effects(self@, *nw, c0));
            }
        } else {
            proof { assert(fx@ =~= old(fx)@ + Seq::<Effect>::empty()); }
        }
        if nw.dialog {
            c.isfloating = true;
        }
    }

    /// The client for new window `nw`, with its title, the terminal that is
    /// to swallow it, and the requests of setting it up.
    fn prepare_client(&self, nw: &NewWindow, fx: &mut Vec<Effect>) -> (r: (Client, Vec<u8>, Option<usize>))
        requires
            self@.wf(),
        ensures
            r.0 == new_client(self@, *nw),
            r.1@ == title_of(nw.title@),
            r.2 == new_terminal(self@, *nw),
            r.0.mon < self@.mons.len(),
            WmView::tagset_ok(r.0.tags),
            r.0.alive,
            r.2 matches Some(t) ==> (t as int) < self@.clients.len() && self@.clients[t as int].alive,
            final(fx)@ == old(fx)@ + prep_effects(self@, *nw),
    {
        let ghost v = self@;
        let (mut c, title, term) = self.owned_client(nw);
        proof { lemma_new_client_ok(v, *nw); }
        self.place(&mut c);
        let ghost p = c;
        fx.push(Effect::ConfigureBorder { win: nw.win, bw: c.bw });
        fx.push(Effect::SetBorder { win: nw.win, selected: false });
        fx.push(Effect::NotifyConfigure { win: nw.win, x: c.x, y: c.y, w: c.w, h: c.h, bw: c.bw });
        let ghost fx1 = fx@;
        proof { assert(fx1 =~= old(fx)@ + border_effects(nw.win, p)); }
        self.apply_type(&mut c, nw, fx);
        let ghost fx2 = fx@;
        updatesizehints(&mut c, &nw.size);
        apply_wmhints(&mut c, nw.wmhints);
        self.float_new(&mut c, nw, fx);
        proof {
            reveal(new_client);
            assert(c == new_client(v, *nw));
            assert(fx@ =~= old(fx)@ + prep_effects(v, *nw));
        }
        (c, title, term)
    }

    /// New client `c` floats where it is transient or of fixed size; a
    /// floating client is raised.
    fn float_new(&self, c: &mut Client, nw: &NewWindow, fx: &mut Vec<Effect>)
        ensures
            *final(c) == floated(*nw, *old(c)),
            final(fx)@ == old(fx)@ + input_effects(nw.win, floated(*nw, *old(c)).isfloating),
    {
        fx.push(Effect::SelectInput { win: nw.win });
        fx.push(Effect::GrabButtons { win: nw.win, focused: false });
        if !c.isfloating {
            let f = match nw.transient { Some(w) => w != 0, None => false } || c.isfixed;
            c.isfloating = f;
            c.oldstate = f;
        }
        if c.isfloating {
            fx.push(Effect::Raise { win: nw.win });
        }
        proof { assert(fx@ =~= old(fx)@ + input_effects(nw.win, c.isfloating)); }
    }

    /// Puts client `c`, titled `title`, into the free slot (the lowest whose
    /// client is no longer managed, else a new one) at the head of its
    /// monitor's lists, selected there; answers the slot.
    fn enlist(&mut self, c: Client, title: Vec<u8>) -> (n: usize)
        requires
            old(self)@.wf(),
            old(self)@.clients.len() < usize::MAX,
            c.alive,
            c.mon < old(self)@.mons.len(),
            WmView::tagset_ok(c.tags),
            old(self)@.mons[c.mon as int].clients.len() + 1 < MAX_CLIENTS,
        ensures
            final(self)@.wf(),
            final(self)@ == admitted(old(self)@, c, title@),
            n == free_slot(old(self)@),
    {
        let ghost v = self@;
        proof { lemma_admitted_wf(v, c, title@); }
        let len = self.clients.len();
        let mut n: usize = 0;
        while n < len && self.clients[n].alive
            invariant
                self@ == v,
                len == v.clients.len(),
                n <= len,
                free_slot_from(v, n as int) == free_slot(v),
            decreases len - n,
        {
            n += 1;
        }
        proof { assert(free_slot_from(v, n as int) == n); }
        if n < len {
            self.clients.set(n, c);
            self.names.set(n, title);
        } else {
            self.clients.push(c);
            self.names.push(title);
        }
        proof {
            let p = slotted(v, n as int, c, title@);
            assert(self@.clients =~= p.clients);
            assert(self@.names =~= p.names);
            assert(self@.mons =~= p.mons);
        }
        let ghost p = self@;
        self.attach(n);
        self.attachstack(n);
        let m = c.mon;
        proof {
            let a = attached(p, n);
            assert(self@.mons =~= a.mons);
            assert(self@ == a);
            assert(self.mons@.len() == self@.mons.len());
        }
        self.mons[m].sel = Some(n);
        proof {
            let t = admitted(v, c, title@);
            assert(self@.mons =~= t.mons);
            assert(self@.names =~= t.names);
        }
        n
    }
}

/// Starts managing the new window `nw`: the client is set up, admitted and
/// arranged, its window mapped; the terminal it was started from, if any,
/// swallows it; then the focus is reset.
#[verifier::spinoff_prover]
#[verifier::rlimit(100)]
pub fn manage<F: Fn(FloatQuery) -> (i32, i32)>(wm: &mut Wm, nw: &NewWindow, fq: &F, fx: &mut Vec<Effect>)
    requires
        old(wm)@.wf(),
        old(wm)@.clients.len() < usize::MAX,
        forall|m: int| 0 <= m < old(wm)@.mons.len() ==> #[trigger] old(wm)@.mons[m].clients.len() + 1 < MAX_CLIENTS,
        answers_all(fq),
    ensures
        final(wm)@.wf(),
        managed(old(wm)@, *nw, final(wm)@, fq),
        (old(fx)@ + manage_effects(old(wm)@, *nw)).is_prefix_of(final(fx)@),
        final(fx)@ == old(fx)@ + crate::engine::added(old(fx)@, final(fx)@),
        managed_fx(old(wm)@, *nw, final(wm)@, crate::engine::added(old(fx)@, final(fx)@), fq),
{
    let ghost v = wm@;
    let (c, title, term) = wm.prepare_client(nw, fx);
    fx.push(Effect::AppendClientList { win: nw.win });
    fx.push(Effect::MoveResize { win: nw.win, x: wrap(c.x as i64 + 2 * wm.sw as i64), y: c.y, w: c.w, h: c.h });
    fx.push(Effect::SetClientState { win: nw.win, state: NORMAL_STATE });
    let sm = wm.selmon;
    if c.mon == sm {
        match wm.mons[sm].sel {
            Some(s) => {
                proof {
                    assert(v.mon_ok(sm as int));
                    let j = choose|j: int| 0 <= j < v.mons[sm as int].clients.len() && v.mons[sm as int].clients[j] == s;
                    assert(v.client_on(v.mons[sm as int].clients[j] as int, sm as int));
                }
                wm.unfocus(s, false, fx);
            },
            None => {},
        }
    }
    let ghost fx0 = fx@;
    proof {
        assert(fx0 =~= old(fx)@ + manage_effects(v, *nw));
    }
    let n = wm.enlist(c, title);
    proof {
        lemma_admitted_wf(v, c, title_of(nw.title@));
        assert((n as int) < wm@.clients.len());
        assert(wm@.clients[n as int] == c);
    }
    let m = c.mon;
    wm.arrange(Some(m), fq, fx);
    let ghost v3 = wm@;
    proof {
        assert(arranged(admitted(v, c, title_of(nw.title@)), m as int, v3, fq));
    }
    let ghost fxa = fx@;
    let ghost ea = crate::engine::added(fx0, fxa);
    fx.push(Effect::MapWindow { win: nw.win });
    let ghost fx1 = fx@;
    proof {
        assert(fx1 =~= fxa + seq![Effect::MapWindow { win: nw.win }]);
        lemma_prefix_concat(fxa, seq![Effect::MapWindow { win: nw.win }]);
        lemma_prefix_trans(fx0, fxa, fx1);
    }
    match term {
        Some(t) => {
            proof {
                assert(crate::engine::same_keys(v3.clients[t as int], admitted(v, c, title_of(nw.title@)).clients[t as int]));
                assert(crate::engine::same_keys(v3.clients[n as int], admitted(v, c, title_of(nw.title@)).clients[n as int]));
            }
            wm.swallow(t, n, fq, fx);
            let ghost v4 = wm@;
            let ghost fx2 = fx@;
            wm.focus(None, fx);
            proof {
                assert(swallow_post(v3, t, n, v4, fq));
                lemma_prefix_trans(fx0, fx1, fx2);
                lemma_prefix_concat(fx2, fx@.subrange(fx2.len() as int, fx@.len() as int));
                assert(fx@ =~= fx2 + fx@.subrange(fx2.len() as int, fx@.len() as int));
                lemma_prefix_trans(fx0, fx2, fx@);
                let es = crate::engine::added(fx1, fx2);
                let e = crate::engine::added(old(fx)@, fx@);
                assert(e =~= manage_effects(v, *nw) + ea + seq![Effect::MapWindow { win: nw.win }] + es
                    + crate::focus::focus_effects(v4, None));
                assert(manage_parts(v, *nw, wm@, e, v3, ea, v4, es, fq));
                assert(fx@ =~= old(fx)@ + e);
            }
        },
        None => {
            wm.focus(None, fx);
            proof {
                lemma_prefix_concat(fx1, fx@.subrange(fx1.len() as int, fx@.len() as int));
                assert(fx@ =~= fx1 + fx@.subrange(fx1.len() as int, fx@.len() as int));
                lemma_prefix_trans(fx0, fx1, fx@);
                let e = crate::engine::added(old(fx)@, fx@);
                assert(e =~= manage_effects(v, *nw) + ea + seq![Effect::MapWindow { win: nw.win }]
                    + crate::focus::focus_effects(v3, None));
                assert(manage_parts(v, *nw, wm@, e, v3, ea, v3, Seq::empty(), fq));
                assert(fx@ =~= old(fx)@ + e);
            }
        },
    }
    proof {
        lemma_prefix_concat(fx0, Seq::<Effect>::empty());
    }
}

} // verus!
