use vstd::prelude::*;
use crate::config::{Layout, NTAGS};
use crate::engine::{Effect, i32w};
use crate::model::{Wm, WmView};

verus! {

/// The modifier bits of X key and button events.
pub const SHIFT_MASK: u32 = 1;
pub const LOCK_MASK: u32 = 2;
pub const CONTROL_MASK: u32 = 4;
pub const MOD1_MASK: u32 = 8;
pub const MOD2_MASK: u32 = 16;
pub const MOD3_MASK: u32 = 32;
pub const MOD4_MASK: u32 = 64;
pub const MOD5_MASK: u32 = 128;

/// The modifiers of `mask` that bindings are told apart by: the lock and
/// num lock modifiers dropped, and only the eight modifier bits kept.
pub open spec fn clean(mask: u32, numlockmask: u32) -> u32 {
    mask & !(numlockmask | LOCK_MASK)
        & (SHIFT_MASK | CONTROL_MASK | MOD1_MASK | MOD2_MASK | MOD3_MASK | MOD4_MASK | MOD5_MASK)
}

/// The modifiers of `mask` that bindings are told apart by.
pub fn cleanmask(mask: u32, numlockmask: u32) -> (r: u32)
    ensures
        r == clean(mask, numlockmask),
{
    mask & !(numlockmask | LOCK_MASK)
        & (SHIFT_MASK | CONTROL_MASK | MOD1_MASK | MOD2_MASK | MOD3_MASK | MOD4_MASK | MOD5_MASK)
}

/// The modifier combinations a binding is grabbed with, so that it works
/// whatever the state of caps lock and num lock: none, lock, num lock, both.
pub open spec fn spec_grab_modifiers(numlockmask: u32) -> Seq<u32> {
    seq![0u32, LOCK_MASK, numlockmask, numlockmask | LOCK_MASK]
}

/// The modifier combinations a binding is grabbed with.
pub fn grab_modifiers(numlockmask: u32) -> (r: Vec<u32>)
    ensures
        r@ == spec_grab_modifiers(numlockmask),
{
    let r: Vec<u32> = vec![0u32, LOCK_MASK, numlockmask, numlockmask | LOCK_MASK];
    proof { assert(r@ =~= spec_grab_modifiers(numlockmask)); }
    r
}

/// An action a key or button runs.
#[derive(Clone, Copy, PartialEq, Eq, Structural, Debug)]
pub enum Command {
    /// Start the program number `n` of the configured programs.
    Spawn(usize),
    KillClient,
    ToggleBar,
    FocusStack(i32),
    IncNMaster(i32),
    /// Change the master area factor by `n` hundredths.
    SetMfact(i32),
    Zoom,
    View(u32),
    ToggleView(u32),
    Tag(u32),
    ToggleTag(u32),
    SetLayout(Option<Layout>),
    ToggleFloating,
    FocusMon(i32),
    TagMon(i32),
    Quit,
    MoveStack(i32),
    ViewAdjacent(i32),
    MoveMouse,
    ResizeMouse,
}

/// A key binding: a key symbol with modifiers, and what it runs.
#[derive(Clone, Copy, PartialEq, Eq, Structural, Debug)]
pub struct Key {
    pub mask: u32,
    pub keysym: u32,
    pub cmd: Command,
}

/// Where a mouse button was pressed.
#[derive(Clone, Copy, PartialEq, Eq, Structural, Debug)]
pub enum Click {
    TagBar,
    LtSymbol,
    StatusText,
    WinTitle,
    ClientWin,
    RootWin,
}

/// A button binding: where, with which modifiers and button, and what it
/// runs.
#[derive(Clone, Copy, PartialEq, Eq, Structural, Debug)]
pub struct Button {
    pub click: Click,
    pub mask: u32,
    pub button: u32,
    pub cmd: Command,
}

/// The commands of the keys in `keys` bound to key symbol `keysym` with the
/// modifiers of `state`, in table order.
pub open spec fn key_commands(keys: Seq<Key>, keysym: u32, state: u32, numlockmask: u32) -> Seq<Command>
    decreases keys.len(),
{
    if keys.len() == 0 {
        Seq::empty()
    } else {
        let k = keys.last();
        let rest = key_commands(keys.drop_last(), keysym, state, numlockmask);
        if k.keysym == keysym && clean(k.mask, numlockmask) == clean(state, numlockmask) {
            rest.push(k.cmd)
        } else {
            rest
        }
    }
}

/// The commands a key press runs: those of the matching keys, in order.
pub fn keypress(keys: &[Key], keysym: u32, state: u32, numlockmask: u32) -> (r: Vec<Command>)
    ensures
        r@ == key_commands(keys@, keysym, state, numlockmask),
{
    let mut r: Vec<Command> = Vec::new();
    let n = keys.len();
    let mut i: usize = 0;
    let cs = cleanmask(state, numlockmask);
    while i < n
        invariant
            n == keys@.len(),
            i <= n,
            cs == clean(state, numlockmask),
            r@ == key_commands(keys@.subrange(0, i as int), keysym, state, numlockmask),
        decreases n - i,
    {
        proof { assert(keys@.subrange(0, i as int + 1).drop_last() =~= keys@.subrange(0, i as int)); }
        let k = keys[i];
        if k.keysym == keysym && cleanmask(k.mask, numlockmask) == cs {
            r.push(k.cmd);
        }
        i += 1;
    }
    proof { assert(keys@.subrange(0, n as int) =~= keys@); }
    r
}

/// The command a button binding runs: on the tag bar, a tag command with no
/// tag of its own acts on the tag clicked.
pub open spec fn with_tag_arg(cmd: Command, tag: u32) -> Command {
    match cmd {
        Command::View(0) => Command::View(tag),
        Command::ToggleView(0) => Command::ToggleView(tag),
        Command::Tag(0) => Command::Tag(tag),
        Command::ToggleTag(0) => Command::ToggleTag(tag),
        _ => cmd,
    }
}

fn tag_arg(cmd: Command, tag: u32) -> (r: Command)
    ensures
        r == with_tag_arg(cmd, tag),
{
    match cmd {
        Command::View(0) => Command::View(tag),
        Command::ToggleView(0) => Command::ToggleView(tag),
        Command::Tag(0) => Command::Tag(tag),
        Command::ToggleTag(0) => Command::ToggleTag(tag),
        _ => cmd,
    }
}

/// The commands of the buttons in `buttons` bound to a press of `button`
/// with the modifiers of `state` at `click`, in table order; on the tag bar
/// they act on `tag`.
pub open spec fn button_commands(buttons: Seq<Button>, click: Click, tag: u32, button: u32, state: u32, numlockmask: u32) -> Seq<Command>
    decreases buttons.len(),
{
    if buttons.len() == 0 {
        Seq::empty()
    } else {
        let b = buttons.last();
        let rest = button_commands(buttons.drop_last(), click, tag, button, state, numlockmask);
        if b.click == click && b.button == button && clean(b.mask, numlockmask) == clean(state, numlockmask) {
            rest.push(if click == Click::TagBar { with_tag_arg(b.cmd, tag) } else { b.cmd })
        } else {
            rest
        }
    }
}

fn buttons_matching(buttons: &[Button], click: Click, tag: u32, button: u32, state: u32, numlockmask: u32) -> (r: Vec<Command>)
    ensures
        r@ == button_commands(buttons@, click, tag, button, state, numlockmask),
{
    let mut r: Vec<Command> = Vec::new();
    let n = buttons.len();
    let mut i: usize = 0;
    let cs = cleanmask(state, numlockmask);
    while i < n
        invariant
            n == buttons@.len(),
            i <= n,
            cs == clean(state, numlockmask),
            r@ == button_commands(buttons@.subrange(0, i as int), click, tag, button, state, numlockmask),
        decreases n - i,
    {
        proof { assert(buttons@.subrange(0, i as int + 1).drop_last() =~= buttons@.subrange(0, i as int)); }
        let b = buttons[i];
        if b.click == click && b.button == button && cleanmask(b.mask, numlockmask) == cs {
            if click == Click::TagBar {
                r.push(tag_arg(b.cmd, tag));
            } else {
                r.push(b.cmd);
            }
        }
        i += 1;
    }
    proof { assert(buttons@.subrange(0, n as int) =~= buttons@); }
    r
}

/// The sum of the first `k` widths, as a C `int` accumulates it.
pub open spec fn width_sum(ws: Seq<i32>, k: int) -> i32
    decreases k,
{
    if k <= 0 { 0 } else { i32w(width_sum(ws, k - 1) + ws[k - 1]) }
}

/// The tag under position `x` of a bar whose tag labels have the widths
/// `ws`: the first whose right edge lies beyond `x`, or the last one.
pub open spec fn tag_at(ws: Seq<i32>, x: i32, k: int) -> int
    decreases ws.len() - k,
{
    if k + 1 >= ws.len() || x < width_sum(ws, k + 1) { k } else { tag_at(ws, x, k + 1) }
}

/// Where on the bar of monitor width `ww` a click at `x` lands, with the
/// tag label widths `ws`, the layout symbol width `blw` and the status text
/// width `sw`, and the tag it concerns: the tag labels run up to the last
/// one, which takes every click beyond.
pub open spec fn bar_click_spec(ws: Seq<i32>, x: i32, blw: i32, ww: i32, sw: i32) -> (Click, int) {
    let i = tag_at(ws, x, 0);
    if i < ws.len() {
        (Click::TagBar, i)
    } else if x < i32w(width_sum(ws, i + 1) + blw) {
        (Click::LtSymbol, i)
    } else if x > i32w(ww - sw) {
        (Click::StatusText, i)
    } else {
        (Click::WinTitle, i)
    }
}

proof fn lemma_tag_at_range(ws: Seq<i32>, x: i32, k: int)
    requires
        0 <= k < ws.len(),
    ensures
        k <= tag_at(ws, x, k) < ws.len(),
    decreases ws.len() - k,
{
    if !(k + 1 >= ws.len() || x < width_sum(ws, k + 1)) {
        lemma_tag_at_range(ws, x, k + 1);
    }
}

/// Where on a bar a click at `x` lands, and the tag it concerns.
pub fn bar_click(ws: &[i32], x: i32, blw: i32, ww: i32, sw: i32) -> (r: (Click, usize))
    requires
        ws@.len() > 0,
    ensures
        r.0 == bar_click_spec(ws@, x, blw, ww, sw).0,
        r.1 as int == bar_click_spec(ws@, x, blw, ww, sw).1,
{
    let n = ws.len();
    let mut index: usize = 0;
    let mut acc: i32 = wrap_add(0, ws[0]);
    proof {
        lemma_tag_at_range(ws@, x, 0);
        assert(width_sum(ws@, 0) == 0);
        assert(width_sum(ws@, 1) == i32w(width_sum(ws@, 0) + ws@[0]));
    }
    while x >= acc && index + 1 < n
        invariant
            n == ws@.len(),
            index < n,
            acc == width_sum(ws@, index as int + 1),
            tag_at(ws@, x, index as int) == tag_at(ws@, x, 0),
        decreases n - index,
    {
        index += 1;
        acc = wrap_add(acc, ws[index]);
        proof { assert(width_sum(ws@, index as int + 1) == i32w(width_sum(ws@, index as int) + ws@[index as int])); }
    }
    if index < n {
        (Click::TagBar, index)
    } else if x < wrap_add(acc, blw) {
        (Click::LtSymbol, index)
    } else if x > crate::engine::wrap(ww as i64 - sw as i64) {
        (Click::StatusText, index)
    } else {
        (Click::WinTitle, index)
    }
}

fn wrap_add(a: i32, b: i32) -> (r: i32)
    ensures
        r == i32w(a + b),
{
    crate::engine::wrap(a as i64 + b as i64)
}


/// Where a button press on window `win` lands, once monitor switching is
/// done (state `v1`): on the selected monitor's bar (with the tag concerned),
/// on a client, or on the root window.
pub open spec fn press_target(v1: WmView, win: u64, x: i32, ws: Seq<i32>, sw: i32) -> (Click, int) {
    let mv = v1.mons[v1.selmon as int];
    if win == mv.barwin {
        bar_click_spec(ws, x, v1.blw, mv.ww, sw)
    } else if crate::window::client_for(v1, 0, win, false) is Some {
        (Click::ClientWin, 0)
    } else {
        (Click::RootWin, 0)
    }
}

/// The state once a press on window `win` switched to monitor `m`, if that
/// is another monitor.
pub open spec fn press_switched(v: WmView, m: usize) -> WmView {
    if m != v.selmon { crate::focus::focus_state(crate::events::with_selmon(v, m), None) } else { v }
}

/// The requests of switching to monitor `m` on a press.
pub open spec fn press_switch_effects(v: WmView, m: usize) -> Seq<Effect> {
    if m != v.selmon {
        crate::events::unfocus_sel_effects(v) + crate::focus::focus_effects(crate::events::with_selmon(v, m), None)
    } else {
        Seq::empty()
    }
}

impl Wm {
    /// Handles a press of `button` with the modifiers of `state` at `x` on
    /// window `win`: the monitor of the window becomes the selected one; a
    /// client clicked gets the focus and is raised, and the press goes on to
    /// it; answers the commands of the buttons bound there. `ws` are the
    /// widths of the tag labels and `sw` that of the status text.
    pub fn buttonpress(
        &mut self, buttons: &[Button], win: u64, x: i32, button: u32, state: u32, ws: &[i32], sw: i32,
        pointer: Option<(i32, i32)>, fx: &mut Vec<Effect>,
    ) -> (r: Vec<Command>)
        requires
            old(self)@.wf(),
            ws@.len() == NTAGS,
        ensures
            final(self)@.wf(),
            exists|m: usize| #[trigger] crate::window::window_monitor(old(self)@, win, pointer, m) && {
                let v1 = press_switched(old(self)@, m);
                let t = press_target(v1, win, x, ws@, sw);
                &&& r@ == button_commands(buttons@, t.0, if t.0 == Click::TagBar { (1u32 << (t.1 as u32)) } else { 0 },
                        button, state, old(self)@.numlockmask)
                &&& if t.0 == Click::ClientWin {
                        let c = crate::window::client_for(v1, 0, win, false).unwrap();
                        &&& final(self)@ == crate::focus::focus_state(v1, Some(c))
                        &&& final(fx)@ == old(fx)@ + press_switch_effects(old(self)@, m)
                                + crate::focus::focus_effects(v1, Some(c))
                                + crate::engine::restack_effects(final(self)@, final(self)@.selmon as int)
                                + seq![Effect::ReplayPointer]
                    } else {
                        final(self)@ == v1 && final(fx)@ == old(fx)@ + press_switch_effects(old(self)@, m)
                    }
            },
    {
        let ghost v = self@;
        let m = self.wintomon(win, pointer);
        if m != self.selmon {
            self.switch_monitor_focus(m, fx);
        } else {
            proof { assert(fx@ =~= old(fx)@ + press_switch_effects(v, m)); }
        }
        let ghost v1 = self@;
        let ghost fx1 = fx@;
        proof { assert(v1 == press_switched(v, m)); }
        let sm = self.selmon;
        let mut click = Click::RootWin;
        let mut tag: u32 = 0;
        if win == self.mons[sm].barwin {
            let (c, i) = bar_click(ws, x, self.blw, self.mons[sm].ww, sw);
            click = c;
            if c == Click::TagBar {
                proof { lemma_tag_at_range(ws@, x, 0); }
                tag = 1u32 << (i as u32);
            }
        } else {
            match self.wintoclient(win) {
                Some(c) => {
                    proof { assert(v1.clients[c as int].alive); }
                    self.focus(Some(c), fx);
                    let sm2 = self.selmon;
                    self.restack(sm2, fx);
                    fx.push(Effect::ReplayPointer);
                    click = Click::ClientWin;
                },
                None => {},
            }
        }
        let r = buttons_matching(buttons, click, tag, button, state, self.numlockmask);
        proof {
            assert(self@.numlockmask == v.numlockmask);
        }
        r
    }

    /// Takes the focus from the selected client, selects monitor `m` and
    /// focuses there.
    fn switch_monitor_focus(&mut self, m: usize, fx: &mut Vec<Effect>)
        requires
            old(self)@.wf(),
            (m as int) < old(self)@.mons.len(),
            m != old(self)@.selmon,
        ensures
            final(self)@.wf(),
            final(self)@ == press_switched(old(self)@, m),
            final(fx)@ == old(fx)@ + press_switch_effects(old(self)@, m),
    {
        self.switch_monitor(m, fx);
        self.focus(None, fx);
    }
}


/// The num lock modifier: the bit of the last of the eight modifiers
/// (from the first) whose key codes, `per` each in `map`, include the num
/// lock key code `numlock`; 0 where none does.
pub open spec fn numlock_from(map: Seq<u8>, per: int, numlock: u8, i: int) -> u32
    decreases 8 - i,
{
    if i >= 8 || i < 0 {
        0
    } else {
        let later = numlock_from(map, per, numlock, i + 1);
        if later != 0 {
            later
        } else if exists|j: int| 0 <= j < per && i * per + j < map.len() && #[trigger] map[i * per + j] == numlock {
            1u32 << (i as u32)
        } else {
            0
        }
    }
}

/// The num lock modifier from the modifier map `map` (`per` key codes for
/// each of the eight modifiers) and the key code `numlock` of the num lock
/// key.
pub fn updatenumlockmask(map: &[u8], per: usize, numlock: u8) -> (r: u32)
    requires
        map@.len() == 8 * per,
    ensures
        r == numlock_from(map@, per as int, numlock, 0),
{
    let mut r: u32 = 0;
    let mut i: usize = 8;
    let ml = map.len();
    while i > 0
        invariant
            i <= 8,
            ml == map@.len(),
            map@.len() == 8 * per,
            r == numlock_from(map@, per as int, numlock, i as int),
        decreases i,
    {
        i -= 1;
        if r == 0 {
            let mut j: usize = 0;
            let mut hit = false;
            while j < per
                invariant
                    i < 8,
                    ml == map@.len(),
                    map@.len() == 8 * per,
                    j <= per,
                    hit == exists|q: int| 0 <= q < j && i * per + q < map@.len() && #[trigger] map@[i * per + q] == numlock,
                decreases per - j,
            {
                proof {
                    assert(i * per + j < 8 * per) by (nonlinear_arith)
                        requires i < 8, j < per;
                }
                if map[i * per + j] == numlock {
                    hit = true;
                }
                j += 1;
            }
            if hit {
                let sh = i as u32;
                r = 1u32 << sh;
                proof { assert((1u32 << sh) != 0u32) by (bit_vector) requires sh < 8u32; }
            }
        }
    }
    r
}

/// X error codes and request codes that the window manager tolerates.
pub const BAD_WINDOW: u8 = 3;
pub const BAD_MATCH: u8 = 8;
pub const BAD_DRAWABLE: u8 = 9;
pub const BAD_ACCESS: u8 = 10;
pub const X_CONFIGURE_WINDOW: u8 = 12;
pub const X_GRAB_BUTTON: u8 = 28;
pub const X_GRAB_KEY: u8 = 33;
pub const X_SET_INPUT_FOCUS: u8 = 42;
pub const X_COPY_AREA: u8 = 62;
pub const X_POLY_SEGMENT: u8 = 66;
pub const X_POLY_FILL_RECTANGLE: u8 = 70;
pub const X_POLY_TEXT8: u8 = 74;

/// An X error that is expected in normal operation (a window that went
/// away, focus or configuration races, grabs taken by others, drawing on a
/// window that is gone) and is ignored.
pub open spec fn error_ignored(error_code: u8, request_code: u8) -> bool {
    error_code == BAD_WINDOW
    || (request_code == X_SET_INPUT_FOCUS && error_code == BAD_MATCH)
    || (request_code == X_POLY_TEXT8 && error_code == BAD_DRAWABLE)
    || (request_code == X_POLY_FILL_RECTANGLE && error_code == BAD_DRAWABLE)
    || (request_code == X_POLY_SEGMENT && error_code == BAD_DRAWABLE)
    || (request_code == X_CONFIGURE_WINDOW && error_code == BAD_MATCH)
    || (request_code == X_GRAB_BUTTON && error_code == BAD_ACCESS)
    || (request_code == X_GRAB_KEY && error_code == BAD_ACCESS)
    || (request_code == X_COPY_AREA && error_code == BAD_DRAWABLE)
}

/// Whether an X error is ignored.
pub fn xerror_ignored(error_code: u8, request_code: u8) -> (r: bool)
    ensures
        r == error_ignored(error_code, request_code),
{
    error_code == BAD_WINDOW
    || (request_code == X_SET_INPUT_FOCUS && error_code == BAD_MATCH)
    || (request_code == X_POLY_TEXT8 && error_code == BAD_DRAWABLE)
    || (request_code == X_POLY_FILL_RECTANGLE && error_code == BAD_DRAWABLE)
    || (request_code == X_POLY_SEGMENT && error_code == BAD_DRAWABLE)
    || (request_code == X_CONFIGURE_WINDOW && error_code == BAD_MATCH)
    || (request_code == X_GRAB_BUTTON && error_code == BAD_ACCESS)
    || (request_code == X_GRAB_KEY && error_code == BAD_ACCESS)
    || (request_code == X_COPY_AREA && error_code == BAD_DRAWABLE)
}

} // verus!
