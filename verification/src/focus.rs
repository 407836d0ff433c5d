use vstd::prelude::*;
use crate::engine::Effect;
use crate::model::{Client, Monitor, MonitorView, Wm, WmView};
use crate::seqs::{lemma_prepend, lemma_remove_value_no_dup};

verus! {

/// Replacing monitor `m` by one that is well formed in the new state and
/// lists the same clients keeps the state well formed.
pub proof fn lemma_wf_set_mon(v: WmView, m: int, mv: MonitorView)
    requires
        v.wf(),
        0 <= m < v.mons.len(),
        v.set_mon(m, mv).mon_ok(m),
        forall|id: usize| #[trigger] mv.clients.contains(id) <==> v.mons[m].clients.contains(id),
    ensures
        v.set_mon(m, mv).wf(),
{
    let v2 = v.set_mon(m, mv);
    assert forall|mm: int| 0 <= mm < v2.mons.len() implies #[trigger] v2.mon_ok(mm) by {
        if mm != m {
            assert(v.mon_ok(mm));
            let mon = v.mons[mm];
            assert forall|k: int| 0 <= k < mon.clients.len() implies #[trigger] v2.client_on(mon.clients[k] as int, mm) by {
                assert(v.client_on(mon.clients[k] as int, mm));
            }
            assert forall|k: int| 0 <= k < mon.stack.len() implies #[trigger] v2.client_on(mon.stack[k] as int, mm) by {
                assert(v.client_on(mon.stack[k] as int, mm));
            }
        }
    }
    assert forall|id: int| 0 <= id < v2.clients.len() && (#[trigger] v2.clients[id]).alive implies
        v2.clients[id].mon < v2.mons.len() && v2.mons[v2.clients[id].mon as int].clients.contains(id as usize) by {
        assert(v.clients[id].alive);
    }
}

/// The client that focusing `c` selects: `c` where it is given and visible,
/// else the first visible client of the selected monitor's focus stack.
pub open spec fn focus_target(v: WmView, c: Option<usize>) -> Option<usize> {
    match c {
        Some(id) if v.visible(id as int) => Some(id),
        _ => v.first_visible(v.mons[v.selmon as int].stack),
    }
}

/// Redraw requests for the bars of the first `n` monitors.
pub open spec fn drawbars_effects(n: nat) -> Seq<Effect>
    decreases n,
{
    if n == 0 {
        Seq::empty()
    } else {
        drawbars_effects((n - 1) as nat).push(Effect::DrawBar { mon: (n - 1) as usize })
    }
}

/// The requests of taking the focus away from client `c`.
pub open spec fn unfocus_effects(v: WmView, c: usize, setfocus: bool) -> Seq<Effect> {
    let cl = v.clients[c as int];
    seq![Effect::GrabButtons { win: cl.win, focused: false }, Effect::SetBorder { win: cl.win, selected: false }]
        + if setfocus { seq![Effect::FocusRoot] } else { Seq::empty() }
}

/// The state after client `t` was focused: it loses its urgency, moves to
/// the top of its monitor's focus stack and becomes its selection, and its
/// monitor becomes the selected one.
pub open spec fn focused_state(v: WmView, t: usize) -> WmView {
    let cl = v.clients[t as int];
    let m = cl.mon as int;
    let mv = v.mons[m];
    WmView {
        selmon: cl.mon,
        clients: v.clients.update(t as int, Client { isurgent: false, ..cl }),
        mons: v.mons.update(m, MonitorView {
            stack: seq![t] + mv.stack.remove_value(t),
            sel: Some(t),
            ..mv
        }),
        ..v
    }
}

/// The requests of giving client `t` the focus.
pub open spec fn focused_effects(v: WmView, t: usize) -> Seq<Effect> {
    let cl = v.clients[t as int];
    (if cl.isurgent { seq![Effect::SetUrgent { win: cl.win, urgent: false }] } else { Seq::empty() })
    + seq![
        Effect::GrabButtons { win: cl.win, focused: true },
        Effect::SetBorder { win: cl.win, selected: true },
        Effect::SetFocus { win: cl.win, neverfocus: cl.neverfocus }
    ]
}

/// The state after focusing: the target, if any, becomes the selected client
/// of its monitor, which becomes the selected monitor; it loses its urgency
/// and moves to the top of the focus stack. Without a target, the selected
/// monitor has no selection.
pub open spec fn focus_state(v: WmView, c: Option<usize>) -> WmView {
    match focus_target(v, c) {
        Some(t) => focused_state(v, t),
        None => {
            let mv = v.mons[v.selmon as int];
            v.set_mon(v.selmon as int, MonitorView { sel: None, ..mv })
        },
    }
}

/// The requests of focusing.
pub open spec fn focus_effects(v: WmView, c: Option<usize>) -> Seq<Effect> {
    let t = focus_target(v, c);
    let old_sel = v.mons[v.selmon as int].sel;
    (match old_sel {
        Some(s) if Some(s) != t => unfocus_effects(v, s, false),
        _ => Seq::empty(),
    }) + (match t {
        Some(t) => focused_effects(v, t),
        None => seq![Effect::FocusRoot],
    }) + drawbars_effects(v.mons.len())
}

impl Wm {
    /// Requests taking the focus away from client `c`, and giving it to the
    /// root window where `setfocus` holds.
    pub fn unfocus(&self, c: usize, setfocus: bool, fx: &mut Vec<Effect>)
        requires
            c < self@.clients.len(),
        ensures
            final(fx)@ == old(fx)@ + unfocus_effects(self@, c, setfocus),
    {
        let cl = self.clients[c];
        fx.push(Effect::GrabButtons { win: cl.win, focused: false });
        fx.push(Effect::SetBorder { win: cl.win, selected: false });
        if setfocus {
            fx.push(Effect::FocusRoot);
        }
        proof { assert(fx@ =~= old(fx)@ + unfocus_effects(self@, c, setfocus)); }
    }

    /// Requests redrawing every monitor's bar.
    pub fn drawbars(&self, fx: &mut Vec<Effect>)
        ensures
            final(fx)@ == old(fx)@ + drawbars_effects(self@.mons.len()),
    {
        let n = self.mons.len();
        let mut i: usize = 0;
        proof { assert(old(fx)@ =~= old(fx)@ + drawbars_effects(0)); }
        while i < n
            invariant
                n == self@.mons.len(),
                i <= n,
                fx@ == old(fx)@ + drawbars_effects(i as nat),
            decreases n - i,
        {
            fx.push(Effect::DrawBar { mon: i });
            i += 1;
            proof { assert(fx@ =~= old(fx)@ + drawbars_effects(i as nat)); }
        }
    }

    /// Makes client `tc` the selected client of its monitor and that monitor
    /// the selected one.
    fn focus_on(&mut self, tc: usize, fx: &mut Vec<Effect>)
        requires
            old(self)@.wf(),
            (tc as int) < old(self)@.clients.len(),
            old(self)@.clients[tc as int].alive,
        ensures
            final(self)@.wf(),
            final(self)@ == focused_state(old(self)@, tc),
            final(fx)@ == old(fx)@ + focused_effects(old(self)@, tc),
    {
        let ghost v = self@;
        let cl = self.clients[tc];
        let m = cl.mon;
        proof {
            assert(v.mon_ok(m as int));
            assert(v.mons[m as int].clients.contains(tc));
        }
        self.selmon = m;
        if cl.isurgent {
            self.clients[tc].isurgent = false;
            fx.push(Effect::SetUrgent { win: cl.win, urgent: false });
        }
        let ghost mv = v.mons[m as int];
        let ghost ns = seq![tc] + mv.stack.remove_value(tc);
        let mut st = Vec::new();
        std::mem::swap(&mut st, &mut self.mons[m].stack);
        let n = st.len();
        let mut i: usize = 0;
        while i < n && st[i] != tc
            invariant
                n == st@.len(),
                st@ == mv.stack,
                i <= n,
                forall|j: int| 0 <= j < i ==> st@[j] != tc,
            decreases n - i,
        {
            i += 1;
        }
        proof {
            if i == n {
                assert(mv.stack.contains(tc));
                let j = choose|j: int| 0 <= j < mv.stack.len() && mv.stack[j] == tc;
                assert(false);
            }
            crate::seqs::lemma_remove_value_at(mv.stack, tc, i as int);
        }
        st.remove(i);
        st.insert(0, tc);
        proof { assert(st@ =~= ns); }
        self.mons[m].stack = st;
        self.mons[m].sel = Some(tc);
        fx.push(Effect::GrabButtons { win: cl.win, focused: true });
        fx.push(Effect::SetBorder { win: cl.win, selected: true });
        fx.push(Effect::SetFocus { win: cl.win, neverfocus: cl.neverfocus });
        proof {
            let v2 = focused_state(v, tc);
            assert(self@.clients =~= v2.clients);
            assert(self@.mons =~= v2.mons);
            assert(self@.names =~= v2.names);
            assert(self@ == v2);
            lemma_focus_wf(v, tc);
            assert(fx@ =~= old(fx)@ + focused_effects(v, tc));
        }
    }

    /// Focuses client `c`, or, where it is absent or hidden, the first visible
    /// client of the selected monitor's focus stack.
    #[verifier::rlimit(30)]
    pub fn focus(&mut self, c: Option<usize>, fx: &mut Vec<Effect>)
        requires
            old(self)@.wf(),
            c matches Some(id) ==> (id as int) < old(self)@.clients.len() && old(self)@.clients[id as int].alive,
        ensures
            final(self)@.wf(),
            final(self)@ == focus_state(old(self)@, c),
            final(fx)@ == old(fx)@ + focus_effects(old(self)@, c),
            final(self)@.mons.len() == old(self)@.mons.len(),
            final(self)@.clients.len() == old(self)@.clients.len(),
    {
        let ghost v = self@;
        proof { assert(v.mon_ok(v.selmon as int)); }
        let sm = self.selmon;
        let mut t: Option<usize> = None;
        match c {
            Some(id) => {
                proof { assert(v.clients[id as int].mon < v.mons.len()); assert(v.mon_ok(v.clients[id as int].mon as int)); }
                if self.isvisible(id) {
                    t = Some(id);
                }
            },
            None => {},
        }
        if t.is_none() {
            t = self.first_visible_in_stack(sm);
        }
        assert(t == focus_target(v, c));
        let ghost fx0 = fx@;
        match self.mons[sm].sel {
            Some(s) => {
                if Some(s) != t {
                    proof {
                        let j = choose|j: int| 0 <= j < v.mons[sm as int].clients.len() && v.mons[sm as int].clients[j] == s;
                        assert(v.client_on(v.mons[sm as int].clients[j] as int, sm as int));
                    }
                    self.unfocus(s, false, fx);
                }
            },
            None => {},
        }
        let ghost fx1 = fx@;
        match t {
            Some(tc) => {
                proof {
                    if c != Some(tc) || !v.visible(tc as int) {
                        assert(v.mons[sm as int].stack.contains(tc));
                        let j = choose|j: int| 0 <= j < v.mons[sm as int].stack.len() && v.mons[sm as int].stack[j] == tc;
                        assert(v.client_on(v.mons[sm as int].stack[j] as int, sm as int));
                    }
                }
                self.focus_on(tc, fx);
            },
            None => {
                fx.push(Effect::FocusRoot);
                self.mons[sm].sel = None;
                proof {
                    let v2 = focus_state(v, c);
                    assert(self@.mons =~= v2.mons);
                    assert(self@.names =~= v2.names);
                    assert(self@ == v2);
                    let mv = v.mons[sm as int];
                    let nm = MonitorView { sel: None, ..mv };
                    assert(v.set_mon(sm as int, nm).mon_ok(sm as int)) by {
                        assert forall|k: int| 0 <= k < nm.clients.len() implies #[trigger] v.set_mon(sm as int, nm).client_on(nm.clients[k] as int, sm as int) by {
                            assert(v.client_on(mv.clients[k] as int, sm as int));
                        }
                        assert forall|k: int| 0 <= k < nm.stack.len() implies #[trigger] v.set_mon(sm as int, nm).client_on(nm.stack[k] as int, sm as int) by {
                            assert(v.client_on(mv.stack[k] as int, sm as int));
                        }
                    }
                    lemma_wf_set_mon(v, sm as int, nm);
                }
            },
        }
        self.drawbars(fx);
        proof {
            assert(fx@ =~= old(fx)@ + focus_effects(v, c));
        }
    }
}

/// Clearing the selection of the selected monitor keeps the state well formed.
pub proof fn lemma_focus_root_wf(v: WmView)
    requires
        v.wf(),
    ensures
        v.set_mon(v.selmon as int, MonitorView { sel: None, ..v.mons[v.selmon as int] }).wf(),
{
    let sm = v.selmon as int;
    let mv = v.mons[sm];
    let nm = MonitorView { sel: None, ..mv };
    assert(v.mon_ok(sm));
    assert(v.set_mon(sm, nm).mon_ok(sm)) by {
        assert forall|k: int| 0 <= k < nm.clients.len() implies #[trigger] v.set_mon(sm, nm).client_on(nm.clients[k] as int, sm) by {
            assert(v.client_on(mv.clients[k] as int, sm));
        }
        assert forall|k: int| 0 <= k < nm.stack.len() implies #[trigger] v.set_mon(sm, nm).client_on(nm.stack[k] as int, sm) by {
            assert(v.client_on(mv.stack[k] as int, sm));
        }
    }
    lemma_wf_set_mon(v, sm, nm);
}

/// Focusing a visible, managed client keeps the state well formed.
pub proof fn lemma_focus_wf(v: WmView, t: usize)
    requires
        v.wf(),
        (t as int) < v.clients.len(),
        v.clients[t as int].alive,
    ensures
        focused_state(v, t).wf(),
{
    let cl = v.clients[t as int];
    let m = cl.mon as int;
    let mv = v.mons[m];
    assert(v.mon_ok(m));
    assert(mv.clients.contains(t));
    let ns = seq![t] + mv.stack.remove_value(t);
    lemma_remove_value_no_dup(mv.stack, t);
    lemma_prepend(mv.stack.remove_value(t), t);
    let nm = MonitorView { stack: ns, sel: Some(t), ..mv };
    let v1 = v.set_client(t as int, Client { isurgent: false, ..cl });
    crate::engine::lemma_wf_set_client(v, t as int, Client { isurgent: false, ..cl });
    assert(v1.mon_ok(m));
    assert(v1.set_mon(m, nm).mon_ok(m)) by {
        let v2 = v1.set_mon(m, nm);
        assert forall|k: int| 0 <= k < nm.clients.len() implies #[trigger] v2.client_on(nm.clients[k] as int, m) by {
            assert(v1.client_on(mv.clients[k] as int, m));
        }
        assert forall|k: int| 0 <= k < nm.stack.len() implies #[trigger] v2.client_on(nm.stack[k] as int, m) by {
            if k == 0 {
            } else {
                assert(ns[k] == mv.stack.remove_value(t)[k - 1]);
                assert(mv.stack.remove_value(t).contains(ns[k]));
                assert(mv.stack.contains(ns[k]));
                let j = choose|j: int| 0 <= j < mv.stack.len() && mv.stack[j] == ns[k];
                assert(v1.client_on(mv.stack[j] as int, m));
            }
        }
        assert forall|id: usize| #[trigger] nm.clients.contains(id) <==> nm.stack.contains(id) by {
            assert(mv.clients.contains(id) <==> mv.stack.contains(id));
        }
    }
    lemma_wf_set_mon(v1, m, nm);
    let v3 = v1.set_mon(m, nm);
    assert(v3.mons =~= v.mons.update(m, nm));
    assert(v3.wf());
    let v4 = WmView { selmon: cl.mon, ..v3 };
    assert(cl.mon < v.mons.len());
    assert(v4.mons == v3.mons && v4.clients == v3.clients);
    assert(v4.wf()) by {
        assert forall|mm: int| 0 <= mm < v4.mons.len() implies #[trigger] v4.mon_ok(mm) by {
            assert(v3.mon_ok(mm));
            let mon = v3.mons[mm];
            assert forall|k: int| 0 <= k < mon.clients.len() implies #[trigger] v4.client_on(mon.clients[k] as int, mm) by {
                assert(v3.client_on(mon.clients[k] as int, mm));
            }
            assert forall|k: int| 0 <= k < mon.stack.len() implies #[trigger] v4.client_on(mon.stack[k] as int, mm) by {
                assert(v3.client_on(mon.stack[k] as int, mm));
            }
        }
        assert forall|id: int| 0 <= id < v4.clients.len() && (#[trigger] v4.clients[id]).alive implies
            v4.clients[id].mon < v4.mons.len() && v4.mons[v4.clients[id].mon as int].clients.contains(id as usize) by {
            assert(v3.clients[id].alive);
        }
    }
    assert(v4 == focused_state(v, t));
}


/// From state `t`, the focus was reset to the first visible client and
/// monitor `m` arranged, ending in `v2`, with the requests `e`: those of the
/// focus change, then those of the arranging.
pub open spec fn refocused_arranged<F: Fn(crate::engine::FloatQuery) -> (i32, i32)>(
    t: WmView, m: int, v2: WmView, e: Seq<Effect>, fq: &F,
) -> bool {
    let fe = focus_effects(t, None);
    &&& fe.len() <= e.len()
    &&& e.subrange(0, fe.len() as int) == fe
    &&& crate::engine::arranged_fx(focus_state(t, None), m, v2, e.subrange(fe.len() as int, e.len() as int), fq)
}

/// Resetting the focus, then arranging, makes the requests of both.
pub proof fn lemma_refocused<F: Fn(crate::engine::FloatQuery) -> (i32, i32)>(
    t: WmView, m: int, v2: WmView, f0: Seq<Effect>, f1: Seq<Effect>, f2: Seq<Effect>, fq: &F,
)
    requires
        f1 == f0 + focus_effects(t, None),
        f2 == f1 + crate::engine::added(f1, f2),
        crate::engine::arranged_fx(focus_state(t, None), m, v2, crate::engine::added(f1, f2), fq),
    ensures
        refocused_arranged(t, m, v2, crate::engine::added(f0, f2), fq),
        f2 == f0 + crate::engine::added(f0, f2),
{
    let fe = focus_effects(t, None);
    let e = crate::engine::added(f0, f2);
    assert(e =~= fe + crate::engine::added(f1, f2));
    assert(e.subrange(0, fe.len() as int) =~= fe);
    assert(e.subrange(fe.len() as int, e.len() as int) =~= crate::engine::added(f1, f2));
    assert(f2 =~= f0 + e);
}


/// From state `v`, monitor `m` was arranged, then the focus reset to the
/// first visible client, ending in `v2`, with the requests `e`.
pub open spec fn arranged_refocused<F: Fn(crate::engine::FloatQuery) -> (i32, i32)>(
    v: WmView, m: int, v2: WmView, e: Seq<Effect>, fq: &F,
) -> bool {
    exists|v3: WmView, e1: Seq<Effect>| {
        &&& #[trigger] crate::engine::arranged_fx(v, m, v3, e1, fq)
        &&& v2 == focus_state(v3, None)
        &&& e == e1 + focus_effects(v3, None)
    }
}

impl Wm {
    /// Arranges monitor `m`, then resets the focus to the first visible client.
    pub fn arrange_then_focus<F: Fn(crate::engine::FloatQuery) -> (i32, i32)>(&mut self, m: usize, fq: &F, fx: &mut Vec<Effect>)
        requires
            old(self)@.wf(),
            (m as int) < old(self)@.mons.len(),
            crate::engine::answers_all(fq),
        ensures
            final(self)@.wf(),
            final(fx)@ == old(fx)@ + crate::engine::added(old(fx)@, final(fx)@),
            arranged_refocused(old(self)@, m as int, final(self)@, crate::engine::added(old(fx)@, final(fx)@), fq),
            exists|v3: WmView| #[trigger] crate::engine::arranged(old(self)@, m as int, v3, fq) && final(self)@ == focus_state(v3, None),
            final(self)@.clients.len() == old(self)@.clients.len(),
    {
        let ghost v = self@;
        self.arrange(Some(m), fq, fx);
        let ghost v3 = self@;
        let ghost f1 = fx@;
        self.focus(None, fx);
        proof {
            let e1 = crate::engine::added(old(fx)@, f1);
            let e = crate::engine::added(old(fx)@, fx@);
            assert(e =~= e1 + focus_effects(v3, None));
            assert(crate::engine::arranged_fx(v, m as int, v3, e1, fq));
            assert(fx@ =~= old(fx)@ + e);
            assert(crate::engine::arranged(v, m as int, v3, fq));
        }
    }
}

} // verus!
