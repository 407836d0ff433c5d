use vstd::prelude::*;
use crate::clients::lemma_first_visible_frame;
use crate::commands::dirtomon_spec;
use crate::engine::{Effect, FloatQuery, answers_all, arranged_all};
use crate::focus::{focus_effects, focus_state, unfocus_effects};
use crate::membership::{attached, detached, lemma_attached, lemma_detached, lemma_without_set_client};
use crate::model::{Client, MonitorView, Wm, WmView, MAX_CLIENTS};

verus! {

/// Client `c` moved to monitor `m`: out of its old monitor's lists, onto the
/// tags that `m` shows, and at the head of `m`'s lists.
pub open spec fn sent_state(v: WmView, c: usize, m: usize) -> WmView {
    let cl = v.clients[c as int];
    attached(detached(v, c).set_client(c as int, Client { mon: m, tags: v.shown_tags(m as int), ..cl }), c)
}

/// Sending client `c` to monitor `m` took `v` to `v2`: nothing where it is
/// there already; else it moves there, the focus is reset and every
/// monitor arranged.
pub open spec fn sendmon_post<F: Fn(FloatQuery) -> (i32, i32)>(v: WmView, c: usize, m: usize, v2: WmView, fq: &F) -> bool {
    if v.clients[c as int].mon == m {
        v2 == v
    } else {
        arranged_all(focus_state(sent_state(v, c, m), None), v2, fq)
    }
}

/// Detaching client `c` from both lists of its monitor gives `detached`.
proof fn lemma_detach_steps(v: WmView, mid: WmView, c: usize)
    requires
        v.wf(),
        (c as int) < v.clients.len(),
        v.clients[c as int].alive,
        ({
            let om = v.clients[c as int].mon as int;
            let omv = v.mons[om];
            mid == v.set_mon(om, MonitorView { clients: omv.clients.remove_value(c), ..omv })
        }),
    ensures
        ({
            let om = v.clients[c as int].mon as int;
            let omv = v.mons[om];
            let st = omv.stack.remove_value(c);
            mid.set_mon(om, MonitorView {
                stack: st,
                sel: if omv.sel == Some(c) { mid.first_visible(st) } else { omv.sel },
                ..mid.mons[om]
            }) == detached(v, c)
        }),
{
    let om = v.clients[c as int].mon as int;
    let omv = v.mons[om];
    let st = omv.stack.remove_value(c);
    assert(v.mon_ok(om));
    crate::seqs::lemma_remove_value_no_dup(omv.stack, c);
    assert forall|k: int| 0 <= k < st.len() implies (#[trigger] mid.clients[st[k] as int]).mon < mid.mons.len() by {
        assert(st.contains(st[k]));
        let j = choose|j: int| 0 <= j < omv.stack.len() && omv.stack[j] == st[k];
        assert(v.client_on(omv.stack[j] as int, om));
    }
    assert forall|m: int| 0 <= m < mid.mons.len() implies #[trigger] mid.shown_tags(m) == v.shown_tags(m) by {}
    lemma_first_visible_frame(mid, v, st);
    let a = mid.set_mon(om, MonitorView {
        stack: st,
        sel: if omv.sel == Some(c) { mid.first_visible(st) } else { omv.sel },
        ..mid.mons[om]
    });
    assert(a.mons =~= detached(v, c).mons);
}

impl Wm {
    /// Takes managed client `c` out of its monitor's lists.
    pub fn detach_both(&mut self, c: usize)
        requires
            old(self)@.wf(),
            (c as int) < old(self)@.clients.len(),
            old(self)@.clients[c as int].alive,
        ensures
            final(self)@ == detached(old(self)@, c),
            final(self)@.wf_without(c as int),
    {
        let ghost v = self@;
        let om = self.clients[c].mon;
        proof { assert(v.mon_ok(om as int)); }
        let n = self.clients.len();
        proof { lemma_detached(v, c); }
        self.detach(c);
        let ghost mid = self@;
        proof {
            assert forall|k: int| 0 <= k < mid.mons[om as int].stack.len() implies
                #[trigger] mid.client_on(mid.mons[om as int].stack[k] as int, om as int) by {
                assert(v.client_on(v.mons[om as int].stack[k] as int, om as int));
            }
        }
        self.detachstack(c);
        proof { lemma_detach_steps(v, mid, c); }
    }

    /// Moves client `c`, which no monitor lists, to monitor `m` and the tags
    /// that `m` shows, at the head of `m`'s lists.
    fn reattach(&mut self, c: usize, m: usize)
        requires
            old(self)@.wf_without(c as int),
            old(self)@.clients[c as int].alive,
            (m as int) < old(self)@.mons.len(),
            old(self)@.mons[m as int].clients.len() + 1 < MAX_CLIENTS,
        ensures
            final(self)@.wf(),
            final(self)@ == attached(old(self)@.set_client(c as int,
                Client { mon: m, tags: old(self)@.shown_tags(m as int), ..old(self)@.clients[c as int] }), c),
    {
        let ghost d = self@;
        let st = self.mons[m].seltags;
        proof { assert(d.mon_ok(m as int)); }
        let tags = self.mons[m].tagset[st];
        self.clients[c].mon = m;
        self.clients[c].tags = tags;
        let ghost cl2 = Client { mon: m, tags: d.shown_tags(m as int), ..d.clients[c as int] };
        proof {
            assert(self@.clients =~= d.set_client(c as int, cl2).clients);
            assert(self@.names =~= d.names);
            assert(self@.mons =~= d.mons);
            lemma_without_set_client(d, c as int, cl2);
        }
        self.attach(c);
        self.attachstack(c);
        proof {
            let d2 = d.set_client(c as int, cl2);
            lemma_attached(d2, c);
            assert(self@.mons =~= attached(d2, c).mons);
            assert(self@.names =~= attached(d2, c).names);
        }
    }
}

/// Moves client `c` to monitor `m`, onto the tags that `m` shows; then
/// focuses and arranges every monitor. A client already on `m` stays as it is.
pub fn sendmon<F: Fn(FloatQuery) -> (i32, i32)>(wm: &mut Wm, c: usize, m: usize, fq: &F, fx: &mut Vec<Effect>)
    requires
        old(wm)@.wf(),
        (c as int) < old(wm)@.clients.len(),
        old(wm)@.clients[c as int].alive,
        (m as int) < old(wm)@.mons.len(),
        old(wm)@.mons[m as int].clients.len() + 1 < MAX_CLIENTS,
        answers_all(fq),
    ensures
        final(wm)@.wf(),
        old(wm)@.clients[c as int].mon == m ==> final(wm)@ == old(wm)@ && final(fx)@ == old(fx)@,
        sendmon_post(old(wm)@, c, m, final(wm)@, fq),
        final(wm)@.mons.len() == old(wm)@.mons.len(),
        old(wm)@.clients[c as int].mon != m ==> ({
            let t = sent_state(old(wm)@, c, m);
            let pre = unfocus_effects(old(wm)@, c, true) + focus_effects(t, None);
            &&& (old(fx)@ + pre).is_prefix_of(final(fx)@)
            &&& final(fx)@ == old(fx)@ + pre + crate::engine::added(old(fx)@ + pre, final(fx)@)
            &&& crate::engine::arranged_all_fx(focus_state(t, None), final(wm)@, crate::engine::added(old(fx)@ + pre, final(fx)@), fq)
        }),
{
    let ghost v = wm@;
    let om = wm.clients[c].mon;
    if om == m {
        return;
    }
    wm.unfocus(c, true, fx);
    wm.detach_both(c);
    proof {
        assert(v.mon_ok(om as int));
        assert(wm@.mons[m as int] == v.mons[m as int]);
        assert(wm@.shown_tags(m as int) == v.shown_tags(m as int));
    }
    wm.reattach(c, m);
    let ghost t = wm@;
    proof { assert(t.mons.len() == v.mons.len()); }
    wm.focus(None, fx);
    proof { assert(wm@.mons.len() == v.mons.len()); }
    let ghost fx2 = fx@;
    wm.arrange(None, fq, fx);
    proof {
        let pre = unfocus_effects(v, c, true) + focus_effects(t, None);
        assert(fx2 =~= old(fx)@ + pre);
    }
}

/// Sends the selected client to the next (positive `i`) or previous monitor,
/// where there is a selected client and more than one monitor.
pub fn tagmon<F: Fn(FloatQuery) -> (i32, i32)>(wm: &mut Wm, i: i32, fq: &F, fx: &mut Vec<Effect>)
    requires
        old(wm)@.wf(),
        old(wm)@.mons[dirtomon_spec(old(wm)@, i) as int].clients.len() + 1 < MAX_CLIENTS,
        answers_all(fq),
    ensures
        final(wm)@.wf(),
        ({
            let v = old(wm)@;
            match v.mons[v.selmon as int].sel {
                Some(s) if v.mons.len() > 1 && v.clients[s as int].mon != dirtomon_spec(v, i) => {
                    let t = sent_state(v, s, dirtomon_spec(v, i));
                    let pre = unfocus_effects(v, s, true) + focus_effects(t, None);
                    &&& arranged_all(focus_state(t, None), final(wm)@, fq)
                    &&& (old(fx)@ + pre).is_prefix_of(final(fx)@)
                    &&& final(fx)@ == old(fx)@ + pre + crate::engine::added(old(fx)@ + pre, final(fx)@)
                    &&& crate::engine::arranged_all_fx(focus_state(t, None), final(wm)@, crate::engine::added(old(fx)@ + pre, final(fx)@), fq)
                },
                _ => final(wm)@ == v && final(fx)@ == old(fx)@,
            }
        }),
{
    let ghost v = wm@;
    let sm = wm.selmon;
    proof { assert(v.mon_ok(sm as int)); }
    let s = match wm.mons[sm].sel {
        Some(s) => s,
        None => { return; },
    };
    if wm.mons.len() <= 1 {
        return;
    }
    proof {
        let j = choose|j: int| 0 <= j < v.mons[sm as int].clients.len() && v.mons[sm as int].clients[j] == s;
        assert(v.client_on(v.mons[sm as int].clients[j] as int, sm as int));
    }
    let m = wm.dirtomon(i);
    sendmon(wm, s, m, fq, fx);
}

} // verus!
