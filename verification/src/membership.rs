use vstd::prelude::*;
use crate::model::{Client, MonitorView, WmView, MAX_CLIENTS};
use crate::seqs::{lemma_prepend, lemma_remove_value_no_dup};
use crate::clients::lemma_first_visible_in;

verus! {

/// Client `c` taken out of both lists of its monitor; where it was the
/// selection, the first visible client left in the focus stack is selected.
pub open spec fn detached(v: WmView, c: usize) -> WmView {
    let om = v.clients[c as int].mon as int;
    let omv = v.mons[om];
    let st = omv.stack.remove_value(c);
    v.set_mon(om, MonitorView {
        clients: omv.clients.remove_value(c),
        stack: st,
        sel: if omv.sel == Some(c) { v.first_visible(st) } else { omv.sel },
        ..omv
    })
}

/// Client `c` put at the head of both lists of its monitor.
pub open spec fn attached(v: WmView, c: usize) -> WmView {
    let m = v.clients[c as int].mon as int;
    let mv = v.mons[m];
    v.set_mon(m, MonitorView { clients: seq![c] + mv.clients, stack: seq![c] + mv.stack, ..mv })
}

impl WmView {
    /// Well formed but for client `c`, which no monitor lists.
    pub open spec fn wf_without(self, c: int) -> bool {
        &&& self.mons.len() > 0
        &&& self.selmon < self.mons.len()
        &&& self.names.len() == self.clients.len()
        &&& 0 <= c < self.clients.len()
        &&& (forall|m: int| 0 <= m < self.mons.len() ==> #[trigger] self.mon_ok(m))
        &&& (forall|m: int| 0 <= m < self.mons.len() ==> !(#[trigger] self.mons[m]).clients.contains(c as usize))
        &&& (forall|id: int| 0 <= id < self.clients.len() && id != c && (#[trigger] self.clients[id]).alive ==>
                self.clients[id].mon < self.mons.len()
                && self.mons[self.clients[id].mon as int].clients.contains(id as usize)
                && Self::tagset_ok(self.clients[id].tags))
    }
}

/// Taking a managed client out of its monitor's lists leaves a state well
/// formed but for that client.
pub proof fn lemma_detached(v: WmView, c: usize)
    requires
        v.wf(),
        (c as int) < v.clients.len(),
        v.clients.len() <= usize::MAX,
        v.clients[c as int].alive,
    ensures
        detached(v, c).wf_without(c as int),
        detached(v, c).clients == v.clients,
        detached(v, c).mons.len() == v.mons.len(),
{
    let d = detached(v, c);
    let om = v.clients[c as int].mon as int;
    let omv = v.mons[om];
    let st = omv.stack.remove_value(c);
    let cl = omv.clients.remove_value(c);
    assert(v.mon_ok(om));
    lemma_remove_value_no_dup(omv.clients, c);
    lemma_remove_value_no_dup(omv.stack, c);
    lemma_first_visible_in(v, st);
    assert forall|m: int| 0 <= m < d.mons.len() implies #[trigger] d.mon_ok(m) && !d.mons[m].clients.contains(c) by {
        assert(v.mon_ok(m));
        if m == om {
            assert forall|k: int| 0 <= k < cl.len() implies #[trigger] d.client_on(cl[k] as int, m) by {
                assert(cl.contains(cl[k]));
                let j = choose|j: int| 0 <= j < omv.clients.len() && omv.clients[j] == cl[k];
                assert(v.client_on(omv.clients[j] as int, m));
            }
            assert forall|k: int| 0 <= k < st.len() implies #[trigger] d.client_on(st[k] as int, m) by {
                assert(st.contains(st[k]));
                let j = choose|j: int| 0 <= j < omv.stack.len() && omv.stack[j] == st[k];
                assert(v.client_on(omv.stack[j] as int, m));
            }
            assert forall|id: usize| #[trigger] cl.contains(id) <==> st.contains(id) by {
                assert(omv.clients.contains(id) <==> omv.stack.contains(id));
            }
        } else {
            let mon = v.mons[m];
            assert forall|k: int| 0 <= k < mon.clients.len() implies #[trigger] d.client_on(mon.clients[k] as int, m) by {
                assert(v.client_on(mon.clients[k] as int, m));
            }
            assert forall|k: int| 0 <= k < mon.stack.len() implies #[trigger] d.client_on(mon.stack[k] as int, m) by {
                assert(v.client_on(mon.stack[k] as int, m));
            }
            if mon.clients.contains(c) {
                let j = choose|j: int| 0 <= j < mon.clients.len() && mon.clients[j] == c;
                assert(v.client_on(mon.clients[j] as int, m));
            }
        }
    }
    assert forall|m: int| 0 <= m < d.mons.len() implies !(#[trigger] d.mons[m]).clients.contains(c) by {
        assert(d.mon_ok(m) && !d.mons[m].clients.contains(c));
    }
    assert forall|id: int| 0 <= id < d.clients.len() && id != c && (#[trigger] d.clients[id]).alive implies
        d.clients[id].mon < d.mons.len()
        && d.mons[d.clients[id].mon as int].clients.contains(id as usize)
        && WmView::tagset_ok(d.clients[id].tags) by {
        assert(v.clients[id].alive);
        assert(v.mons[v.clients[id].mon as int].clients.contains(id as usize));
        if v.clients[id].mon as int == om {
            assert(omv.clients.contains(id as usize));
            assert(id as usize != c);
            assert(cl.contains(id as usize));
        }
    }
}

/// Changing client `c` keeps a state that is well formed but for `c` so.
pub proof fn lemma_without_set_client(v: WmView, c: int, cl: Client)
    requires
        v.wf_without(c),
    ensures
        v.set_client(c, cl).wf_without(c),
{
    let v2 = v.set_client(c, cl);
    assert forall|m: int| 0 <= m < v2.mons.len() implies #[trigger] v2.mon_ok(m) by {
        assert(v.mon_ok(m));
        assert(!v.mons[m].clients.contains(c as usize));
        let mon = v.mons[m];
        assert forall|k: int| 0 <= k < mon.clients.len() implies #[trigger] v2.client_on(mon.clients[k] as int, m) by {
            assert(v.client_on(mon.clients[k] as int, m));
        }
        assert forall|k: int| 0 <= k < mon.stack.len() implies #[trigger] v2.client_on(mon.stack[k] as int, m) by {
            assert(v.client_on(mon.stack[k] as int, m));
            if mon.stack[k] as int == c {
                assert(mon.stack.contains(mon.stack[k]));
            }
        }
    }
    assert forall|id: int| 0 <= id < v2.clients.len() && id != c && (#[trigger] v2.clients[id]).alive implies
        v2.clients[id].mon < v2.mons.len()
        && v2.mons[v2.clients[id].mon as int].clients.contains(id as usize)
        && WmView::tagset_ok(v2.clients[id].tags) by {
        assert(v.clients[id].alive);
    }
}

/// A state well formed but for a client that is not managed is well formed.
pub proof fn lemma_without_dead(v: WmView, c: int)
    requires
        v.wf_without(c),
        !v.clients[c].alive,
    ensures
        v.wf(),
{
    assert forall|m: int| 0 <= m < v.mons.len() implies #[trigger] v.mon_ok(m) by {
        assert(v.mon_ok(m));
    }
    assert forall|id: int| 0 <= id < v.clients.len() && (#[trigger] v.clients[id]).alive implies
        v.clients[id].mon < v.mons.len()
        && v.mons[v.clients[id].mon as int].clients.contains(id as usize)
        && WmView::tagset_ok(v.clients[id].tags) by {
    }
}

/// Putting a managed client that no monitor lists at the head of its
/// monitor's lists makes the state well formed.
pub proof fn lemma_attached(v: WmView, c: usize)
    requires
        v.wf_without(c as int),
        v.clients[c as int].alive,
        v.clients[c as int].mon < v.mons.len(),
        WmView::tagset_ok(v.clients[c as int].tags),
        v.mons[v.clients[c as int].mon as int].clients.len() + 1 < MAX_CLIENTS,
    ensures
        attached(v, c).wf(),
        attached(v, c).clients == v.clients,
        attached(v, c).mons.len() == v.mons.len(),
{
    let a = attached(v, c);
    let m0 = v.clients[c as int].mon as int;
    let mv = v.mons[m0];
    assert(v.mon_ok(m0));
    assert(!v.mons[m0].clients.contains(c));
    assert(!mv.stack.contains(c)) by {
        assert(mv.clients.contains(c) <==> mv.stack.contains(c));
    }
    lemma_prepend(mv.clients, c);
    lemma_prepend(mv.stack, c);
    assert forall|m: int| 0 <= m < a.mons.len() implies #[trigger] a.mon_ok(m) by {
        assert(v.mon_ok(m));
        if m == m0 {
            let ncl = seq![c] + mv.clients;
            let nst = seq![c] + mv.stack;
            assert forall|k: int| 0 <= k < ncl.len() implies #[trigger] a.client_on(ncl[k] as int, m) by {
                if k > 0 {
                    assert(ncl[k] == mv.clients[k - 1]);
                    assert(v.client_on(mv.clients[k - 1] as int, m));
                }
            }
            assert forall|k: int| 0 <= k < nst.len() implies #[trigger] a.client_on(nst[k] as int, m) by {
                if k > 0 {
                    assert(nst[k] == mv.stack[k - 1]);
                    assert(v.client_on(mv.stack[k - 1] as int, m));
                }
            }
            assert forall|id: usize| #[trigger] ncl.contains(id) <==> nst.contains(id) by {
                assert(mv.clients.contains(id) <==> mv.stack.contains(id));
            }
        } else {
            let mon = v.mons[m];
            assert forall|k: int| 0 <= k < mon.clients.len() implies #[trigger] a.client_on(mon.clients[k] as int, m) by {
                assert(v.client_on(mon.clients[k] as int, m));
            }
            assert forall|k: int| 0 <= k < mon.stack.len() implies #[trigger] a.client_on(mon.stack[k] as int, m) by {
                assert(v.client_on(mon.stack[k] as int, m));
            }
        }
    }
    assert forall|id: int| 0 <= id < a.clients.len() && (#[trigger] a.clients[id]).alive implies
        a.clients[id].mon < a.mons.len()
        && a.mons[a.clients[id].mon as int].clients.contains(id as usize)
        && WmView::tagset_ok(a.clients[id].tags) by {
        if id != c as int {
            assert(v.clients[id].alive);
            assert(v.mons[v.clients[id].mon as int].clients.contains(id as usize));
        }
    }
}

} // verus!
