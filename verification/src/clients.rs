use vstd::prelude::*;
use crate::model::{Client, Monitor, MonitorView, Wm, WmView};
use crate::seqs::{lemma_prepend, lemma_remove_value_at, lemma_remove_value_no_dup};

verus! {

/// The first visible client of `s` from position `i` on is the first visible
/// client of the rest of `s` where the clients before `i` are not visible.
proof fn lemma_first_visible_step(v: WmView, s: Seq<usize>, i: int)
    requires
        0 <= i < s.len(),
    ensures
        v.first_visible(s.subrange(i, s.len() as int)) ==
            (if v.visible(s[i] as int) { Some(s[i]) } else { v.first_visible(s.subrange(i + 1, s.len() as int)) }),
{
    assert(s.subrange(i, s.len() as int).drop_first() =~= s.subrange(i + 1, s.len() as int));
}

/// Visibility of clients depends only on the clients and the shown tags.
pub proof fn lemma_first_visible_frame(a: WmView, b: WmView, s: Seq<usize>)
    requires
        a.clients == b.clients,
        a.mons.len() == b.mons.len(),
        forall|m: int| 0 <= m < a.mons.len() ==> #[trigger] a.shown_tags(m) == b.shown_tags(m),
        forall|k: int| 0 <= k < s.len() ==> (#[trigger] a.clients[s[k] as int]).mon < a.mons.len(),
    ensures
        a.first_visible(s) == b.first_visible(s),
    decreases s.len(),
{
    if s.len() > 0 {
        assert(a.clients[s[0] as int].mon < a.mons.len());
        assert(a.shown_tags(a.clients[s[0] as int].mon as int) == b.shown_tags(a.clients[s[0] as int].mon as int));
        assert forall|k: int| 0 <= k < s.drop_first().len() implies (#[trigger] a.clients[s.drop_first()[k] as int]).mon < a.mons.len() by {
            assert(s.drop_first()[k] == s[k + 1]);
            assert(a.clients[s[k + 1] as int].mon < a.mons.len());
        }
        lemma_first_visible_frame(a, b, s.drop_first());
    }
}

/// The first visible client of a sequence is one of its clients.
pub proof fn lemma_first_visible_in(v: WmView, s: Seq<usize>)
    ensures
        v.first_visible(s) matches Some(t) ==> s.contains(t),
    decreases s.len(),
{
    if s.len() > 0 && !v.visible(s[0] as int) {
        lemma_first_visible_in(v, s.drop_first());
        if let Some(t) = v.first_visible(s.drop_first()) {
            let j = choose|j: int| 0 <= j < s.drop_first().len() && s.drop_first()[j] == t;
            assert(s[j + 1] == t);
        }
    } else if s.len() > 0 {
        assert(s[0] == s[0]);
    }
}

impl Wm {
    /// Whether client `c` carries a tag that its monitor shows.
    pub fn isvisible(&self, c: usize) -> (r: bool)
        requires
            c < self@.clients.len(),
            self@.clients[c as int].mon < self@.mons.len(),
            self@.mons[self@.clients[c as int].mon as int].seltags < 2,
        ensures
            r == self@.visible(c as int),
    {
        let m = self.clients[c].mon;
        let st = self.mons[m].seltags;
        self.clients[c].tags & self.mons[m].tagset[st] != 0
    }

    /// Puts client `c` at the head of its monitor's client list.
    pub fn attach(&mut self, c: usize)
        requires
            c < old(self)@.clients.len(),
            old(self)@.clients[c as int].mon < old(self)@.mons.len(),
        ensures
            ({
                let m = old(self)@.clients[c as int].mon as int;
                let mv = old(self)@.mons[m];
                final(self)@ == old(self)@.set_mon(m, MonitorView { clients: seq![c] + mv.clients, ..mv })
            }),
    {
        let m = self.clients[c].mon;
        self.mons[m].clients.insert(0, c);
        proof {
            let mv = old(self)@.mons[m as int];
            assert(self.mons@[m as int].clients@ =~= seq![c] + mv.clients);
            assert(self@.mons =~= old(self)@.set_mon(m as int, MonitorView { clients: seq![c] + mv.clients, ..mv }).mons);
            assert(self@.names =~= old(self)@.names);
        }
    }

    /// Puts client `c` at the head of its monitor's focus stack.
    pub fn attachstack(&mut self, c: usize)
        requires
            c < old(self)@.clients.len(),
            old(self)@.clients[c as int].mon < old(self)@.mons.len(),
        ensures
            ({
                let m = old(self)@.clients[c as int].mon as int;
                let mv = old(self)@.mons[m];
                final(self)@ == old(self)@.set_mon(m, MonitorView { stack: seq![c] + mv.stack, ..mv })
            }),
    {
        let m = self.clients[c].mon;
        self.mons[m].stack.insert(0, c);
        proof {
            let mv = old(self)@.mons[m as int];
            assert(self.mons@[m as int].stack@ =~= seq![c] + mv.stack);
            assert(self@.mons =~= old(self)@.set_mon(m as int, MonitorView { stack: seq![c] + mv.stack, ..mv }).mons);
            assert(self@.names =~= old(self)@.names);
        }
    }

    /// Takes client `c` out of its monitor's client list.
    pub fn detach(&mut self, c: usize)
        requires
            c < old(self)@.clients.len(),
            old(self)@.clients[c as int].mon < old(self)@.mons.len(),
            old(self)@.mons[old(self)@.clients[c as int].mon as int].clients.contains(c),
        ensures
            ({
                let m = old(self)@.clients[c as int].mon as int;
                let mv = old(self)@.mons[m];
                final(self)@ == old(self)@.set_mon(m, MonitorView { clients: mv.clients.remove_value(c), ..mv })
            }),
    {
        let m = self.clients[c].mon;
        let n = self.mons[m].clients.len();
        let mut i: usize = 0;
        while i < n && self.mons[m].clients[i] != c
            invariant
                m < self.mons@.len(),
                n == self.mons@[m as int].clients@.len(),
                i <= n,
                self@ == old(self)@,
                forall|j: int| 0 <= j < i ==> self.mons@[m as int].clients@[j] != c,
            decreases n - i,
        {
            i += 1;
        }
        let ghost mv = old(self)@.mons[m as int];
        proof {
            if i == n {
                assert(!mv.clients.contains(c));
            }
            lemma_remove_value_at(mv.clients, c, i as int);
        }
        self.mons[m].clients.remove(i);
        proof {
            assert(self.mons@[m as int].clients@ =~= mv.clients.remove_value(c));
            assert(self@.mons =~= old(self)@.set_mon(m as int, MonitorView { clients: mv.clients.remove_value(c), ..mv }).mons);
            assert(self@.names =~= old(self)@.names);
        }
    }

    /// The first visible client of the focus stack of monitor `m`.
    pub fn first_visible_in_stack(&self, m: usize) -> (r: Option<usize>)
        requires
            m < self@.mons.len(),
            self@.mons[m as int].seltags < 2,
            forall|k: int| 0 <= k < self@.mons[m as int].stack.len() ==>
                #[trigger] self@.client_on(self@.mons[m as int].stack[k] as int, m as int),
        ensures
            r == self@.first_visible(self@.mons[m as int].stack),
            r matches Some(t) ==> self@.mons[m as int].stack.contains(t),
    {
        let n = self.mons[m].stack.len();
        let ghost s = self@.mons[m as int].stack;
        let mut i: usize = 0;
        proof { assert(s.subrange(0, n as int) =~= s); }
        while i < n
            invariant
                n == s.len(),
                s == self@.mons[m as int].stack,
                m < self@.mons.len(),
                self@.mons[m as int].seltags < 2,
                forall|k: int| 0 <= k < s.len() ==> #[trigger] self@.client_on(s[k] as int, m as int),
                i <= n,
                self@.first_visible(s.subrange(i as int, n as int)) == self@.first_visible(s),
            decreases n - i,
        {
            let t = self.mons[m].stack[i];
            proof {
                assert(self@.client_on(s[i as int] as int, m as int));
                lemma_first_visible_step(self@, s, i as int);
            }
            if self.isvisible(t) {
                return Some(t);
            }
            i += 1;
        }
        proof { assert(s.subrange(n as int, n as int).len() == 0); }
        None
    }

    /// Takes client `c` out of its monitor's focus stack; where it was the
    /// selected client, the first visible client left in the stack becomes the
    /// selection.
    pub fn detachstack(&mut self, c: usize)
        requires
            c < old(self)@.clients.len(),
            old(self)@.clients[c as int].mon < old(self)@.mons.len(),
            old(self)@.mons[old(self)@.clients[c as int].mon as int].stack.contains(c),
            old(self)@.mons[old(self)@.clients[c as int].mon as int].seltags < 2,
            forall|k: int| 0 <= k < old(self)@.mons[old(self)@.clients[c as int].mon as int].stack.len() ==>
                #[trigger] old(self)@.client_on(old(self)@.mons[old(self)@.clients[c as int].mon as int].stack[k] as int,
                    old(self)@.clients[c as int].mon as int),
        ensures
            ({
                let m = old(self)@.clients[c as int].mon as int;
                let mv = old(self)@.mons[m];
                let st = mv.stack.remove_value(c);
                final(self)@ == old(self)@.set_mon(m, MonitorView {
                    stack: st,
                    sel: if mv.sel == Some(c) { old(self)@.first_visible(st) } else { mv.sel },
                    ..mv
                })
            }),
    {
        let m = self.clients[c].mon;
        let n = self.mons[m].stack.len();
        let mut i: usize = 0;
        while i < n && self.mons[m].stack[i] != c
            invariant
                m < self.mons@.len(),
                n == self.mons@[m as int].stack@.len(),
                i <= n,
                self@ == old(self)@,
                forall|j: int| 0 <= j < i ==> self.mons@[m as int].stack@[j] != c,
            decreases n - i,
        {
            i += 1;
        }
        let ghost mv = old(self)@.mons[m as int];
        let ghost st = mv.stack.remove_value(c);
        proof {
            if i == n {
                assert(!mv.stack.contains(c));
            }
            lemma_remove_value_at(mv.stack, c, i as int);
            mv.stack.remove_ensures(i as int);
        }
        self.mons[m].stack.remove(i);
        proof {
            assert(self.mons@[m as int].stack@ =~= st);
            assert forall|k: int| 0 <= k < st.len() implies #[trigger] self@.client_on(st[k] as int, m as int) by {
                if k < i {
                    assert(st[k] == mv.stack[k]);
                    assert(old(self)@.client_on(mv.stack[k] as int, m as int));
                } else {
                    assert(st[k] == mv.stack[k + 1]);
                    assert(old(self)@.client_on(mv.stack[k + 1] as int, m as int));
                }
            }
            assert forall|k: int| 0 <= k < st.len() implies (#[trigger] old(self)@.clients[st[k] as int]).mon < old(self)@.mons.len() by {
                assert(self@.client_on(st[k] as int, m as int));
            }
        }
        let ghost mid = self@;
        if self.mons[m].sel == Some(c) {
            let t = self.first_visible_in_stack(m);
            proof {
                assert(self@.mons[m as int].stack =~= st);
                assert(mid.first_visible(st) == old(self)@.first_visible(st)) by {
                    lemma_first_visible_frame(old(self)@, mid, st);
                }
            }
            self.mons[m].sel = t;
        }
        proof {
            let sel2 = if mv.sel == Some(c) { old(self)@.first_visible(st) } else { mv.sel };
            assert(self.mons@[m as int].sel == sel2);
            assert(self.mons@[m as int].stack@ =~= st);
            assert(self.mons@[m as int]@ == MonitorView { stack: st, sel: sel2, ..mv });
            assert(self@.mons =~= old(self)@.set_mon(m as int, MonitorView { stack: st, sel: sel2, ..mv }).mons);
            assert(self@.names =~= old(self)@.names);
        }
    }
}

} // verus!
