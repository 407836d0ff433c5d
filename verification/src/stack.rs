use vstd::prelude::*;
use crate::engine::{Effect, FloatQuery, answers_all, arranged, restack_effects, has_arrange};
use crate::focus::{focus_state, focus_effects, lemma_wf_set_mon};
use crate::model::{Client, Monitor, MonitorView, Wm, WmView};
use crate::seqs::{lemma_prepend, lemma_remove_value_at, lemma_remove_value_no_dup};

verus! {

/// Client `id` is a candidate of a stack step: visible, and not floating
/// where only tiled clients count.
pub open spec fn candidate(v: WmView, id: usize, tiled_only: bool) -> bool {
    v.visible(id as int) && (!tiled_only || !v.clients[id as int].isfloating)
}

/// The first candidate of `s`.
pub open spec fn first_cand(v: WmView, s: Seq<usize>, t: bool) -> Option<usize>
    decreases s.len(),
{
    if s.len() == 0 {
        None
    } else if candidate(v, s[0], t) {
        Some(s[0])
    } else {
        first_cand(v, s.drop_first(), t)
    }
}

/// The last candidate of `s`.
pub open spec fn last_cand(v: WmView, s: Seq<usize>, t: bool) -> Option<usize>
    decreases s.len(),
{
    if s.len() == 0 {
        None
    } else if candidate(v, s.last(), t) {
        Some(s.last())
    } else {
        last_cand(v, s.drop_last(), t)
    }
}

/// Where the selected client `sel` sits in its monitor's client list.
pub open spec fn sel_pos(v: WmView) -> int {
    let mv = v.mons[v.selmon as int];
    mv.clients.index_of(mv.sel.unwrap())
}

/// The client one step from the selected one in the client list of the
/// selected monitor: forwards, the next candidate after it, else the first;
/// backwards, the last candidate before it, else the last from it on.
pub open spec fn step_target(v: WmView, dir: i32, t: bool) -> Option<usize> {
    let s = v.mons[v.selmon as int].clients;
    let p = sel_pos(v);
    if dir > 0 {
        match first_cand(v, s.subrange(p + 1, s.len() as int), t) {
            Some(c) => Some(c),
            None => first_cand(v, s, t),
        }
    } else {
        match last_cand(v, s.subrange(0, p), t) {
            Some(c) => Some(c),
            None => last_cand(v, s.subrange(p, s.len() as int), t),
        }
    }
}

proof fn lemma_first_cand_step(v: WmView, s: Seq<usize>, i: int, t: bool)
    requires
        0 <= i < s.len(),
    ensures
        first_cand(v, s.subrange(i, s.len() as int), t) ==
            (if candidate(v, s[i], t) { Some(s[i]) } else { first_cand(v, s.subrange(i + 1, s.len() as int), t) }),
{
    assert(s.subrange(i, s.len() as int).drop_first() =~= s.subrange(i + 1, s.len() as int));
}

proof fn lemma_last_cand_step(v: WmView, s: Seq<usize>, a: int, j: int, t: bool)
    requires
        0 <= a <= j < s.len(),
    ensures
        last_cand(v, s.subrange(a, j + 1), t) ==
            (if candidate(v, s[j], t) { Some(s[j]) } else { last_cand(v, s.subrange(a, j), t) }),
{
    assert(s.subrange(a, j + 1).drop_last() =~= s.subrange(a, j));
}

proof fn lemma_cand_in(v: WmView, s: Seq<usize>, t: bool)
    ensures
        first_cand(v, s, t) matches Some(c) ==> s.contains(c) && candidate(v, c, t),
        last_cand(v, s, t) matches Some(c) ==> s.contains(c) && candidate(v, c, t),
    decreases s.len(),
{
    if s.len() > 0 {
        lemma_cand_in(v, s.drop_first(), t);
        lemma_cand_in(v, s.drop_last(), t);
        if let Some(c) = first_cand(v, s.drop_first(), t) {
            let j = choose|j: int| 0 <= j < s.drop_first().len() && s.drop_first()[j] == c;
            assert(s[j + 1] == c);
        }
        if let Some(c) = last_cand(v, s.drop_last(), t) {
            let j = choose|j: int| 0 <= j < s.drop_last().len() && s.drop_last()[j] == c;
            assert(s[j] == c);
        }
        assert(s[0] == s[0]);
        assert(s[s.len() - 1] == s.last());
    }
}

impl Wm {
    /// Whether client `c` of the selected monitor is a candidate of a stack step.
    pub fn is_cand(&self, c: usize, tiled_only: bool) -> (r: bool)
        requires
            self@.wf(),
            exists|j: int| 0 <= j < self@.mons[self@.selmon as int].clients.len() && #[trigger] self@.mons[self@.selmon as int].clients[j] == c,
        ensures
            r == candidate(self@, c, tiled_only),
    {
        let ghost v = self@;
        proof {
            assert(v.mon_ok(v.selmon as int));
            let j = choose|j: int| 0 <= j < v.mons[v.selmon as int].clients.len() && v.mons[v.selmon as int].clients[j] == c;
            assert(v.client_on(v.mons[v.selmon as int].clients[j] as int, v.selmon as int));
        }
        self.isvisible(c) && (!tiled_only || !self.clients[c].isfloating)
    }

    /// The client a stack step from the selected client reaches.
    pub fn step_target(&self, dir: i32, tiled_only: bool) -> (r: Option<usize>)
        requires
            self@.wf(),
            self@.mons[self@.selmon as int].sel is Some,
        ensures
            r == step_target(self@, dir, tiled_only),
            r matches Some(c) ==> self@.mons[self@.selmon as int].clients.contains(c) && candidate(self@, c, tiled_only),
    {
        let ghost v = self@;
        let sm = self.selmon;
        proof { assert(v.mon_ok(sm as int)); }
        let sel = self.mons[sm].sel.unwrap();
        let ghost s = v.mons[sm as int].clients;
        let n = self.mons[sm].clients.len();
        let mut p: usize = 0;
        while p < n && self.mons[sm].clients[p] != sel
            invariant
                self@ == v,
                v.mon_ok(sm as int),
                sm < v.mons.len(),
                s == v.mons[sm as int].clients,
                n == s.len(),
                p <= n,
                forall|j: int| 0 <= j < p ==> s[j] != sel,
            decreases n - p,
        {
            p += 1;
        }
        proof {
            assert(s.contains(sel));
            if p == n {
                let j = choose|j: int| 0 <= j < s.len() && s[j] == sel;
                assert(false);
            }
            assert(s[p as int] == sel);
            assert(s.index_of(sel) == p) by {
                let k = s.index_of(sel);
                assert(0 <= k < s.len() && s[k] == sel);
                if k != p as int {
                    assert(s[k] == s[p as int]);
                }
            }
            lemma_cand_in(v, s, tiled_only);
            lemma_cand_in(v, s.subrange(p + 1, n as int), tiled_only);
            lemma_cand_in(v, s.subrange(0, p as int), tiled_only);
            lemma_cand_in(v, s.subrange(p as int, n as int), tiled_only);
        }
        let r = if dir > 0 {
            let mut j = p + 1;
            while j < n && !self.is_cand(self.mons[sm].clients[j], tiled_only)
                invariant
                    self@ == v,
                    v.wf(),
                    v.mon_ok(sm as int),
                    sm < v.mons.len(),
                    sm == v.selmon,
                    s == v.mons[sm as int].clients,
                    n == s.len(),
                    p + 1 <= j <= n,
                    first_cand(v, s.subrange(j as int, n as int), tiled_only)
                        == first_cand(v, s.subrange(p + 1, n as int), tiled_only),
                decreases n - j,
            {
                proof { lemma_first_cand_step(v, s, j as int, tiled_only); }
                j += 1;
            }
            if j < n {
                proof { lemma_first_cand_step(v, s, j as int, tiled_only); }
                Some(self.mons[sm].clients[j])
            } else {
                proof { assert(s.subrange(n as int, n as int).len() == 0); }
                let mut k: usize = 0;
                proof { assert(s.subrange(0, n as int) =~= s); }
                while k < n && !self.is_cand(self.mons[sm].clients[k], tiled_only)
                    invariant
                        self@ == v,
                        v.wf(),
                        v.mon_ok(sm as int),
                        sm < v.mons.len(),
                        sm == v.selmon,
                        s == v.mons[sm as int].clients,
                        n == s.len(),
                        k <= n,
                        first_cand(v, s.subrange(k as int, n as int), tiled_only) == first_cand(v, s, tiled_only),
                    decreases n - k,
                {
                    proof { lemma_first_cand_step(v, s, k as int, tiled_only); }
                    k += 1;
                }
                if k < n {
                    proof { lemma_first_cand_step(v, s, k as int, tiled_only); }
                    Some(self.mons[sm].clients[k])
                } else {
                    proof { assert(s.subrange(n as int, n as int).len() == 0); }
                    None
                }
            }
        } else {
            let mut found: Option<usize> = None;
            let mut j: usize = 0;
            proof { assert(s.subrange(0, 0).len() == 0); }
            while j < p
                invariant
                    self@ == v,
                    v.wf(),
                    v.mon_ok(sm as int),
                    sm < v.mons.len(),
                    sm == v.selmon,
                    s == v.mons[sm as int].clients,
                    n == s.len(),
                    p < n,
                    j <= p,
                    found == last_cand(v, s.subrange(0, j as int), tiled_only),
                decreases p - j,
            {
                let c = self.mons[sm].clients[j];
                proof { lemma_last_cand_step(v, s, 0, j as int, tiled_only); }
                if self.is_cand(c, tiled_only) {
                    found = Some(c);
                }
                j += 1;
            }
            if found.is_none() {
                let mut k: usize = p;
                proof { assert(s.subrange(p as int, p as int).len() == 0); }
                while k < n
                    invariant
                        self@ == v,
                        v.wf(),
                        v.mon_ok(sm as int),
                        sm < v.mons.len(),
                        sm == v.selmon,
                        s == v.mons[sm as int].clients,
                        n == s.len(),
                        p <= k <= n,
                        found == last_cand(v, s.subrange(p as int, k as int), tiled_only),
                    decreases n - k,
                {
                    let c = self.mons[sm].clients[k];
                    proof { lemma_last_cand_step(v, s, p as int, k as int, tiled_only); }
                    if self.is_cand(c, tiled_only) {
                        found = Some(c);
                    }
                    k += 1;
                }
                found
            } else {
                found
            }
        };
        proof {
            if let Some(c) = r {
                let s1 = s.subrange(p + 1, n as int);
                let s2 = s.subrange(0, p as int);
                let s3 = s.subrange(p as int, n as int);
                if dir > 0 {
                    if first_cand(v, s1, tiled_only) is Some {
                        let j = choose|j: int| 0 <= j < s1.len() && #[trigger] s1[j] == c;
                        assert(s[p + 1 + j] == c);
                    }
                } else {
                    if last_cand(v, s2, tiled_only) is Some {
                        let j = choose|j: int| 0 <= j < s2.len() && #[trigger] s2[j] == c;
                        assert(s[j] == c);
                    } else {
                        let j = choose|j: int| 0 <= j < s3.len() && #[trigger] s3[j] == c;
                        assert(s[p + j] == c);
                    }
                }
            }
        }
        r
    }
}


/// The first candidate of `s` is the one at `k` where none comes before.
pub proof fn lemma_first_cand_at(v: WmView, s: Seq<usize>, t: bool, k: int)
    requires
        0 <= k < s.len(),
        candidate(v, s[k], t),
        forall|j: int| 0 <= j < k ==> !candidate(v, #[trigger] s[j], t),
    ensures
        first_cand(v, s, t) == Some(s[k]),
    decreases k,
{
    if k > 0 {
        assert(!candidate(v, s[0], t));
        let d = s.drop_first();
        assert forall|j: int| 0 <= j < k - 1 implies !candidate(v, #[trigger] d[j], t) by {
            assert(d[j] == s[j + 1]);
        }
        lemma_first_cand_at(v, d, t, k - 1);
    }
}

/// The last candidate of `s` is the one at `k` where none comes after.
pub proof fn lemma_last_cand_at(v: WmView, s: Seq<usize>, t: bool, k: int)
    requires
        0 <= k < s.len(),
        candidate(v, s[k], t),
        forall|j: int| k < j < s.len() ==> !candidate(v, #[trigger] s[j], t),
    ensures
        last_cand(v, s, t) == Some(s[k]),
    decreases s.len() - k,
{
    if k < s.len() - 1 {
        assert(!candidate(v, s[s.len() - 1], t));
        let d = s.drop_last();
        assert forall|j: int| k < j < d.len() implies !candidate(v, #[trigger] d[j], t) by {
            assert(d[j] == s[j]);
        }
        lemma_last_cand_at(v, d, t, k);
    }
}

/// `s` has no candidate: neither a first nor a last one.
pub proof fn lemma_cand_none(v: WmView, s: Seq<usize>, t: bool)
    requires
        forall|j: int| 0 <= j < s.len() ==> !candidate(v, #[trigger] s[j], t),
    ensures
        first_cand(v, s, t) is None,
        last_cand(v, s, t) is None,
    decreases s.len(),
{
    if s.len() > 0 {
        let d = s.drop_first();
        assert forall|j: int| 0 <= j < d.len() implies !candidate(v, #[trigger] d[j], t) by {
            assert(d[j] == s[j + 1]);
        }
        lemma_cand_none(v, d, t);
        let e = s.drop_last();
        assert forall|j: int| 0 <= j < e.len() implies !candidate(v, #[trigger] e[j], t) by {
            assert(e[j] == s[j]);
        }
        lemma_cand_none(v, e, t);
        assert(!candidate(v, s[0], t));
        assert(!candidate(v, s[s.len() - 1], t));
    }
}

/// What the first candidate of `s` is: one at some index with no candidate
/// before it, or none where `s` has no candidate.
pub proof fn lemma_first_cand_found(v: WmView, s: Seq<usize>, t: bool)
    ensures
        match first_cand(v, s, t) {
            Some(c) => exists|k: int| 0 <= k < s.len() && s[k] == c && candidate(v, c, t)
                && (forall|j: int| 0 <= j < k ==> !candidate(v, #[trigger] s[j], t)),
            None => forall|j: int| 0 <= j < s.len() ==> !candidate(v, #[trigger] s[j], t),
        },
    decreases s.len(),
{
    if s.len() > 0 {
        let d = s.drop_first();
        lemma_first_cand_found(v, d, t);
        if candidate(v, s[0], t) {
            assert(s[0] == s[0]);
        } else {
            match first_cand(v, d, t) {
                Some(c) => {
                    let k = choose|k: int| 0 <= k < d.len() && d[k] == c && candidate(v, c, t)
                        && (forall|j: int| 0 <= j < k ==> !candidate(v, #[trigger] d[j], t));
                    assert(s[k + 1] == c);
                    assert forall|j: int| 0 <= j < k + 1 implies !candidate(v, #[trigger] s[j], t) by {
                        if j > 0 { assert(s[j] == d[j - 1]); }
                    }
                },
                None => {
                    assert forall|j: int| 0 <= j < s.len() implies !candidate(v, #[trigger] s[j], t) by {
                        if j > 0 { assert(s[j] == d[j - 1]); }
                    }
                },
            }
        }
    }
}

/// A focus step forwards, then one backwards, come back to the client that
/// was selected, where it is visible; the client list stays as it is.
pub proof fn lemma_focus_step_back(v: WmView)
    requires
        v.wf(),
        v.mons[v.selmon as int].sel matches Some(x) && v.visible(x as int),
    ensures
        ({
            let x = v.mons[v.selmon as int].sel.unwrap();
            let c = step_target(v, 1, false);
            let v1 = focus_state(v, c);
            &&& c is Some
            &&& v1.selmon == v.selmon
            &&& v1.mons[v.selmon as int].clients == v.mons[v.selmon as int].clients
            &&& v1.mons[v.selmon as int].sel == c
            &&& v1.wf()
            &&& step_target(v1, -1i32, false) == Some(x)
            &&& v1.visible(x as int)
            &&& v1.clients[x as int].mon == v.selmon
        }),
{
    let m = v.selmon as int;
    assert(v.mon_ok(m));
    let sl = v.mons[m].clients;
    let x = v.mons[m].sel.unwrap();
    let n = sl.len() as int;
    let p = sl.index_of(x);
    assert(0 <= p < n && sl[p] == x);
    assert(candidate(v, x, false));
    let after = sl.subrange(p + 1, n);
    lemma_first_cand_found(v, after, false);
    lemma_first_cand_found(v, sl, false);
    let c = step_target(v, 1, false);
    let q: int = match first_cand(v, after, false) {
        Some(cc) => {
            let k = choose|k: int| 0 <= k < after.len() && after[k] == cc && candidate(v, cc, false)
                && (forall|j: int| 0 <= j < k ==> !candidate(v, #[trigger] after[j], false));
            p + 1 + k
        },
        None => {
            assert forall|j: int| p < j < n implies !candidate(v, #[trigger] sl[j], false) by {
                assert(sl[j] == after[j - p - 1]);
            }
            if first_cand(v, sl, false) is None {
                assert(!candidate(v, sl[p], false));
            }
            let k = choose|k: int| 0 <= k < sl.len() && sl[k] == first_cand(v, sl, false).unwrap()
                && candidate(v, first_cand(v, sl, false).unwrap(), false)
                && (forall|j: int| 0 <= j < k ==> !candidate(v, #[trigger] sl[j], false));
            k
        },
    };
    let cc = c.unwrap();
    assert(sl[q] == cc && candidate(v, cc, false));
    assert(v.client_on(sl[q] as int, m));
    let v1 = focus_state(v, c);
    assert(v1 == crate::focus::focused_state(v, cc));
    assert(sl.index_of(cc) == q) by {
        let k = sl.index_of(cc);
        assert(sl[k] == cc);
    }
    crate::focus::lemma_focus_wf(v, cc);
    assert(v1.mons[m].clients == sl);
    assert forall|id: usize| (id as int) < v.clients.len() && v.clients[id as int].alive
        implies #[trigger] candidate(v1, id, false) == candidate(v, id, false) by {
        let k = v.clients[id as int].mon as int;
        assert(v1.clients[id as int].tags == v.clients[id as int].tags);
        assert(v1.clients[id as int].mon == v.clients[id as int].mon);
        assert(v1.mons[k].tagset == v.mons[k].tagset);
        assert(v1.mons[k].seltags == v.mons[k].seltags);
    }
    if first_cand(v, after, false) is Some {
        // forwards went to the next candidate after the selection
        let before = sl.subrange(0, q);
        assert(before[p] == x);
        assert forall|j: int| p < j < before.len() implies !candidate(v1, #[trigger] before[j], false) by {
            assert(before[j] == sl[j]);
            assert(before[j] == after[j - p - 1]);
            assert(v.client_on(sl[j] as int, m));
        }
        assert(v.client_on(x as int, m));
        lemma_last_cand_at(v1, before, false, p);
    } else {
        // forwards wrapped round to the first candidate
        let before = sl.subrange(0, q);
        assert forall|j: int| 0 <= j < before.len() implies !candidate(v1, #[trigger] before[j], false) by {
            assert(before[j] == sl[j]);
            assert(v.client_on(sl[j] as int, m));
        }
        lemma_cand_none(v1, before, false);
        let from = sl.subrange(q, n);
        assert(q <= p) by {
            if q > p {
                assert(!candidate(v, sl[p], false));
            }
        }
        assert(from[p - q] == x);
        assert forall|j: int| p - q < j < from.len() implies !candidate(v1, #[trigger] from[j], false) by {
            assert(from[j] == sl[j + q]);
            assert(sl[j + q] == after[j + q - p - 1]);
            assert(v.client_on(sl[j + q] as int, m));
        }
        assert(v.client_on(x as int, m));
        lemma_last_cand_at(v1, from, false, p - q);
    }
}

/// A move step forwards, then one backwards, give back the client list of
/// the selected monitor and keep its selection.
pub proof fn lemma_move_step_back<F: Fn(FloatQuery) -> (i32, i32)>(v: WmView, v1: WmView, v2: WmView, fq: &F)
    requires
        v.wf(),
        v1.wf(),
        v.mons[v.selmon as int].sel is Some,
        movestack_post(v, 1i32, v1, fq),
        movestack_post(v1, -1i32, v2, fq),
    ensures
        v2.selmon == v.selmon,
        v2.mons[v.selmon as int].clients == v.mons[v.selmon as int].clients,
        v2.mons[v.selmon as int].sel == v.mons[v.selmon as int].sel,
{
    let m = v.selmon as int;
    assert(v.mon_ok(m));
    let sl = v.mons[m].clients;
    let x = v.mons[m].sel.unwrap();
    let n = sl.len() as int;
    let p = sl.index_of(x);
    assert(0 <= p < n && sl[p] == x);
    let after = sl.subrange(p + 1, n);
    lemma_first_cand_found(v, after, true);
    lemma_first_cand_found(v, sl, true);
    let c = step_target(v, 1i32, true);
    if c is None || c == Some(x) {
        // nothing moved: then nothing moves back either
        assert(v1 == v);
        if first_cand(v, after, true) is Some {
            let cc = first_cand(v, after, true).unwrap();
            let k = choose|k: int| 0 <= k < after.len() && after[k] == cc && candidate(v, cc, true)
                && (forall|j: int| 0 <= j < k ==> !candidate(v, #[trigger] after[j], true));
            assert(after[k] == sl[p + 1 + k]);
            assert(false);
        }
        assert forall|j: int| p < j < n implies !candidate(v, #[trigger] sl[j], true) by {
            assert(sl[j] == after[j - p - 1]);
        }
        let before = sl.subrange(0, p);
        let from = sl.subrange(p, n);
        if c is None {
            assert forall|j: int| 0 <= j < n implies !candidate(v, #[trigger] sl[j], true) by {}
            assert forall|j: int| 0 <= j < before.len() implies !candidate(v, #[trigger] before[j], true) by {
                assert(before[j] == sl[j]);
            }
            assert forall|j: int| 0 <= j < from.len() implies !candidate(v, #[trigger] from[j], true) by {
                assert(from[j] == sl[j + p]);
            }
            lemma_cand_none(v, before, true);
            lemma_cand_none(v, from, true);
        } else {
            let k = choose|k: int| 0 <= k < sl.len() && sl[k] == x && candidate(v, x, true)
                && (forall|j: int| 0 <= j < k ==> !candidate(v, #[trigger] sl[j], true));
            assert(k == p) by {
                if k != p { assert(sl[k] == sl[p]); }
            }
            assert forall|j: int| 0 <= j < before.len() implies !candidate(v, #[trigger] before[j], true) by {
                assert(before[j] == sl[j]);
            }
            lemma_cand_none(v, before, true);
            assert(from[0] == x);
            assert forall|j: int| 0 < j < from.len() implies !candidate(v, #[trigger] from[j], true) by {
                assert(from[j] == sl[j + p]);
            }
            lemma_last_cand_at(v, from, true, 0);
        }
    } else {
        let cc = c.unwrap();
        // where the step forwards found its target
        let q: int = if first_cand(v, after, true) is Some {
            let k = choose|k: int| 0 <= k < after.len() && after[k] == cc && candidate(v, cc, true)
                && (forall|j: int| 0 <= j < k ==> !candidate(v, #[trigger] after[j], true));
            p + 1 + k
        } else {
            assert forall|j: int| p < j < n implies !candidate(v, #[trigger] sl[j], true) by {
                assert(sl[j] == after[j - p - 1]);
            }
            let k = choose|k: int| 0 <= k < sl.len() && sl[k] == cc && candidate(v, cc, true)
                && (forall|j: int| 0 <= j < k ==> !candidate(v, #[trigger] sl[j], true));
            k
        };
        assert(sl[q] == cc && candidate(v, cc, true));
        assert(sl.index_of(cc) == q) by {
            let k = sl.index_of(cc);
            assert(sl[k] == cc);
        }
        assert(q != p);
        let w = swapped(v, p, q);
        let sw = w.mons[m].clients;
        assert(sw == sl.update(p, sl[q]).update(q, sl[p]));
        // arranging keeps the lists, the selection and what counts as a candidate
        assert(v1.mons[m] == MonitorView { ltsymbol: v1.mons[m].ltsymbol, ..w.mons[m] });
        assert(v1.selmon == v.selmon);
        assert(v1.mons[m].clients == sw);
        assert(v1.mons[m].sel == Some(x));
        assert(v1.mon_ok(m));
        assert forall|j: int| 0 <= j < n implies #[trigger] candidate(v1, sw[j], true) == candidate(v, sw[j], true) by {
            assert(v.client_on(sl[j] as int, m));
            let id = sw[j] as int;
            assert(v.client_on(id, m)) by {
                if j == p { assert(v.client_on(sl[q] as int, m)); }
                else if j == q { assert(v.client_on(sl[p] as int, m)); }
            }
            assert(crate::engine::same_keys(v1.clients[id], v.clients[id]));
            assert(v1.mons[m].tagset == v.mons[m].tagset);
            assert(v1.mons[m].seltags == v.mons[m].seltags);
        }
        assert(sw.index_of(x) == q) by {
            let k = sw.index_of(x);
            assert(sw[k] == x);
            assert(sw[q] == x);
        }
        assert(sw.index_of(cc) == p) by {
            let k = sw.index_of(cc);
            assert(sw[k] == cc);
            assert(sw[p] == cc);
        }
        let before = sw.subrange(0, q);
        if first_cand(v, after, true) is Some {
            assert(before[p] == cc);
            assert(candidate(v1, sw[p], true));
            assert forall|j: int| p < j < before.len() implies !candidate(v1, #[trigger] before[j], true) by {
                assert(before[j] == sw[j]);
                assert(sw[j] == sl[j]);
                assert(sl[j] == after[j - p - 1]);
                assert(candidate(v1, sw[j], true) == candidate(v, sw[j], true));
            }
            lemma_last_cand_at(v1, before, true, p);
        } else {
            assert(q < p) by {
                if q > p { assert(sl[q] == after[q - p - 1]); }
            }
            assert forall|j: int| 0 <= j < before.len() implies !candidate(v1, #[trigger] before[j], true) by {
                assert(before[j] == sw[j]);
                assert(sw[j] == sl[j]);
                assert(candidate(v1, sw[j], true) == candidate(v, sw[j], true));
            }
            lemma_cand_none(v1, before, true);
            let from = sw.subrange(q, n);
            assert(from[p - q] == cc);
            assert(candidate(v1, sw[p], true));
            assert forall|j: int| p - q < j < from.len() implies !candidate(v1, #[trigger] from[j], true) by {
                assert(from[j] == sw[j + q]);
                assert(sw[j + q] == sl[j + q]);
                assert(sl[j + q] == after[j + q - p - 1]);
                assert(candidate(v1, sw[j + q], true) == candidate(v, sw[j + q], true));
            }
            lemma_last_cand_at(v1, from, true, p - q);
        }
        assert(step_target(v1, -1i32, true) == Some(cc));
        let w2 = swapped(v1, q, p);
        assert(w2.mons[m].clients =~= sl);
        assert(v2.mons[m] == MonitorView { ltsymbol: v2.mons[m].ltsymbol, ..w2.mons[m] });
    }
}

/// The selected monitor's client list with the clients at `p` and `q`
/// exchanged.
pub open spec fn swapped(v: WmView, p: int, q: int) -> WmView {
    let m = v.selmon as int;
    let s = v.mons[m].clients;
    v.set_mon(m, MonitorView { clients: s.update(p, s[q]).update(q, s[p]), ..v.mons[m] })
}

/// The state with client `c` moved to the head of its monitor's client list.
pub open spec fn popped(v: WmView, c: usize) -> WmView {
    let m = v.clients[c as int].mon as int;
    let s = v.mons[m].clients;
    v.set_mon(m, MonitorView { clients: seq![c] + s.remove_value(c), ..v.mons[m] })
}

/// The client that zooming moves to the master area: the selected client,
/// or, where it already is the first tiled client, the next tiled one. None
/// where no layout arranges the monitor or the selected client floats.
pub open spec fn zoom_target(v: WmView) -> Option<usize> {
    let m = v.selmon as int;
    let s = v.mons[m].clients;
    let c0 = v.mons[m].sel;
    if !has_arrange(v, m) || (c0 matches Some(c) && v.clients[c as int].isfloating) {
        None
    } else if c0 == first_cand(v, s, true) {
        match c0 {
            None => None,
            Some(c) => first_cand(v, s.subrange(s.index_of(c) + 1, s.len() as int), true),
        }
    } else {
        c0
    }
}

proof fn lemma_swap_wf(v: WmView, p: int, q: int)
    requires
        v.wf(),
        0 <= p < v.mons[v.selmon as int].clients.len(),
        0 <= q < v.mons[v.selmon as int].clients.len(),
    ensures
        swapped(v, p, q).wf(),
{
    let m = v.selmon as int;
    let mv = v.mons[m];
    let s = mv.clients;
    let s2 = s.update(p, s[q]).update(q, s[p]);
    let nm = MonitorView { clients: s2, ..mv };
    assert(v.mon_ok(m));
    assert forall|id: usize| #[trigger] s2.contains(id) <==> s.contains(id) by {
        if s2.contains(id) {
            let k = choose|k: int| 0 <= k < s2.len() && s2[k] == id;
            if k == q { assert(s[p] == id); } else if k == p { assert(s[q] == id); } else { assert(s[k] == id); }
        }
        if s.contains(id) {
            let k = choose|k: int| 0 <= k < s.len() && s[k] == id;
            if k == q { assert(s2[p] == id); } else if k == p { assert(s2[q] == id); } else { assert(s2[k] == id); }
        }
    }
    let v2 = v.set_mon(m, nm);
    assert(v2.mon_ok(m)) by {
        assert forall|a: int, b: int| 0 <= a < s2.len() && 0 <= b < s2.len() && a != b implies s2[a] != s2[b] by {
            let a2 = if a == p { q } else if a == q { p } else { a };
            let b2 = if b == p { q } else if b == q { p } else { b };
            assert(s2[a] == s[a2]);
            assert(s2[b] == s[b2]);
        }
        assert forall|k: int| 0 <= k < s2.len() implies #[trigger] v2.client_on(s2[k] as int, m) by {
            let k2 = if k == p { q } else if k == q { p } else { k };
            assert(s2[k] == s[k2]);
            assert(v.client_on(s[k2] as int, m));
        }
        assert forall|k: int| 0 <= k < mv.stack.len() implies #[trigger] v2.client_on(mv.stack[k] as int, m) by {
            assert(v.client_on(mv.stack[k] as int, m));
        }
        assert forall|id: usize| #[trigger] s2.contains(id) <==> mv.stack.contains(id) by {
            assert(s.contains(id) <==> mv.stack.contains(id));
        }
    }
    lemma_wf_set_mon(v, m, nm);
}

proof fn lemma_pop_wf(v: WmView, c: usize)
    requires
        v.wf(),
        (c as int) < v.clients.len(),
        v.clients[c as int].alive,
    ensures
        popped(v, c).wf(),
{
    let m = v.clients[c as int].mon as int;
    let mv = v.mons[m];
    let s = mv.clients;
    assert(v.mon_ok(m));
    lemma_remove_value_no_dup(s, c);
    lemma_prepend(s.remove_value(c), c);
    let s2 = seq![c] + s.remove_value(c);
    let nm = MonitorView { clients: s2, ..mv };
    assert forall|id: usize| #[trigger] s2.contains(id) <==> s.contains(id) by {
        assert(s.remove_value(c).contains(id) <==> (s.contains(id) && id != c));
    }
    let v2 = v.set_mon(m, nm);
    assert(v2.mon_ok(m)) by {
        assert forall|k: int| 0 <= k < s2.len() implies #[trigger] v2.client_on(s2[k] as int, m) by {
            assert(s.contains(s2[k])) by {
                if k == 0 {
                } else {
                    assert(s2[k] == s.remove_value(c)[k - 1]);
                    assert(s.remove_value(c).contains(s2[k]));
                }
            }
            let j = choose|j: int| 0 <= j < s.len() && s[j] == s2[k];
            assert(v.client_on(s[j] as int, m));
        }
        assert forall|k: int| 0 <= k < mv.stack.len() implies #[trigger] v2.client_on(mv.stack[k] as int, m) by {
            assert(v.client_on(mv.stack[k] as int, m));
        }
        assert forall|id: usize| #[trigger] s2.contains(id) <==> mv.stack.contains(id) by {
            assert(s.contains(id) <==> mv.stack.contains(id));
        }
    }
    lemma_wf_set_mon(v, m, nm);
}

impl Wm {
    /// Where client `c` sits in the client list of monitor `m`.
    pub fn position(&self, m: usize, c: usize) -> (r: usize)
        requires
            self@.wf(),
            m < self@.mons.len(),
            self@.mons[m as int].clients.contains(c),
        ensures
            r < self@.mons[m as int].clients.len(),
            self@.mons[m as int].clients[r as int] == c,
            r == self@.mons[m as int].clients.index_of(c),
    {
        let ghost s = self@.mons[m as int].clients;
        let n = self.mons[m].clients.len();
        let mut p: usize = 0;
        while p < n && self.mons[m].clients[p] != c
            invariant
                m < self@.mons.len(),
                s == self@.mons[m as int].clients,
                n == s.len(),
                p <= n,
                forall|j: int| 0 <= j < p ==> s[j] != c,
            decreases n - p,
        {
            p += 1;
        }
        proof {
            assert(self@.mon_ok(m as int));
            if p == n {
                let j = choose|j: int| 0 <= j < s.len() && s[j] == c;
                assert(false);
            }
            let k = s.index_of(c);
            assert(0 <= k < s.len() && s[k] == c);
            if k != p as int {
                assert(s[k] == s[p as int]);
            }
        }
        p
    }
}

/// The state a focus step in direction `i` gives: the next (positive `i`)
/// or previous visible client of the selected monitor's client list, round
/// the list, is focused; nothing happens where no client is selected.
pub open spec fn focusstack_state(v: WmView, i: i32) -> WmView {
    match (v.mons[v.selmon as int].sel, step_target(v, i, false)) {
        (Some(_), Some(c)) => focus_state(v, Some(c)),
        _ => v,
    }
}

/// Moves the focus to the next (positive `i`) or previous visible client of
/// the selected monitor's client list, round the list, and restacks.
pub fn focusstack(wm: &mut Wm, i: i32, fx: &mut Vec<Effect>)
    requires
        old(wm)@.wf(),
    ensures
        final(wm)@.wf(),
        final(wm)@ == focusstack_state(old(wm)@, i),
        ({
            let v = old(wm)@;
            match (v.mons[v.selmon as int].sel, step_target(v, i, false)) {
                (Some(_), Some(c)) => {
                    &&& final(wm)@ == focus_state(v, Some(c))
                    &&& final(fx)@ == old(fx)@ + focus_effects(v, Some(c)) + restack_effects(final(wm)@, v.selmon as int)
                },
                _ => final(wm)@ == v && final(fx)@ == old(fx)@,
            }
        }),
{
    let ghost v = wm@;
    let sm = wm.selmon;
    if wm.mons[sm].sel.is_none() {
        return;
    }
    let t = wm.step_target(i, false);
    match t {
        Some(c) => {
            proof {
                assert(v.mon_ok(sm as int));
                let j = choose|j: int| 0 <= j < v.mons[sm as int].clients.len() && v.mons[sm as int].clients[j] == c;
                assert(v.client_on(v.mons[sm as int].clients[j] as int, sm as int));
            }
            wm.focus(Some(c), fx);
            let ghost fx1 = fx@;
            proof { assert(wm@.selmon == v.selmon); }
            let m = wm.selmon;
            wm.restack(m, fx);
        },
        None => {},
    }
}

/// Moving the selected client one step in direction `i` took `v` to `v2`:
/// it changes places with the next (positive `i`) or previous tiled client
/// of the selected monitor's client list, round the list, and the monitor
/// is arranged; nothing happens where there is no other such client.
pub open spec fn movestack_post<F: Fn(FloatQuery) -> (i32, i32)>(v: WmView, i: i32, v2: WmView, fq: &F) -> bool {
    let s = v.mons[v.selmon as int].clients;
    match (v.mons[v.selmon as int].sel, step_target(v, i, true)) {
        (Some(sel), Some(c)) if c != sel => arranged(swapped(v, s.index_of(sel), s.index_of(c)), v.selmon as int, v2, fq),
        _ => v2 == v,
    }
}

/// Exchanges the selected client with the next (positive `i`) or previous
/// tiled client of the selected monitor's client list, round the list, and
/// arranges the monitor.
pub fn movestack<F: Fn(FloatQuery) -> (i32, i32)>(wm: &mut Wm, i: i32, fq: &F, fx: &mut Vec<Effect>)
    requires
        old(wm)@.wf(),
        answers_all(fq),
    ensures
        final(wm)@.wf(),
        movestack_post(old(wm)@, i, final(wm)@, fq),
        ({
            let v = old(wm)@;
            let s = v.mons[v.selmon as int].clients;
            match (v.mons[v.selmon as int].sel, step_target(v, i, true)) {
                (Some(sel), Some(c)) if c != sel =>
                    arranged(swapped(v, s.index_of(sel), s.index_of(c)), v.selmon as int, final(wm)@, fq)
                    && crate::engine::arranged_fx(swapped(v, s.index_of(sel), s.index_of(c)), v.selmon as int, final(wm)@,
                        crate::engine::added(old(fx)@, final(fx)@), fq),
                _ => final(wm)@ == v && final(fx)@ == old(fx)@,
            }
        }),
        final(fx)@ == old(fx)@ + crate::engine::added(old(fx)@, final(fx)@),
{
    let ghost v = wm@;
    let sm = wm.selmon;
    proof { assert(v.mon_ok(sm as int)); }
    proof { crate::tags::lemma_no_fx(fx@); }
    let sel = match wm.mons[sm].sel {
        Some(s) => s,
        None => { return; },
    };
    let t = wm.step_target(i, true);
    match t {
        Some(c) => {
            if c != sel {
                let p = wm.position(sm, sel);
                let q = wm.position(sm, c);
                let a = wm.mons[sm].clients[p];
                let b = wm.mons[sm].clients[q];
                wm.mons[sm].clients.set(p, b);
                wm.mons[sm].clients.set(q, a);
                proof {
                    let t2 = swapped(v, p as int, q as int);
                    assert(wm@.mons =~= t2.mons);
                    assert(wm@.names =~= t2.names);
                    assert(wm@ == t2);
                    lemma_swap_wf(v, p as int, q as int);
                }
                wm.arrange(Some(sm), fq, fx);
            }
        },
        None => {},
    }
}

/// Moves the selected client, or the next tiled client where the selected
/// one heads the tiled clients already, to the head of the client list,
/// focuses it and arranges its monitor.
pub fn zoom<F: Fn(FloatQuery) -> (i32, i32)>(wm: &mut Wm, fq: &F, fx: &mut Vec<Effect>)
    requires
        old(wm)@.wf(),
        answers_all(fq),
        old(wm)@.mons[old(wm)@.selmon as int].sel is None && has_arrange(old(wm)@, old(wm)@.selmon as int)
            ==> first_cand(old(wm)@, old(wm)@.mons[old(wm)@.selmon as int].clients, true) is None,
    ensures
        final(wm)@.wf(),
        ({
            let v = old(wm)@;
            match zoom_target(v) {
                Some(c) => arranged(focus_state(popped(v, c), Some(c)), v.clients[c as int].mon as int, final(wm)@, fq)
                    && crate::focus::focus_effects(popped(v, c), Some(c)).len() <= crate::engine::added(old(fx)@, final(fx)@).len()
                    && crate::engine::added(old(fx)@, final(fx)@).subrange(0, crate::focus::focus_effects(popped(v, c), Some(c)).len() as int)
                        == crate::focus::focus_effects(popped(v, c), Some(c))
                    && crate::engine::arranged_fx(focus_state(popped(v, c), Some(c)), v.clients[c as int].mon as int, final(wm)@,
                        crate::engine::added(old(fx)@, final(fx)@).subrange(
                            crate::focus::focus_effects(popped(v, c), Some(c)).len() as int,
                            crate::engine::added(old(fx)@, final(fx)@).len() as int), fq),
                None => final(wm)@ == v && final(fx)@ == old(fx)@,
            }
        }),
        final(fx)@ == old(fx)@ + crate::engine::added(old(fx)@, final(fx)@),
{
    let ghost v = wm@;
    let sm = wm.selmon;
    proof { assert(v.mon_ok(sm as int)); }
    let c0 = wm.mons[sm].sel;
    if !wm.layout_has_arrange(sm) {
        return;
    }
    match c0 {
        Some(c) => {
            proof {
                let j = choose|j: int| 0 <= j < v.mons[sm as int].clients.len() && v.mons[sm as int].clients[j] == c;
                assert(v.client_on(v.mons[sm as int].clients[j] as int, sm as int));
            }
            if wm.clients[c].isfloating {
                return;
            }
        },
        None => {},
    }
    let first = wm.first_cand_from(sm, 0, true);
    proof { assert(v.mons[sm as int].clients.subrange(0, v.mons[sm as int].clients.len() as int) =~= v.mons[sm as int].clients); }
    let target = if c0 == first {
        match c0 {
            None => { return; },
            Some(c) => {
                let p = wm.position(sm, c);
                let nx = wm.first_cand_from(sm, p + 1, true);
                match nx {
                    None => { return; },
                    Some(n) => n,
                }
            },
        }
    } else {
        match c0 {
            Some(c) => c,
            None => {
                proof { assert(false); }
                return;
            },
        }
    };
    proof {
        assert(zoom_target(v) == Some(target));
        lemma_cand_in(v, v.mons[sm as int].clients, true);
        let s = v.mons[sm as int].clients;
        assert(s.contains(target)) by {
            if c0 == first {
                let p = s.index_of(c0.unwrap());
                let sub = s.subrange(p + 1, s.len() as int);
                lemma_cand_in(v, sub, true);
                let j = choose|j: int| 0 <= j < sub.len() && #[trigger] sub[j] == target;
                assert(s[p + 1 + j] == target);
            }
        }
        let j = choose|j: int| 0 <= j < s.len() && s[j] == target;
        assert(v.client_on(s[j] as int, sm as int));
    }
    wm.detach(target);
    wm.attach(target);
    proof {
        let t = popped(v, target);
        assert(wm@.mons =~= t.mons);
        assert(wm@.names =~= t.names);
        assert(wm@ == t);
        lemma_pop_wf(v, target);
    }
    let ghost p = wm@;
    wm.focus(Some(target), fx);
    let ghost f1 = fx@;
    proof { assert(v.clients[target as int].mon == sm); }
    wm.arrange(Some(sm), fq, fx);
    proof {
        let fe = crate::focus::focus_effects(p, Some(target));
        let e = crate::engine::added(old(fx)@, fx@);
        assert(f1 =~= old(fx)@ + fe);
        assert(e =~= fe + crate::engine::added(f1, fx@));
        assert(e.subrange(0, fe.len() as int) =~= fe);
        assert(e.subrange(fe.len() as int, e.len() as int) =~= crate::engine::added(f1, fx@));
        assert(fx@ =~= old(fx)@ + e);
    }
}

impl Wm {
    /// The first candidate of monitor `m`'s client list from position `start` on.
    pub fn first_cand_from(&self, m: usize, start: usize, tiled_only: bool) -> (r: Option<usize>)
        requires
            self@.wf(),
            m == self@.selmon,
            start <= self@.mons[m as int].clients.len(),
        ensures
            r == first_cand(self@, self@.mons[m as int].clients.subrange(start as int, self@.mons[m as int].clients.len() as int), tiled_only),
    {
        let ghost v = self@;
        let ghost s = v.mons[m as int].clients;
        let n = self.mons[m].clients.len();
        let mut j = start;
        while j < n && !self.is_cand(self.mons[m].clients[j], tiled_only)
            invariant
                self@ == v,
                v.wf(),
                m < v.mons.len(),
                m == v.selmon,
                s == v.mons[m as int].clients,
                n == s.len(),
                start <= j <= n,
                first_cand(v, s.subrange(j as int, n as int), tiled_only)
                    == first_cand(v, s.subrange(start as int, n as int), tiled_only),
            decreases n - j,
        {
            proof { lemma_first_cand_step(v, s, j as int, tiled_only); }
            j += 1;
        }
        if j < n {
            proof { lemma_first_cand_step(v, s, j as int, tiled_only); }
            Some(self.mons[m].clients[j])
        } else {
            proof { assert(s.subrange(n as int, n as int).len() == 0); }
            None
        }
    }
}

} // verus!
