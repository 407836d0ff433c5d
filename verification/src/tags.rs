use vstd::prelude::*;
use crate::config::{TAGMASK, NTAGS, tagmask};
use crate::engine::{Effect, FloatQuery, answers_all, arranged};
use crate::focus::{focus_state};
use crate::model::{Client, Monitor, MonitorView, Wm, WmView, pick};

verus! {

/// A monitor view whose tag sets are `t0` and `t1`.
pub open spec fn with_tagsets(mv: MonitorView, seltags: usize, t0: u32, t1: u32) -> MonitorView {
    MonitorView { seltags: seltags, tagset: (t0, t1), ..mv }
}

/// The tag change of `view`: where the requested tags (within the tag mask)
/// are not the ones shown, the selected monitor switches to its other tag set,
/// which takes the requested tags unless there are none.
pub open spec fn view_tags(v: WmView, ui: u32) -> WmView {
    let m = v.selmon as int;
    let mv = v.mons[m];
    let want = ui & TAGMASK;
    if want == pick(mv.tagset, mv.seltags as int) {
        v
    } else {
        let st = (1 - mv.seltags) as usize;
        let t = if want != 0 { want } else { pick(mv.tagset, st as int) };
        v.set_mon(m, if st == 0 { with_tagsets(mv, st, t, mv.tagset.1) } else { with_tagsets(mv, st, mv.tagset.0, t) })
    }
}

/// The tag change of `toggleview`: the requested tags are flipped in the
/// shown tag set, unless none would be left.
pub open spec fn toggleview_tags(v: WmView, ui: u32) -> WmView {
    let m = v.selmon as int;
    let mv = v.mons[m];
    let nt = pick(mv.tagset, mv.seltags as int) ^ (ui & TAGMASK);
    if nt == 0 {
        v
    } else if mv.seltags == 0 {
        v.set_mon(m, with_tagsets(mv, 0, nt, mv.tagset.1))
    } else {
        v.set_mon(m, with_tagsets(mv, 1, mv.tagset.0, nt))
    }
}

/// The tag change of `tag`: the selected client takes the requested tags,
/// where there is one and some tag is requested.
pub open spec fn tag_tags(v: WmView, ui: u32) -> WmView {
    let mv = v.mons[v.selmon as int];
    match mv.sel {
        Some(s) if ui & TAGMASK != 0 => v.set_client(s as int, Client { tags: ui & TAGMASK, ..v.clients[s as int] }),
        _ => v,
    }
}

/// The tag change of `toggletag`: the requested tags are flipped on the
/// selected client, unless none would be left.
pub open spec fn toggletag_tags(v: WmView, ui: u32) -> WmView {
    let mv = v.mons[v.selmon as int];
    match mv.sel {
        Some(s) => {
            let nt = v.clients[s as int].tags ^ (ui & TAGMASK);
            if nt != 0 { v.set_client(s as int, Client { tags: nt, ..v.clients[s as int] }) } else { v }
        },
        None => v,
    }
}

/// A tag command took `v` to `v2`: where it acts, it sets the tags as `t`
/// holds them, focuses the first visible client and arranges the selected
/// monitor; else nothing changes. The requests made are `e`.
pub open spec fn tagged_then_arranged<F: Fn(FloatQuery) -> (i32, i32)>(v: WmView, acts: bool, t: WmView, v2: WmView, e: Seq<Effect>, fq: &F) -> bool {
    if !acts {
        v2 == v && e == Seq::<Effect>::empty()
    } else {
        &&& arranged(focus_state(t, None), t.selmon as int, v2, fq)
        &&& crate::focus::refocused_arranged(t, t.selmon as int, v2, e, fq)
    }
}

/// `view` acts: the requested tags are not the ones shown.
pub open spec fn view_acts(v: WmView, ui: u32) -> bool {
    let mv = v.mons[v.selmon as int];
    ui & TAGMASK != pick(mv.tagset, mv.seltags as int)
}

/// `toggleview` acts: some tag would remain shown.
pub open spec fn toggleview_acts(v: WmView, ui: u32) -> bool {
    let mv = v.mons[v.selmon as int];
    pick(mv.tagset, mv.seltags as int) ^ (ui & TAGMASK) != 0
}

/// Focusing without a client stays on the selected monitor.
pub proof fn lemma_focus_none_selmon(v: WmView)
    requires
        v.wf(),
    ensures
        focus_state(v, None).selmon == v.selmon,
        focus_state(v, None).wf(),
{
    let m = v.selmon as int;
    assert(v.mon_ok(m));
    let s = v.mons[m].stack;
    match v.first_visible(s) {
        Some(t) => {
            crate::clients::lemma_first_visible_in(v, s);
            let j = choose|j: int| 0 <= j < s.len() && s[j] == t;
            assert(v.client_on(s[j] as int, m));
            crate::focus::lemma_focus_wf(v, t);
        },
        None => {
            crate::focus::lemma_focus_root_wf(v);
        },
    }
}

pub proof fn lemma_tagmask_ok(x: u32)
    ensures
        (x & TAGMASK) & !TAGMASK == 0,
{
    assert((x & 0x1FFu32) & !0x1FFu32 == 0) by (bit_vector);
}

proof fn lemma_xor_ok(a: u32, b: u32)
    requires
        a & !TAGMASK == 0,
    ensures
        (a ^ (b & TAGMASK)) & !TAGMASK == 0,
{
    assert(a & !0x1FFu32 == 0 ==> (a ^ (b & 0x1FFu32)) & !0x1FFu32 == 0) by (bit_vector);
}

/// Changing the tag sets of a monitor to valid ones keeps the state well
/// formed.
proof fn lemma_wf_tagsets(v: WmView, m: int, st: usize, t0: u32, t1: u32)
    requires
        v.wf(),
        0 <= m < v.mons.len(),
        st < 2,
        WmView::tagset_ok(t0),
        WmView::tagset_ok(t1),
    ensures
        v.set_mon(m, with_tagsets(v.mons[m], st, t0, t1)).wf(),
{
    let nm = with_tagsets(v.mons[m], st, t0, t1);
    let v2 = v.set_mon(m, nm);
    assert(v.mon_ok(m));
    assert(v2.mon_ok(m)) by {
        assert forall|k: int| 0 <= k < nm.clients.len() implies #[trigger] v2.client_on(nm.clients[k] as int, m) by {
            assert(v.client_on(nm.clients[k] as int, m));
        }
        assert forall|k: int| 0 <= k < nm.stack.len() implies #[trigger] v2.client_on(nm.stack[k] as int, m) by {
            assert(v.client_on(nm.stack[k] as int, m));
        }
    }
    crate::focus::lemma_wf_set_mon(v, m, nm);
}

/// No requests were made.
pub proof fn lemma_no_fx(f: Seq<Effect>)
    ensures
        crate::engine::added(f, f) == Seq::<Effect>::empty(),
        f == f + crate::engine::added(f, f),
{
    assert(crate::engine::added(f, f) =~= Seq::<Effect>::empty());
    assert(f =~= f + crate::engine::added(f, f));
}

/// Resets the focus to the first visible client, then arranges the selected
/// monitor.
fn focus_then_arrange<F: Fn(FloatQuery) -> (i32, i32)>(wm: &mut Wm, fq: &F, fx: &mut Vec<Effect>)
    requires
        old(wm)@.wf(),
        answers_all(fq),
    ensures
        final(wm)@.wf(),
        final(fx)@ == old(fx)@ + crate::engine::added(old(fx)@, final(fx)@),
        arranged(focus_state(old(wm)@, None), old(wm)@.selmon as int, final(wm)@, fq),
        crate::focus::refocused_arranged(old(wm)@, old(wm)@.selmon as int, final(wm)@, crate::engine::added(old(fx)@, final(fx)@), fq),
{
    let ghost t = wm@;
    proof { lemma_focus_none_selmon(t); }
    wm.focus(None, fx);
    let ghost f1 = fx@;
    let m = wm.selmon;
    wm.arrange(Some(m), fq, fx);
    proof {
        crate::focus::lemma_refocused(t, m as int, wm@, old(fx)@, f1, fx@, fq);
    }
}

/// Shows the given tags on the selected monitor, switching to its other
/// tag set; tags 0 switch back to the tags shown before.
pub fn view<F: Fn(FloatQuery) -> (i32, i32)>(wm: &mut Wm, ui: u32, fq: &F, fx: &mut Vec<Effect>)
    requires
        old(wm)@.wf(),
        answers_all(fq),
    ensures
        final(wm)@.wf(),
        final(fx)@ == old(fx)@ + crate::engine::added(old(fx)@, final(fx)@),
        tagged_then_arranged(old(wm)@, view_acts(old(wm)@, ui), view_tags(old(wm)@, ui), final(wm)@, crate::engine::added(old(fx)@, final(fx)@), fq),
{
    let ghost v = wm@;
    let sm = wm.selmon;
    proof { assert(v.mon_ok(sm as int)); }
    let want = ui & tagmask();
    let st0 = wm.mons[sm].seltags;
    if want == wm.mons[sm].tagset[st0] {
        proof { lemma_no_fx(fx@); }
        return;
    }
    let st: usize = if st0 == 0 { 1 } else { 0 };
    wm.mons[sm].seltags = st;
    if want != 0 {
        wm.mons[sm].tagset[st] = want;
    }
    proof {
        let t = view_tags(v, ui);
        assert(wm@.mons =~= t.mons);
        assert(wm@.names =~= t.names);
        assert(wm@ == t);
        lemma_tagmask_ok(ui);
        let mv = v.mons[sm as int];
        let tv = if want != 0 { want } else { pick(mv.tagset, st as int) };
        if st == 0 {
            lemma_wf_tagsets(v, sm as int, st, tv, mv.tagset.1);
        } else {
            lemma_wf_tagsets(v, sm as int, st, mv.tagset.0, tv);
        }
        assert(t != v) by {
            assert(t.mons[sm as int].seltags != v.mons[sm as int].seltags);
        }
    }
    let ghost t = wm@;
    proof { lemma_focus_none_selmon(t); }
    focus_then_arrange(wm, fq, fx);
}

/// Flips the given tags in the tag set the selected monitor shows, unless
/// no tag would be shown.
pub fn toggleview<F: Fn(FloatQuery) -> (i32, i32)>(wm: &mut Wm, ui: u32, fq: &F, fx: &mut Vec<Effect>)
    requires
        old(wm)@.wf(),
        answers_all(fq),
    ensures
        final(wm)@.wf(),
        final(fx)@ == old(fx)@ + crate::engine::added(old(fx)@, final(fx)@),
        tagged_then_arranged(old(wm)@, toggleview_acts(old(wm)@, ui), toggleview_tags(old(wm)@, ui), final(wm)@, crate::engine::added(old(fx)@, final(fx)@), fq),
{
    let ghost v = wm@;
    let sm = wm.selmon;
    proof { assert(v.mon_ok(sm as int)); }
    let st = wm.mons[sm].seltags;
    let nt = wm.mons[sm].tagset[st] ^ (ui & tagmask());
    if nt == 0 {
        proof { lemma_no_fx(fx@); }
        return;
    }
    wm.mons[sm].tagset[st] = nt;
    proof {
        let t = toggleview_tags(v, ui);
        assert(wm@.mons =~= t.mons);
        assert(wm@.names =~= t.names);
        assert(wm@ == t);
        let mv = v.mons[sm as int];
        lemma_xor_ok(pick(mv.tagset, st as int), ui);
        if st == 0 {
            lemma_wf_tagsets(v, sm as int, st, nt, mv.tagset.1);
        } else {
            lemma_wf_tagsets(v, sm as int, st, mv.tagset.0, nt);
        }
    }
    let ghost t = wm@;
    proof { lemma_focus_none_selmon(t); }
    focus_then_arrange(wm, fq, fx);
}


/// `tag` acts: there is a selected client and some tag is requested.
pub open spec fn tag_acts(v: WmView, ui: u32) -> bool {
    v.mons[v.selmon as int].sel is Some && ui & TAGMASK != 0
}

/// `toggletag` acts: there is a selected client that would keep some tag.
pub open spec fn toggletag_acts(v: WmView, ui: u32) -> bool {
    match v.mons[v.selmon as int].sel {
        Some(s) => v.clients[s as int].tags ^ (ui & TAGMASK) != 0,
        None => false,
    }
}

/// Gives the selected client exactly the requested tags.
pub fn tag<F: Fn(FloatQuery) -> (i32, i32)>(wm: &mut Wm, ui: u32, fq: &F, fx: &mut Vec<Effect>)
    requires
        old(wm)@.wf(),
        answers_all(fq),
    ensures
        final(wm)@.wf(),
        final(fx)@ == old(fx)@ + crate::engine::added(old(fx)@, final(fx)@),
        tagged_then_arranged(old(wm)@, tag_acts(old(wm)@, ui), tag_tags(old(wm)@, ui), final(wm)@, crate::engine::added(old(fx)@, final(fx)@), fq),
{
    let ghost v = wm@;
    let sm = wm.selmon;
    proof { assert(v.mon_ok(sm as int)); }
    match wm.mons[sm].sel {
        Some(s) => {
            if ui & tagmask() != 0 {
                proof {
                    let j = choose|j: int| 0 <= j < v.mons[sm as int].clients.len() && v.mons[sm as int].clients[j] == s;
                    assert(v.client_on(v.mons[sm as int].clients[j] as int, sm as int));
                }
                wm.clients[s].tags = ui & tagmask();
                proof {
                    let t = tag_tags(v, ui);
                    assert(wm@.clients =~= t.clients);
                    assert(wm@.names =~= t.names);
                    assert(wm@ == t);
                    lemma_tagmask_ok(ui);
                    crate::engine::lemma_wf_set_client(v, s as int, Client { tags: ui & TAGMASK, ..v.clients[s as int] });
                }
                let ghost t = wm@;
                proof { lemma_focus_none_selmon(t); }
                focus_then_arrange(wm, fq, fx);
            } else {
                proof { lemma_no_fx(fx@); }
            }
        },
        None => {
            proof { lemma_no_fx(fx@); }
        },
    }
}

/// Flips the requested tags on the selected client, unless it would be left
/// without a tag.
pub fn toggletag<F: Fn(FloatQuery) -> (i32, i32)>(wm: &mut Wm, ui: u32, fq: &F, fx: &mut Vec<Effect>)
    requires
        old(wm)@.wf(),
        answers_all(fq),
    ensures
        final(wm)@.wf(),
        final(fx)@ == old(fx)@ + crate::engine::added(old(fx)@, final(fx)@),
        tagged_then_arranged(old(wm)@, toggletag_acts(old(wm)@, ui), toggletag_tags(old(wm)@, ui), final(wm)@, crate::engine::added(old(fx)@, final(fx)@), fq),
{
    let ghost v = wm@;
    let sm = wm.selmon;
    proof { assert(v.mon_ok(sm as int)); }
    match wm.mons[sm].sel {
        Some(s) => {
            proof {
                let j = choose|j: int| 0 <= j < v.mons[sm as int].clients.len() && v.mons[sm as int].clients[j] == s;
                assert(v.client_on(v.mons[sm as int].clients[j] as int, sm as int));
            }
            let nt = wm.clients[s].tags ^ (ui & tagmask());
            if nt != 0 {
                wm.clients[s].tags = nt;
                proof {
                    let t = toggletag_tags(v, ui);
                    assert(wm@.clients =~= t.clients);
                    assert(wm@.names =~= t.names);
                    assert(wm@ == t);
                    assert(v.clients[s as int].alive);
                    lemma_xor_ok(v.clients[s as int].tags, ui);
                    crate::engine::lemma_wf_set_client(v, s as int, Client { tags: nt, ..v.clients[s as int] });
                }
                let ghost t = wm@;
                proof { lemma_focus_none_selmon(t); }
                focus_then_arrange(wm, fq, fx);
            } else {
                proof { lemma_no_fx(fx@); }
            }
        },
        None => {
            proof { lemma_no_fx(fx@); }
        },
    }
}

/// The index of the lowest of the first `n` tags that `t` holds, from `k` on;
/// 0 where it holds none of them.
pub open spec fn first_tag_from(t: u32, k: int) -> int
    decreases NTAGS - k,
{
    if k >= NTAGS {
        0
    } else if t & (1u32 << (k as u32)) != 0 {
        k
    } else {
        first_tag_from(t, k + 1)
    }
}

/// The tag `view_adjacent` moves to: `i` tags away from the lowest tag shown,
/// round the ring of tags.
pub open spec fn adjacent_tag(t: u32, i: i32) -> int {
    let r = crate::engine::trem(crate::engine::i32w(first_tag_from(t, 0) + i) as int, NTAGS as int);
    if r < 0 { r + NTAGS } else { r }
}

proof fn lemma_first_tag_range(t: u32, k: int)
    requires
        0 <= k,
    ensures
        0 <= first_tag_from(t, k) < NTAGS,
    decreases NTAGS - k,
{
    if k < NTAGS && t & (1u32 << (k as u32)) == 0 {
        lemma_first_tag_range(t, k + 1);
    }
}

/// Shows the tag `i` steps from the lowest tag shown, round the ring of tags.
pub fn view_adjacent<F: Fn(FloatQuery) -> (i32, i32)>(wm: &mut Wm, i: i32, fq: &F, fx: &mut Vec<Effect>)
    requires
        old(wm)@.wf(),
        answers_all(fq),
    ensures
        final(wm)@.wf(),
        ({
            let ui = 1u32 << (adjacent_tag(old(wm)@.shown_tags(old(wm)@.selmon as int), i) as u32);
            tagged_then_arranged(old(wm)@, view_acts(old(wm)@, ui), view_tags(old(wm)@, ui), final(wm)@,
                crate::engine::added(old(fx)@, final(fx)@), fq)
        }),
        final(fx)@ == old(fx)@ + crate::engine::added(old(fx)@, final(fx)@),
{
    let ghost v = wm@;
    let sm = wm.selmon;
    proof { assert(v.mon_ok(sm as int)); }
    let curtags = wm.mons[sm].tagset[wm.mons[sm].seltags];
    let mut k: u32 = 0;
    let ntags = crate::config::tags().len() as u32;
    while k < ntags && curtags & (1u32 << k) == 0
        invariant
            ntags == NTAGS,
            k <= ntags,
            first_tag_from(curtags, 0) == first_tag_from(curtags, k as int),
        decreases ntags - k,
    {
        k += 1;
    }
    let seltag: u32 = if k < ntags { k } else { 0 };
    proof { lemma_first_tag_range(curtags, 0); }
    assert(seltag as int == first_tag_from(curtags, 0));
    let sum = crate::engine::wrap(seltag as i64 + i as i64);
    let mut r = crate::engine::rem_trunc(sum as i64, ntags as i64);
    if r < 0 {
        r = r + ntags as i64;
    }
    proof {
        assert(r == adjacent_tag(curtags, i));
        assert(curtags == v.shown_tags(sm as int));
    }
    assert(0 <= r < 9) by {
        let x = sum as int;
        if x > 0 {
            assert(x % 9 < 9) by (nonlinear_arith) requires x > 0;
        } else if x < 0 {
            assert((x * -1) % 9 < 9) by (nonlinear_arith) requires x < 0;
        }
    }
    let ui = 1u32 << (r as u32);
    view(wm, ui, fq, fx);
}

} // verus!
