use vstd::prelude::*;
use crate::config::TAGMASK;
use crate::model::{Client, MonitorView, WmView, pick};
use crate::membership::{attached, detached};
use crate::input::{SHIFT_MASK, CONTROL_MASK, MOD1_MASK, MOD2_MASK, MOD3_MASK, MOD4_MASK, MOD5_MASK, LOCK_MASK};
use crate::tags::{view_tags, view_acts, toggleview_tags, toggleview_acts, toggletag_tags, toggletag_acts, tag_tags, tag_acts, with_tagsets};

verus! {

proof fn lemma_xor_twice(a: u32, b: u32)
    ensures
        (a ^ (b & TAGMASK)) ^ (b & TAGMASK) == a,
{
    assert((a ^ (b & 0x1FFu32)) ^ (b & 0x1FFu32) == a) by (bit_vector);
}

/// Toggling the same tags in the shown tag set twice restores it.
pub proof fn law_toggleview_twice(v: WmView, ui: u32)
    requires
        v.wf(),
        toggleview_acts(v, ui),
    ensures
        toggleview_acts(toggleview_tags(v, ui), ui),
        toggleview_tags(toggleview_tags(v, ui), ui) == v,
{
    let m = v.selmon as int;
    let mv = v.mons[m];
    assert(v.mon_ok(m));
    lemma_xor_twice(pick(mv.tagset, mv.seltags as int), ui);
    let t = toggleview_tags(v, ui);
    let t2 = toggleview_tags(t, ui);
    assert(t2.mons =~= v.mons);
}

/// Toggling the same tags on the selected client twice restores its tags.
pub proof fn law_toggletag_twice(v: WmView, ui: u32)
    requires
        v.wf(),
        toggletag_acts(v, ui),
    ensures
        toggletag_acts(toggletag_tags(v, ui), ui),
        toggletag_tags(toggletag_tags(v, ui), ui) == v,
{
    let m = v.selmon as int;
    let s = v.mons[m].sel.unwrap();
    assert(v.mon_ok(m));
    let j = choose|j: int| 0 <= j < v.mons[m].clients.len() && v.mons[m].clients[j] == s;
    assert(v.client_on(v.mons[m].clients[j] as int, m));
    lemma_xor_twice(v.clients[s as int].tags, ui);
    let t = toggletag_tags(v, ui);
    let t2 = toggletag_tags(t, ui);
    assert(t.mons == v.mons);
    assert(t.clients[s as int].tags == v.clients[s as int].tags ^ (ui & TAGMASK));
    assert(t2.clients[s as int] == v.clients[s as int]);
    assert(t2.clients =~= v.clients);
}

/// Viewing some tags, then viewing with no tags, shows again the tags that
/// were shown before.
pub proof fn law_view_back(v: WmView, ui: u32)
    requires
        v.wf(),
        view_acts(v, ui),
    ensures
        view_acts(view_tags(v, ui), 0),
        view_tags(view_tags(v, ui), 0).shown_tags(v.selmon as int) == v.shown_tags(v.selmon as int),
        view_tags(view_tags(v, ui), 0).mons[v.selmon as int].seltags == v.mons[v.selmon as int].seltags,
{
    let m = v.selmon as int;
    assert(v.mon_ok(m));
    let t = view_tags(v, ui);
    assert(0u32 & TAGMASK == 0) by (bit_vector);
    let mt = t.mons[m];
    assert(pick(mt.tagset, mt.seltags as int) != 0) by {
        let mv = v.mons[m];
        let want = ui & TAGMASK;
        if want == 0 {
            assert(pick(mt.tagset, mt.seltags as int) == pick(mv.tagset, 1 - mv.seltags));
        }
    }
}

/// Viewing some tags shows exactly those tags.
pub proof fn law_view_shows(v: WmView, ui: u32)
    requires
        v.wf(),
        view_acts(v, ui),
        ui & TAGMASK != 0,
    ensures
        view_tags(v, ui).shown_tags(v.selmon as int) == ui & TAGMASK,
        view_tags(v, ui).selmon == v.selmon,
{
}

/// Tagging the selected client gives it exactly the requested tags.
pub proof fn law_tag_sets(v: WmView, ui: u32)
    requires
        v.wf(),
        tag_acts(v, ui),
    ensures
        tag_tags(v, ui).clients[v.mons[v.selmon as int].sel.unwrap() as int].tags == ui & TAGMASK,
{
    let m = v.selmon as int;
    assert(v.mon_ok(m));
    let s = v.mons[m].sel.unwrap();
    let j = choose|j: int| 0 <= j < v.mons[m].clients.len() && v.mons[m].clients[j] == s;
    assert(v.client_on(v.mons[m].clients[j] as int, m));
}


/// Exchanging two clients of the selected monitor's list twice restores the
/// list.
pub proof fn law_swap_twice(v: WmView, p: int, q: int)
    requires
        v.wf(),
        0 <= p < v.mons[v.selmon as int].clients.len(),
        0 <= q < v.mons[v.selmon as int].clients.len(),
    ensures
        crate::stack::swapped(crate::stack::swapped(v, p, q), p, q) == v,
{
    let m = v.selmon as int;
    let w = crate::stack::swapped(crate::stack::swapped(v, p, q), p, q);
    assert(w.mons[m].clients =~= v.mons[m].clients);
    assert(w.mons =~= v.mons);
}

/// Putting a client that no monitor lists at the head of its monitor's
/// lists, then taking it out again, gives back the state before.
pub proof fn law_attach_detach(v: WmView, c: usize)
    requires
        v.wf_without(c as int),
        v.clients[c as int].alive,
        v.clients[c as int].mon < v.mons.len(),
    ensures
        detached(attached(v, c), c) == v,
{
    let m = v.clients[c as int].mon as int;
    let mv = v.mons[m];
    assert(v.mon_ok(m));
    assert(!mv.clients.contains(c));
    assert(!mv.stack.contains(c)) by {
        assert(mv.clients.contains(c) <==> mv.stack.contains(c));
    }
    let a = attached(v, c);
    crate::seqs::lemma_remove_value_at(seq![c] + mv.clients, c, 0);
    crate::seqs::lemma_remove_value_at(seq![c] + mv.stack, c, 0);
    assert((seq![c] + mv.clients).remove(0) =~= mv.clients);
    assert((seq![c] + mv.stack).remove(0) =~= mv.stack);
    assert(mv.sel != Some(c)) by {
        if mv.sel == Some(c) { assert(mv.clients.contains(c)); }
    }
    let d = detached(a, c);
    assert(d.mons[m] == mv);
    assert(d.mons =~= v.mons);
}

/// A client sent to another monitor heads that monitor's client list and
/// focus stack, sits on that monitor and shows there, and no other monitor
/// lists it.
pub proof fn law_sendmon_moves(v: WmView, c: usize, m: usize)
    requires
        v.wf(),
        v.clients.len() <= usize::MAX,
        (c as int) < v.clients.len(),
        v.clients[c as int].alive,
        (m as int) < v.mons.len(),
        v.clients[c as int].mon != m,
        v.mons[m as int].clients.len() + 1 < crate::model::MAX_CLIENTS,
    ensures
        ({
            let t = crate::transfer::sent_state(v, c, m);
            &&& t.wf()
            &&& t.clients[c as int].mon == m
            &&& t.visible(c as int)
            &&& t.mons[m as int].clients[0] == c
            &&& t.mons[m as int].stack[0] == c
            &&& forall|k: int| 0 <= k < t.mons.len() && k != m ==> !(#[trigger] t.mons[k]).clients.contains(c)
        }),
{
    let cl = v.clients[c as int];
    crate::membership::lemma_detached(v, c);
    let d = detached(v, c);
    let nc = Client { mon: m, tags: v.shown_tags(m as int), ..cl };
    crate::membership::lemma_without_set_client(d, c as int, nc);
    let d2 = d.set_client(c as int, nc);
    assert(v.mon_ok(m as int));
    assert(d2.mons[m as int] == v.mons[m as int]);
    crate::membership::lemma_attached(d2, c);
    let t = crate::transfer::sent_state(v, c, m);
    assert(t == attached(d2, c));
    assert(t.shown_tags(m as int) == v.shown_tags(m as int));
    assert(t.clients[c as int].tags & t.shown_tags(m as int) != 0) by {
        let x = v.shown_tags(m as int);
        assert(x != 0);
        assert(x != 0 ==> x & x != 0) by (bit_vector);
    }
    assert forall|k: int| 0 <= k < t.mons.len() && k != m implies !(#[trigger] t.mons[k]).clients.contains(c) by {
        assert(t.mons[k] == d2.mons[k]);
    }
}

/// An unmanaged client is no longer managed and no monitor lists it; every
/// other client stays as it was.
pub proof fn law_release_forgets(v: WmView, c: usize)
    requires
        v.wf(),
        v.clients.len() <= usize::MAX,
        (c as int) < v.clients.len(),
        v.clients[c as int].alive,
    ensures
        ({
            let t = crate::lifecycle::released_state(v, c);
            &&& t.wf()
            &&& !t.clients[c as int].alive
            &&& forall|k: int| 0 <= k < t.mons.len() ==> !(#[trigger] t.mons[k]).clients.contains(c)
            &&& forall|k: int| 0 <= k < t.mons.len() ==> !(#[trigger] t.mons[k]).stack.contains(c)
            &&& forall|id: int| 0 <= id < v.clients.len() && id != c ==> #[trigger] t.clients[id] == v.clients[id]
        }),
{
    crate::membership::lemma_detached(v, c);
    let d = detached(v, c);
    let t = crate::lifecycle::released_state(v, c);
    crate::membership::lemma_without_set_client(d, c as int, Client { alive: false, ..v.clients[c as int] });
    crate::membership::lemma_without_dead(t, c as int);
    assert forall|k: int| 0 <= k < t.mons.len() implies !(#[trigger] t.mons[k]).stack.contains(c) by {
        assert(t.mon_ok(k));
        assert(!t.mons[k].clients.contains(c));
        assert(t.mons[k].clients.contains(c) <==> t.mons[k].stack.contains(c));
    }
}

/// The client that gets the focus heads the focus stack of its monitor, is
/// its selected client and is no longer urgent; that monitor becomes the
/// selected one; the focus stack keeps the same clients.
pub proof fn law_focus_heads(v: WmView, t: usize)
    requires
        v.wf(),
        (t as int) < v.clients.len(),
        v.clients[t as int].alive,
    ensures
        ({
            let f = crate::focus::focused_state(v, t);
            let m = v.clients[t as int].mon as int;
            &&& f.selmon == v.clients[t as int].mon
            &&& f.mons[m].stack[0] == t
            &&& f.mons[m].sel == Some(t)
            &&& !f.clients[t as int].isurgent
            &&& forall|id: usize| #[trigger] f.mons[m].stack.contains(id) <==> v.mons[m].stack.contains(id)
        }),
{
    let m = v.clients[t as int].mon as int;
    assert(v.mon_ok(m));
    let s = v.mons[m].stack;
    crate::seqs::lemma_remove_value_no_dup(s, t);
    crate::seqs::lemma_prepend(s.remove_value(t), t);
    assert(s.contains(t)) by {
        assert(v.mons[m].clients.contains(t));
    }
}

/// Dropping the modifiers that do not tell bindings apart twice is dropping
/// them once.
pub proof fn law_cleanmask_idempotent(mask: u32, numlock: u32)
    ensures
        crate::input::clean(crate::input::clean(mask, numlock), numlock) == crate::input::clean(mask, numlock),
{
    assert((1u32 | 4u32 | 8u32 | 16u32 | 32u32 | 64u32 | 128u32) == 253u32) by (bit_vector);
    assert(SHIFT_MASK | CONTROL_MASK | MOD1_MASK | MOD2_MASK | MOD3_MASK | MOD4_MASK | MOD5_MASK == 253u32);
    assert(LOCK_MASK == 2u32);
    let c = crate::input::clean(mask, numlock);
    assert(c == (mask & !(numlock | 2u32)) & 253u32);
    assert(crate::input::clean(c, numlock) == (c & !(numlock | 2u32)) & 253u32);
    assert((((mask & !(numlock | 2u32)) & 253u32) & !(numlock | 2u32)) & 253u32 == (mask & !(numlock | 2u32)) & 253u32)
        by (bit_vector);
}

/// The distinct screens hold no geometry twice and hold each geometry of the
/// screens.
pub proof fn law_dedup(s: Seq<crate::geom::Geom>)
    ensures
        crate::geom::dedup(s).no_duplicates(),
        forall|g: crate::geom::Geom| #[trigger] crate::geom::dedup(s).contains(g) <==> s.contains(g),
    decreases s.len(),
{
    if s.len() > 0 {
        law_dedup(s.drop_last());
        let d = crate::geom::dedup(s.drop_last());
        let x = s.last();
        assert forall|g: crate::geom::Geom| #[trigger] crate::geom::dedup(s).contains(g) <==> s.contains(g) by {
            if s.drop_last().contains(g) {
                let j = choose|j: int| 0 <= j < s.drop_last().len() && s.drop_last()[j] == g;
                assert(s[j] == g);
            }
            if s.contains(g) && g != x {
                let j = choose|j: int| 0 <= j < s.len() && s[j] == g;
                assert(j < s.len() - 1);
                assert(s.drop_last()[j] == g);
            }
            if !d.contains(x) {
                assert(d.push(x)[d.len() as int] == x);
                if d.push(x).contains(g) && g != x {
                    let j = choose|j: int| 0 <= j < d.push(x).len() && d.push(x)[j] == g;
                    assert(d[j] == g);
                }
                if d.contains(g) {
                    let j = choose|j: int| 0 <= j < d.len() && d[j] == g;
                    assert(d.push(x)[j] == g);
                }
            }
            if s.contains(g) && g == x {
                assert(s[s.len() - 1] == g);
            }
        }
        if !d.contains(x) {
            assert forall|a: int, b: int| 0 <= a < d.push(x).len() && 0 <= b < d.push(x).len() && a != b
                implies d.push(x)[a] != d.push(x)[b] by {
                if a == d.len() { assert(d.contains(d[b])); }
                if b == d.len() { assert(d.contains(d[a])); }
            }
        }
    }
}

/// Reading back the decimal digits of a number gives the number.
pub proof fn law_parse_decimal(n: nat)
    requires
        n <= 0x7fff_ffff,
    ensures
        crate::procs::parse_i32_spec(crate::engine::dec_digits(n)) == Some(n as i32),
{
    lemma_digits_of(n);
}

proof fn lemma_digits_of(n: nat)
    ensures
        crate::procs::digits_value(crate::engine::dec_digits(n)) == n,
        crate::procs::all_digits(crate::engine::dec_digits(n)),
        crate::engine::dec_digits(n).len() > 0,
        crate::engine::dec_digits(n)[0] != 45 && crate::engine::dec_digits(n)[0] != 43,
    decreases n,
{
    let d = crate::engine::dec_digits(n);
    if n < 10 {
        assert(d.drop_last() =~= Seq::<u8>::empty());
        assert(crate::procs::digits_value(d.drop_last()) == 0);
    } else {
        lemma_digits_of(n / 10);
        let p = crate::engine::dec_digits(n / 10);
        assert(d == p.push((48 + n % 10) as u8));
        assert(d.drop_last() =~= p);
        assert(d[0] == p[0]);
        assert forall|k: int| 0 <= k < d.len() implies 48 <= #[trigger] d[k] <= 57 by {
            if k < p.len() { assert(d[k] == p[k]); }
        }
    }
}


/// A terminal that swallowed a window and gives it back is as it was.
pub proof fn law_swallow_undone(v: WmView, t: usize, c: usize)
    requires
        (t as int) < v.clients.len(),
        (c as int) < v.clients.len(),
        t != c,
        v.clients[t as int].swallowing is None,
    ensures
        crate::lifecycle::unswallowed_client(crate::swallow::swallowed_state(v, t, c), t).clients[t as int] == v.clients[t as int],
{
    let w = crate::swallow::swallowed_state(v, t, c);
    let d = detached(v, c);
    assert(d.clients == v.clients);
    assert(w.clients[t as int] == crate::swallow::taking_over(v.clients[t as int], v.clients[c as int]));
}

/// Making the selected client float in turn twice gives back its floating
/// state, unless it has a fixed size (it then floats).
pub proof fn law_togglefloating_twice(v: WmView)
    requires
        v.wf(),
        crate::commands::togglefloating_acts(v),
        !v.clients[v.mons[v.selmon as int].sel.unwrap() as int].isfixed,
    ensures
        crate::commands::togglefloating_acts(crate::commands::togglefloating_state(v)),
        crate::commands::togglefloating_state(crate::commands::togglefloating_state(v)) == v,
{
    let m = v.selmon as int;
    let c = v.mons[m].sel.unwrap();
    assert(v.mon_ok(m));
    let j = choose|j: int| 0 <= j < v.mons[m].clients.len() && v.mons[m].clients[j] == c;
    assert(v.client_on(v.mons[m].clients[j] as int, m));
    let t = crate::commands::togglefloating_state(v);
    let t2 = crate::commands::togglefloating_state(t);
    assert(t2.clients =~= v.clients);
}

/// A newly managed client takes the lowest slot whose client is no longer
/// managed (a new slot where there is none), heads its monitor's client list
/// and focus stack and is selected there; every other slot stays as it was.
pub proof fn law_admitted_heads(v: WmView, nc: Client, title: Seq<u8>)
    requires
        v.wf(),
        v.clients.len() < usize::MAX,
        nc.alive,
        nc.mon < v.mons.len(),
        WmView::tagset_ok(nc.tags),
        v.mons[nc.mon as int].clients.len() + 1 < crate::model::MAX_CLIENTS,
    ensures
        ({
            let a = crate::manage::admitted(v, nc, title);
            let n = crate::manage::free_slot(v) as usize;
            &&& a.wf()
            &&& !v.managed_clients().contains(n)
            &&& forall|k: int| 0 <= k < n ==> #[trigger] v.clients[k].alive
            &&& a.clients.len() == (if (n as int) < v.clients.len() { v.clients.len() as int } else { v.clients.len() + 1int })
            &&& a.clients[n as int] == nc
            &&& a.names[n as int] == title
            &&& forall|k: int| 0 <= k < v.clients.len() && k != n ==> #[trigger] a.clients[k] == v.clients[k]
            &&& a.mons[nc.mon as int].clients[0] == n
            &&& a.mons[nc.mon as int].stack[0] == n
            &&& a.mons[nc.mon as int].sel == Some(n)
        }),
{
    crate::manage::lemma_admitted_wf(v, nc, title);
    crate::manage::lemma_free_slot_from(v, 0);
}

/// After the screens are looked at again with Xinerama, there is one monitor
/// for each distinct screen, and the state is well formed.
pub proof fn law_monitors_follow_screens(v: WmView, gs: Seq<crate::geom::Geom>)
    requires
        v.wf(),
        v.clients.len() + 1 < crate::model::MAX_CLIENTS,
        gs.len() > 0,
    ensures
        crate::geom::geom_update(v, Some(Some(gs))).0.mons.len() == crate::geom::dedup(gs).len(),
        crate::geom::geom_update(v, Some(Some(gs))).0.wf(),
{
    let u = crate::geom::dedup(gs);
    crate::geom::lemma_dedup_nonempty(gs);
    if v.mons.len() <= u.len() {
        crate::geom::lemma_grown_wf(v, u);
    } else {
        crate::geom::lemma_shrunk(v, (v.mons.len() - u.len()) as nat);
    }
}


/// A text drawn in a box at least as wide as its padding ends at the box's
/// right edge: the layout starts with the pen and the width left adding up
/// to `x + w`, every step keeps that sum, and a finished layout in drawing
/// mode returns it.
pub proof fn law_text_right_edge(x: i32, y: i32, w: u32, h: u32, lpad: u32, nfonts: usize,
    st: crate::text::TextState, text: Seq<u8>, answer: u32)
    requires
        crate::text::text_ok(st, text),
    ensures
        ({
            let o = crate::text::text_origin(x, y, w, h, lpad, nfonts);
            o.render && lpad <= w ==> o.end == x + w
        }),
        crate::text::text_next(st, text, answer).0.end == st.end,
        crate::text::text_next(st, text, answer).0.x + crate::text::text_next(st, text, answer).0.w == st.end,
        st.render ==> (crate::text::text_next(st, text, answer).1 matches crate::text::TextRequest::Done { x: xe }
            ==> xe == crate::engine::i32w(st.end as int)),
{
}

/// A piece of text is drawn only where it fits: its width is at most what
/// is left of the box, and the pen moves on by exactly that width.
pub proof fn law_text_run_fits(st: crate::text::TextState, text: Seq<u8>, answer: u32)
    requires
        crate::text::text_ok(st, text),
    ensures
        crate::text::text_next(st, text, answer).2 matches Some(r) ==> {
            &&& r.width <= st.w
            &&& r.x == crate::engine::i32w(st.x as int)
            &&& crate::text::text_next(st, text, answer).0.x == st.x + r.width
            &&& st.x + r.width <= st.end
            &&& 1 <= r.len <= crate::text::TEXT_BUF
            &&& r.start == st.run_start
            &&& r.ellipsis == (r.len < st.run_len)
        },
{
}


/// Decoding inverts UTF-8 encoding: where the text starts with the shortest
/// encoding of a Unicode scalar value and decoding may read all of it, it
/// gives that value and takes exactly the bytes of its encoding.
pub proof fn law_decode_inverts_encoding(c: int, text: Seq<i8>, clen: int)
    requires
        crate::utf8::is_scalar(c),
        text.len() >= crate::utf8::utf8_encoding(c).len(),
        forall|i: int| 0 <= i < crate::utf8::utf8_encoding(c).len() ==> #[trigger] text[i] as u8 == crate::utf8::utf8_encoding(c)[i],
        clen >= crate::utf8::utf8_encoding(c).len(),
    ensures
        crate::utf8::decode(text, clen) == (crate::utf8::utf8_encoding(c).len() as int, c as i64),
{
    crate::utf8::lemma_decode_encoding(c, text, clen);
}


/// Putting a client into fullscreen and taking it out again: on entering,
/// it floats, loses its border and fills its monitor; on leaving, it is
/// resized back to the geometry it had, and ends no longer fullscreen with
/// the floating state and border it had before.
pub proof fn law_fullscreen_back<F: Fn(crate::engine::FloatQuery) -> (i32, i32)>(
    v: WmView, c: usize, v1: WmView, v2: WmView, fq: &F,
)
    requires
        (c as int) < v.clients.len(),
        !v.clients[c as int].isfullscreen,
        crate::hints::fullscreen_post(v, c, true, v1, fq),
        crate::hints::fullscreen_post(v1, c, false, v2, fq),
    ensures
        ({
            let cl = v.clients[c as int];
            let m = v.mons[cl.mon as int];
            let on = v1.clients[c as int];
            let back = crate::hints::fullscreen_off(on);
            &&& on.isfullscreen && on.isfloating && on.bw == 0
            &&& (on.x, on.y, on.w, on.h) == (m.mx, m.my, m.mw, m.mh)
            &&& (back.x, back.y, back.w, back.h) == (cl.x, cl.y, cl.w, cl.h)
            &&& !v2.clients[c as int].isfullscreen
            &&& v2.clients[c as int].isfloating == cl.isfloating
            &&& v2.clients[c as int].bw == cl.bw
        }),
{
    let cl = v.clients[c as int];
    let m = v.mons[cl.mon as int];
    let u = v.set_client(c as int, crate::hints::fullscreen_on(cl));
    assert(!crate::engine::fills_area(u, c as int));
    let on = v1.clients[c as int];
    assert(v1.clients.len() == v.clients.len());
    let u1 = v1.set_client(c as int, crate::hints::fullscreen_off(on));
    let g = crate::hints::fullscreen_off(on);
    let pre = u1.set_client(c as int, crate::engine::resized(u1, c as int, g.x, g.y, g.w, g.h));
    assert(crate::engine::same_keys(v2.clients[c as int], pre.clients[c as int]));
}


/// A focus step forwards, then one backwards, select again the client that
/// was selected, where it is visible: the first step selects the next
/// visible client after it in the client list, round the list, and neither
/// step reorders that list or leaves the monitor.
pub proof fn law_focusstack_back(v: WmView)
    requires
        v.wf(),
        v.mons[v.selmon as int].sel matches Some(x) && v.visible(x as int),
    ensures
        ({
            let m = v.selmon as int;
            let x = v.mons[m].sel.unwrap();
            let v1 = crate::stack::focusstack_state(v, 1i32);
            let v2 = crate::stack::focusstack_state(v1, -1i32);
            &&& v1.mons[m].sel == crate::stack::step_target(v, 1i32, false)
            &&& v1.selmon == v.selmon
            &&& v1.mons[m].clients == v.mons[m].clients
            &&& v2.selmon == v.selmon
            &&& v2.mons[m].sel == Some(x)
            &&& v2.mons[m].clients == v.mons[m].clients
        }),
{
    crate::stack::lemma_focus_step_back(v);
    let m = v.selmon as int;
    let x = v.mons[m].sel.unwrap();
    let v1 = crate::stack::focusstack_state(v, 1i32);
    assert(v1.mons[m].sel is Some);
    assert(crate::focus::focus_state(v1, Some(x)) == crate::focus::focused_state(v1, x));
}


/// Moving the selected client one step down the client list, then one step
/// up, gives back the list as it was, with the same client selected.
pub proof fn law_movestack_back<F: Fn(crate::engine::FloatQuery) -> (i32, i32)>(
    v: WmView, v1: WmView, v2: WmView, fq: &F,
)
    requires
        v.wf(),
        v1.wf(),
        v.mons[v.selmon as int].sel is Some,
        crate::stack::movestack_post(v, 1i32, v1, fq),
        crate::stack::movestack_post(v1, -1i32, v2, fq),
    ensures
        v2.selmon == v.selmon,
        v2.mons[v.selmon as int].clients == v.mons[v.selmon as int].clients,
        v2.mons[v.selmon as int].sel == v.mons[v.selmon as int].sel,
{
    crate::stack::lemma_move_step_back(v, v1, v2, fq);
}


/// Managing a new window adds exactly one managed client, in the free slot
/// and showing that window; where a terminal swallows the new client, the
/// managed clients stay as they were and the terminal shows the window.
pub proof fn law_manage_adds_one<F: Fn(crate::engine::FloatQuery) -> (i32, i32)>(
    v: WmView, nw: crate::manage::NewWindow, v2: WmView, fq: &F,
)
    requires
        v.wf(),
        v.clients.len() < usize::MAX,
        forall|m: int| 0 <= m < v.mons.len() ==> #[trigger] v.mons[m].clients.len() + 1 < crate::model::MAX_CLIENTS,
        crate::manage::managed(v, nw, v2, fq),
    ensures
        ({
            let n = crate::manage::free_slot(v) as usize;
            let nc = crate::manage::new_client(v, nw);
            &&& !v.managed_clients().contains(n)
            &&& match crate::manage::new_terminal(v, nw) {
                Some(t) if !nc.noswallow && !nc.isterminal => {
                    &&& v2.managed_clients() == v.managed_clients()
                    &&& v.managed_clients().contains(t)
                    &&& v2.clients[t as int].win == nw.win
                },
                _ => {
                    &&& v2.managed_clients() == v.managed_clients().insert(n)
                    &&& v2.clients[n as int].win == nw.win
                },
            }
        }),
{
    crate::manage::lemma_manage_clients(v, nw, v2, fq);
}


/// The tiling layout shares out the height of a column evenly: the window at
/// position `k` starts where the windows above it end, and the `r` windows
/// from it to the bottom of its column (the master column for the first
/// `nmaster`, the stack column for the rest) would, all as tall as it asks
/// to be with its border, fill the height left below it (less the gaps
/// between them) with less than one pixel per window to spare. The stack
/// column lies to the right of the master column and the gap, out to the
/// right edge of the window area.
pub proof fn law_tile_shares_column(v: WmView, m: int, cs: Seq<Client>, mw: i32, k: int)
    requires
        0 <= m < v.mons.len(),
        0 <= k < crate::engine::tiled_seq(v, v.mons[m].clients).len(),
        ({
            let mon = v.mons[m];
            let ts = crate::engine::tiled_seq(v, mon.clients);
            let n = ts.len() as int;
            let nm = crate::engine::nmaster_u(mon);
            let r = (if k < nm { if n <= nm { n } else { nm } } else { n }) - k;
            let acc = crate::engine::col_acc(cs, ts, k, nm, k < nm);
            let bw = v.clients[ts[k] as int].bw;
            &&& -0x1000_0000 <= mon.wx <= 0x1000_0000
            &&& -0x1000_0000 <= mon.wy <= 0x1000_0000
            &&& 0 <= mon.ww <= 0x1000_0000
            &&& 0 <= mon.wh <= 0x1000_0000
            &&& 0 <= mw <= 0x1000_0000
            &&& 0 <= bw <= 0x10_0000
            &&& 0 <= acc
            &&& crate::config::GAPPX * (r - 1) <= mon.wh - acc
        }),
    ensures
        ({
            let mon = v.mons[m];
            let ts = crate::engine::tiled_seq(v, mon.clients);
            let n = ts.len() as int;
            let nm = crate::engine::nmaster_u(mon);
            let r = (if k < nm { if n <= nm { n } else { nm } } else { n }) - k;
            let acc = crate::engine::col_acc(cs, ts, k, nm, k < nm);
            let bw = v.clients[ts[k] as int].bw;
            let t = crate::engine::tile_step_target(v, m, cs, mw, k);
            let outer = t.3 + 2 * bw;
            let room = mon.wh - acc - crate::config::GAPPX * (r - 1);
            &&& r >= 1
            &&& t.1 == mon.wy + acc
            &&& r * outer <= room
            &&& room < r * (outer + 1)
            &&& (k >= nm ==> t.0 == mon.wx + mw + crate::engine::tile_gap(v, m)
                    && t.0 + t.2 + 2 * bw == mon.wx + mon.ww)
            &&& (k < nm ==> t.0 == mon.wx && t.2 + 2 * bw == mw)
        }),
{
    let mon = v.mons[m];
    let ts = crate::engine::tiled_seq(v, mon.clients);
    let n = ts.len() as int;
    let nm = crate::engine::nmaster_u(mon);
    let r = (if k < nm { if n <= nm { n } else { nm } } else { n }) - k;
    let acc = crate::engine::col_acc(cs, ts, k, nm, k < nm);
    let room = mon.wh - acc - crate::config::GAPPX * (r - 1);
    assert(r >= 1);
    assert(0 <= room <= 0x1000_0000);
    assert(crate::engine::i32w(room) == room);
    let q = crate::engine::tdiv(room, r);
    assert(q == room / r);
    assert(r * q <= room && room < r * (q + 1) && 0 <= q <= room) by (nonlinear_arith)
        requires q == room / r, r >= 1, room >= 0;
    assert(0 <= crate::engine::tile_gap(v, m) <= 8);
}

/// Size hints round a window's size down to its resize increments: where
/// hints apply and the width increment is not zero, the width that comes
/// out, less the base width, is a whole number of increments, unless it was
/// held at the minimum or the maximum width; the same of heights.
pub proof fn law_hints_round_to_increments(
    v: WmView, c: Client, x: i32, y: i32, w: i32, h: i32, interact: bool, a: (i32, i32),
)
    requires
        crate::engine::applies_hints(v, c),
        -0x1000_0000 <= w <= 0x1000_0000,
        -0x1000_0000 <= h <= 0x1000_0000,
        0 <= v.bh <= 0x1000_0000,
        -0x1000_0000 <= c.basew <= 0x1000_0000,
        -0x1000_0000 <= c.baseh <= 0x1000_0000,
        -0x1000_0000 <= a.0 <= 0x1000_0000,
        -0x1000_0000 <= a.1 <= 0x1000_0000,
    ensures
        ({
            let r = crate::engine::size_hints(v, c, x, y, w, h, interact, a);
            &&& c.incw != 0 ==> r.2 == c.minw || (c.maxw != 0 && r.2 == c.maxw)
                    || exists|q: int| r.2 - c.basew == #[trigger] (q * c.incw)
            &&& c.inch != 0 ==> r.3 == c.minh || (c.maxh != 0 && r.3 == c.maxh)
                    || exists|q: int| r.3 - c.baseh == #[trigger] (q * c.inch)
        }),
{
    let g = crate::engine::sh_clamped(v, c, x, y, w, h, interact);
    assert(-0x1000_0000 <= g.2 <= 0x1000_0000);
    assert(-0x1000_0000 <= g.3 <= 0x1000_0000);
    let p = crate::engine::sh_pre(c, g.2, g.3);
    let qq = if crate::engine::aspect_active(c) { a } else { p };
    let w1 = if crate::engine::baseismin(c) { crate::engine::i32w(qq.0 - c.basew) } else { qq.0 };
    let h1 = if crate::engine::baseismin(c) { crate::engine::i32w(qq.1 - c.baseh) } else { qq.1 };
    assert(-0x3000_0000 <= w1 <= 0x3000_0000);
    assert(-0x3000_0000 <= h1 <= 0x3000_0000);
    if c.incw != 0 {
        crate::engine::lemma_trunc_multiple(w1 as int, c.incw as int);
        let w2 = w1 - crate::engine::trem(w1 as int, c.incw as int);
        assert(crate::engine::i32w(w2) == w2);
        assert(crate::engine::i32w(w2 + c.basew) == w2 + c.basew);
        let q = crate::engine::tdiv(w1 as int, c.incw as int);
        assert(w2 == q * c.incw);
    }
    if c.inch != 0 {
        crate::engine::lemma_trunc_multiple(h1 as int, c.inch as int);
        let h2 = h1 - crate::engine::trem(h1 as int, c.inch as int);
        assert(crate::engine::i32w(h2) == h2);
        assert(crate::engine::i32w(h2 + c.baseh) == h2 + c.baseh);
        let q = crate::engine::tdiv(h1 as int, c.inch as int);
        assert(h2 == q * c.inch);
    }
}

/// A rectangle that lies inside the window area of one monitor and apart
/// from the window areas of all the others belongs to that monitor: it is
/// the monitor that the rectangle overlaps most.
pub proof fn law_recttomon_inside(v: WmView, x: i32, y: i32, w: i32, h: i32, m: int, r: usize)
    requires
        0 <= m < v.mons.len(),
        0 < w <= 0x8000,
        0 < h <= 0x8000,
        -0x1000_0000 <= x <= 0x1000_0000,
        -0x1000_0000 <= y <= 0x1000_0000,
        forall|k: int| 0 <= k < v.mons.len() ==> {
            let mv = #[trigger] v.mons[k];
            &&& -0x1000_0000 <= mv.wx <= 0x1000_0000
            &&& -0x1000_0000 <= mv.wy <= 0x1000_0000
            &&& 0 <= mv.ww <= 0x1000_0000
            &&& 0 <= mv.wh <= 0x1000_0000
        },
        v.mons[m].wx <= x,
        x + w <= v.mons[m].wx + v.mons[m].ww,
        v.mons[m].wy <= y,
        y + h <= v.mons[m].wy + v.mons[m].wh,
        forall|k: int| 0 <= k < v.mons.len() && k != m ==> {
            let mv = #[trigger] v.mons[k];
            x + w <= mv.wx || mv.wx + mv.ww <= x || y + h <= mv.wy || mv.wy + mv.wh <= y
        },
        crate::window::rect_monitor(v, x, y, w, h, r),
    ensures
        r == m,
{
    let om = crate::window::overlap(v.mons[m], x, y, w, h);
    assert(w * h > 0 && w * h <= 0x4000_0000) by (nonlinear_arith) requires 0 < w <= 0x8000, 0 < h <= 0x8000;
    assert(om == w * h);
    assert forall|k: int| 0 <= k < v.mons.len() && k != m implies #[trigger] crate::window::overlap(v.mons[k], x, y, w, h) == 0 by {
        let mv = v.mons[k];
        let ax = crate::engine::max_i(0, crate::engine::i32w(crate::engine::min_i(crate::engine::i32w(x + w), crate::engine::i32w(mv.wx + mv.ww)) - crate::engine::max_i(x, mv.wx)));
        let ay = crate::engine::max_i(0, crate::engine::i32w(crate::engine::min_i(crate::engine::i32w(y + h), crate::engine::i32w(mv.wy + mv.wh)) - crate::engine::max_i(y, mv.wy)));
        assert(ax == 0 || ay == 0);
        assert(ax * ay == 0) by (nonlinear_arith) requires ax == 0 || ay == 0;
    }
    assert(crate::window::overlap(v.mons[m], x, y, w, h) > 0);
    if r != m {
        assert(crate::window::overlap(v.mons[m], x, y, w, h) <= crate::window::overlap(v.mons[r as int], x, y, w, h));
    }
}

/// Stepping to the next monitor moves, where there is more than one, and
/// stepping back from there comes back to the selected monitor; the same
/// the other way round.
pub proof fn law_dirtomon_back(v: WmView)
    requires
        v.mons.len() > 1,
        v.mons.len() <= usize::MAX,
        v.selmon < v.mons.len(),
    ensures
        crate::commands::dirtomon_spec(v, 1i32) != v.selmon,
        (crate::commands::dirtomon_spec(v, 1i32) as int) < v.mons.len(),
        crate::commands::dirtomon_spec(crate::events::with_selmon(v, crate::commands::dirtomon_spec(v, 1i32)), -1i32) == v.selmon,
        crate::commands::dirtomon_spec(v, -1i32) != v.selmon,
        (crate::commands::dirtomon_spec(v, -1i32) as int) < v.mons.len(),
        crate::commands::dirtomon_spec(crate::events::with_selmon(v, crate::commands::dirtomon_spec(v, -1i32)), 1i32) == v.selmon,
{
}

} // verus!
