use vstd::prelude::*;
use crate::config::NTAGS;
use crate::engine::{i32w, tdiv};
use crate::input::width_sum;
use crate::model::{Wm, WmView};

verus! {

/// The tags of the clients of `s` (only of the urgent ones, for
/// `urgent_only`), together.
pub open spec fn tags_of(v: WmView, s: Seq<usize>, urgent_only: bool) -> u32
    decreases s.len(),
{
    if s.len() == 0 {
        0
    } else {
        let c = v.clients[s.last() as int];
        let rest = tags_of(v, s.drop_last(), urgent_only);
        if !urgent_only || c.isurgent { rest | c.tags } else { rest }
    }
}

/// The windows of all managed clients, monitor by monitor, each monitor's in
/// its client list order.
pub open spec fn client_windows_from(v: WmView, k: int) -> Seq<u64>
    decreases k,
{
    if k <= 0 {
        Seq::empty()
    } else {
        client_windows_from(v, k - 1) + v.mons[k - 1].clients.map_values(|c: usize| v.clients[c as int].win)
    }
}

/// One piece of a monitor's bar, in drawing order.
#[derive(Clone, Copy, PartialEq, Eq, Structural, Debug)]
pub enum BarItem {
    /// The status text, right aligned.
    Status { x: i32, w: i32 },
    /// The label of tag `index`, highlighted where the monitor shows it,
    /// inverted where a client on it is urgent.
    Tag { index: usize, x: i32, w: i32, selected: bool, urgent: bool },
    /// The square marking that a tag is occupied, filled where the selected
    /// client of the selected monitor carries it.
    TagBox { x: i32, y: i32, size: i32, filled: bool, urgent: bool },
    /// The layout symbol.
    Symbol { x: i32, w: i32 },
    /// The title of client `client`, highlighted on the selected monitor.
    Title { x: i32, w: i32, selected: bool, client: usize },
    /// The square marking a floating selected client, filled where it has a
    /// fixed size.
    TitleBox { x: i32, y: i32, size: i32, filled: bool },
    /// The empty title area of a monitor with no selected client.
    Empty { x: i32, w: i32 },
}

/// The metrics the bar is drawn with: the widths of the tag labels, of the
/// status text, of the layout symbol, and the font height.
#[derive(Clone, Copy, Debug)]
pub struct BarMetrics {
    pub tags: [i32; 9],
    pub status: i32,
    pub symbol: i32,
    pub font_h: i32,
}

/// The widths of the tag labels as a sequence.
pub open spec fn tag_widths(bm: BarMetrics) -> Seq<i32> {
    Seq::new(NTAGS as nat, |i: int| bm.tags[i])
}

/// The items of tag `i` on the bar of monitor `m`.
pub open spec fn tag_items(v: WmView, m: int, bm: BarMetrics, i: int) -> Seq<BarItem> {
    let mv = v.mons[m];
    let bit = 1u32 << (i as u32);
    let occ = tags_of(v, mv.clients, false);
    let urg = tags_of(v, mv.clients, true);
    let x = width_sum(tag_widths(bm), i);
    let boxs = tdiv(bm.font_h as int, 9) as i32;
    let boxw = i32w(tdiv(bm.font_h as int, 6) + 2);
    let selsel = m == v.selmon && match mv.sel { Some(s) => v.clients[s as int].tags & bit != 0, None => false };
    seq![BarItem::Tag { index: i as usize, x: x, w: bm.tags[i], selected: v.shown_tags(m) & bit != 0, urgent: urg & bit != 0 }]
        + if occ & bit != 0 {
            seq![BarItem::TagBox { x: i32w(x + boxs), y: boxs, size: boxw, filled: selsel, urgent: urg & bit != 0 }]
        } else {
            Seq::empty()
        }
}

/// The items of the tags from the first to tag `k`, exclusive.
pub open spec fn tags_items(v: WmView, m: int, bm: BarMetrics, k: int) -> Seq<BarItem>
    decreases k,
{
    if k <= 0 { Seq::empty() } else { tags_items(v, m, bm, k - 1) + tag_items(v, m, bm, k - 1) }
}

/// The bar of monitor `m`, in drawing order: the status text on the
/// selected monitor, the tags, the layout symbol, then the title of the
/// selected client (or an empty area) where there is room for more than the
/// bar height.
pub open spec fn bar_items(v: WmView, m: int, bm: BarMetrics) -> Seq<BarItem> {
    let mv = v.mons[m];
    let sw = if m == v.selmon { bm.status } else { 0 };
    let x = width_sum(tag_widths(bm), NTAGS as int);
    let lpad = tdiv(v.lrpad as int, 2);
    let x2 = i32w(x + lpad + (if bm.symbol >= lpad { bm.symbol - lpad } else { 0 }));
    let tw = i32w(i32w(mv.ww - sw) - x2);
    let boxs = tdiv(bm.font_h as int, 9) as i32;
    let boxw = i32w(tdiv(bm.font_h as int, 6) + 2);
    (if m == v.selmon { seq![BarItem::Status { x: i32w(mv.ww - sw), w: sw }] } else { Seq::empty() })
    + tags_items(v, m, bm, NTAGS as int)
    + seq![BarItem::Symbol { x: x, w: bm.symbol }]
    + if tw > v.bh {
        match mv.sel {
            Some(s) => seq![BarItem::Title { x: x2, w: tw, selected: m == v.selmon, client: s }]
                + if v.clients[s as int].isfloating {
                    seq![BarItem::TitleBox { x: i32w(x2 + boxs), y: boxs, size: boxw, filled: v.clients[s as int].isfixed }]
                } else {
                    Seq::empty()
                },
            None => seq![BarItem::Empty { x: x2, w: tw }],
        }
    } else {
        Seq::empty()
    }
}

impl Wm {
    /// The tags of the clients of monitor `m` (only of its urgent clients,
    /// for `urgent_only`), together.
    pub fn bar_tags(&self, m: usize, urgent_only: bool) -> (r: u32)
        requires
            self@.wf(),
            (m as int) < self@.mons.len(),
        ensures
            r == tags_of(self@, self@.mons[m as int].clients, urgent_only),
    {
        let ghost s = self@.mons[m as int].clients;
        proof { assert(self@.mon_ok(m as int)); }
        let n = self.mons[m].clients.len();
        let mut r: u32 = 0;
        let mut i: usize = 0;
        while i < n
            invariant
                self@.wf(),
                (m as int) < self@.mons.len(),
                s == self@.mons[m as int].clients,
                n == s.len(),
                i <= n,
                forall|j: int| 0 <= j < s.len() ==> #[trigger] self@.client_on(s[j] as int, m as int),
                r == tags_of(self@, s.subrange(0, i as int), urgent_only),
            decreases n - i,
        {
            let c = self.mons[m].clients[i];
            proof {
                assert(self@.client_on(s[i as int] as int, m as int));
                assert(s.subrange(0, i as int + 1).drop_last() =~= s.subrange(0, i as int));
            }
            if !urgent_only || self.clients[c].isurgent {
                r = r | self.clients[c].tags;
            }
            i += 1;
        }
        proof { assert(s.subrange(0, n as int) =~= s); }
        r
    }

    /// The windows of all managed clients, monitor by monitor, for the
    /// client list property of the root window.
    pub fn client_windows(&self) -> (r: Vec<u64>)
        requires
            self@.wf(),
        ensures
            r@ == client_windows_from(self@, self@.mons.len() as int),
    {
        let mut r: Vec<u64> = Vec::new();
        let nm = self.mons.len();
        let mut k: usize = 0;
        while k < nm
            invariant
                self@.wf(),
                nm == self@.mons.len(),
                k <= nm,
                r@ == client_windows_from(self@, k as int),
            decreases nm - k,
        {
            let ghost s = self@.mons[k as int].clients;
            let ghost r0 = r@;
            proof { assert(self@.mon_ok(k as int)); }
            let n = self.mons[k].clients.len();
            let mut i: usize = 0;
            while i < n
                invariant
                    self@.wf(),
                    (k as int) < self@.mons.len(),
                    s == self@.mons[k as int].clients,
                    n == s.len(),
                    i <= n,
                    forall|j: int| 0 <= j < s.len() ==> #[trigger] self@.client_on(s[j] as int, k as int),
                    r@ == r0 + s.subrange(0, i as int).map_values(|c: usize| self@.clients[c as int].win),
                decreases n - i,
            {
                let c = self.mons[k].clients[i];
                proof { assert(self@.client_on(s[i as int] as int, k as int)); }
                r.push(self.clients[c].win);
                proof {
                    assert(r@ =~= r0 + s.subrange(0, i as int + 1).map_values(|c: usize| self@.clients[c as int].win));
                }
                i += 1;
            }
            proof {
                assert(s.subrange(0, n as int) =~= s);
            }
            k += 1;
        }
        r
    }
}


impl Wm {
    /// Plans the bar of monitor `m` with the metrics `bm`, and takes the
    /// layout symbol's width as the width of that bar area.
    pub fn drawbar(&mut self, m: usize, bm: &BarMetrics) -> (r: Vec<BarItem>)
        requires
            old(self)@.wf(),
            (m as int) < old(self)@.mons.len(),
            old(self)@.lrpad >= 0,
            bm.symbol >= 0,
        ensures
            final(self)@ == (WmView { blw: bm.symbol, ..old(self)@ }),
            r@ == bar_items(old(self)@, m as int, *bm),
    {
        let ghost v = self@;
        proof { assert(v.mon_ok(m as int)); }
        let mut r: Vec<BarItem> = Vec::new();
        let sm = self.selmon;
        let sw = if m == sm { bm.status } else { 0 };
        let ww = self.mons[m].ww;
        if m == sm {
            r.push(BarItem::Status { x: crate::engine::wrap(ww as i64 - sw as i64), w: sw });
        }
        let ghost r0 = r@;
        let occ = self.bar_tags(m, false);
        let urg = self.bar_tags(m, true);
        let q9 = crate::engine::div_trunc(bm.font_h as i64, 9);
        let boxs = crate::engine::wrap(q9);
        let boxw = crate::engine::wrap(crate::engine::div_trunc(bm.font_h as i64, 6) + 2);
        proof {
            assert(-0x1_0000_0000 < q9 < 0x1_0000_0000);
            assert(boxs as int == tdiv(bm.font_h as int, 9)) by {
                assert(-0x8000_0000 <= tdiv(bm.font_h as int, 9) <= 0x7fff_ffff) by {
                    assert(tdiv(bm.font_h as int, 9) == q9);
                    if bm.font_h >= 0 {
                        assert(bm.font_h as int / 9 <= bm.font_h as int);
                    } else {
                        assert((bm.font_h as int * -1) / 9 <= (bm.font_h as int * -1));
                    }
                }
            }
        }
        let shown = self.mons[m].tagset[self.mons[m].seltags];
        let selsel_tags: Option<u32> = if m == sm {
            match self.mons[m].sel {
                Some(s) => {
                    proof {
                        let j = choose|j: int| 0 <= j < v.mons[m as int].clients.len() && v.mons[m as int].clients[j] == s;
                        assert(v.client_on(v.mons[m as int].clients[j] as int, m as int));
                    }
                    Some(self.clients[s].tags)
                },
                None => None,
            }
        } else {
            None
        };
        let mut x: i32 = 0;
        let mut i: usize = 0;
        proof { assert(r@ =~= r0 + tags_items(v, m as int, *bm, 0)); }
        while i < NTAGS
            invariant
                i <= NTAGS,
                self@ == v,
                v.wf(),
                (m as int) < v.mons.len(),
                occ == tags_of(v, v.mons[m as int].clients, false),
                urg == tags_of(v, v.mons[m as int].clients, true),
                boxs as int == tdiv(bm.font_h as int, 9),
                boxw == crate::engine::i32w(tdiv(bm.font_h as int, 6) + 2),
                shown == v.shown_tags(m as int),
                selsel_tags == (if m == v.selmon { match v.mons[m as int].sel { Some(s) => Some(v.clients[s as int].tags), None => None } } else { None }),
                x == width_sum(tag_widths(*bm), i as int),
                r@ == r0 + tags_items(v, m as int, *bm, i as int),
            decreases NTAGS - i,
        {
            let bit = 1u32 << (i as u32);
            let w = bm.tags[i];
            r.push(BarItem::Tag { index: i, x, w, selected: shown & bit != 0, urgent: urg & bit != 0 });
            if occ & bit != 0 {
                let filled = match selsel_tags { Some(t) => t & bit != 0, None => false };
                r.push(BarItem::TagBox { x: crate::engine::wrap(x as i64 + boxs as i64), y: boxs, size: boxw, filled, urgent: urg & bit != 0 });
            }
            proof {
                assert(r@ =~= r0 + tags_items(v, m as int, *bm, i as int + 1));
                assert(width_sum(tag_widths(*bm), i as int + 1) == crate::engine::i32w(width_sum(tag_widths(*bm), i as int) + bm.tags[i as int]));
            }
            x = crate::engine::wrap(x as i64 + w as i64);
            i += 1;
        }
        r.push(BarItem::Symbol { x, w: bm.symbol });
        let lpad = crate::engine::wrap(crate::engine::div_trunc(self.lrpad as i64, 2));
        proof {
            assert(lpad as int == tdiv(v.lrpad as int, 2)) by {
                assert(v.lrpad as int / 2 <= v.lrpad as int);
            }
        }
        let x2 = crate::engine::wrap(x as i64 + lpad as i64 + if bm.symbol >= lpad { (bm.symbol - lpad) as i64 } else { 0 });
        let tw = crate::engine::wrap(crate::engine::wrap(ww as i64 - sw as i64) as i64 - x2 as i64);
        if tw > self.bh {
            match self.mons[m].sel {
                Some(s) => {
                    proof {
                        let j = choose|j: int| 0 <= j < v.mons[m as int].clients.len() && v.mons[m as int].clients[j] == s;
                        assert(v.client_on(v.mons[m as int].clients[j] as int, m as int));
                    }
                    r.push(BarItem::Title { x: x2, w: tw, selected: m == sm, client: s });
                    if self.clients[s].isfloating {
                        r.push(BarItem::TitleBox { x: crate::engine::wrap(x2 as i64 + boxs as i64), y: boxs, size: boxw, filled: self.clients[s].isfixed });
                    }
                },
                None => { r.push(BarItem::Empty { x: x2, w: tw }); },
            }
        }
        self.blw = bm.symbol;
        proof {
            assert(self@.names =~= v.names);
            assert(self@.mons =~= v.mons);
            assert(r@ =~= bar_items(v, m as int, *bm));
        }
        r
    }
}

} // verus!
