use vstd::prelude::*;

verus! {

/// The version the status bar shows when the root window has no name.
pub const VERSION: &'static str = "6.2";

/// Border width of a managed window, in pixels.
pub const BORDERPX: u32 = 2;
/// Gap between tiled windows, in pixels.
pub const GAPPX: u32 = 8;
/// Distance, in pixels, at which a moved window snaps to a screen edge.
pub const SNAP: u32 = 32;
/// Whether a floating window may be swallowed by its terminal.
pub const SWALLOWFLOATING: i32 = 0;
/// Whether a new monitor shows its bar.
pub const SHOWBAR: i32 = 1;
/// Whether the bar sits at the top of a new monitor.
pub const TOPBAR: i32 = 1;
/// Number of windows in the master area of a new monitor.
pub const NMASTER: i32 = 1;
/// Whether tiled windows honour their size hints.
pub const RESIZEHINTS: i32 = 1;
/// Number of tags.
pub const NTAGS: usize = 9;
/// Bit mask of all tags.
pub const TAGMASK: u32 = 0x1FF;

pub fn borderpx() -> (r: u32)
    ensures r == BORDERPX,
{
    BORDERPX
}

pub fn gappx() -> (r: u32)
    ensures r == GAPPX,
{
    GAPPX
}

pub fn snap() -> (r: u32)
    ensures r == SNAP,
{
    SNAP
}

pub fn nmaster() -> (r: i32)
    ensures r == NMASTER,
{
    NMASTER
}

pub fn showbar() -> (r: i32)
    ensures r == SHOWBAR,
{
    SHOWBAR
}

pub fn topbar() -> (r: i32)
    ensures r == TOPBAR,
{
    TOPBAR
}

pub fn resizehints() -> (r: i32)
    ensures r == RESIZEHINTS,
{
    RESIZEHINTS
}

pub fn swallowfloating() -> (r: i32)
    ensures r == SWALLOWFLOATING,
{
    SWALLOWFLOATING
}

/// The mask of all tags: one bit per tag name.
pub fn tagmask() -> (r: u32)
    ensures
        r == TAGMASK,
{
    let n: u32 = 9;
    assert(((1u32 << 9u32) - 1) == 0x1FFu32) by (bit_vector);
    (1u32 << n) - 1
}

/// The name of tag `k`: its number counted from 1, as one digit.
pub open spec fn tag_name(k: int) -> Seq<char> {
    seq![(49 + k) as char]
}

/// The tag names, left to right.
pub fn tags() -> (r: Vec<&'static str>)
    ensures
        r@.len() == NTAGS,
        forall|k: int| 0 <= k < NTAGS ==> #[trigger] r@[k]@ == tag_name(k),
{
    let mut v: Vec<&'static str> = Vec::new();
    v.push("1");
    v.push("2");
    v.push("3");
    v.push("4");
    v.push("5");
    v.push("6");
    v.push("7");
    v.push("8");
    v.push("9");
    proof {
        reveal_strlit("1");
        reveal_strlit("2");
        reveal_strlit("3");
        reveal_strlit("4");
        reveal_strlit("5");
        reveal_strlit("6");
        reveal_strlit("7");
        reveal_strlit("8");
        reveal_strlit("9");
        assert forall|k: int| 0 <= k < NTAGS implies #[trigger] v@[k]@ == tag_name(k) by {
            assert(v@[k]@ =~= tag_name(k));
        }
    }
    v
}

/// How a layout places the tiled windows of a monitor.
#[derive(Clone, Copy, PartialEq, Eq, Structural, Debug)]
pub enum Arrange {
    /// A master column and a stack column.
    Tile,
    /// Every window fills the monitor's window area.
    Monocle,
}

/// The layouts a monitor can hold: the two of the layout table, and the inert
/// one that shutdown installs so that nothing is arranged while windows go.
#[derive(Clone, Copy, PartialEq, Eq, Structural, Debug)]
pub enum Layout {
    Tile,
    Monocle,
    Inert,
}

/// What a layout does to the tiled windows, if anything.
pub open spec fn spec_layout_arrange(l: Layout) -> Option<Arrange> {
    match l {
        Layout::Tile => Some(Arrange::Tile),
        Layout::Monocle => Some(Arrange::Monocle),
        Layout::Inert => None,
    }
}

pub fn layout_arrange(l: Layout) -> (r: Option<Arrange>)
    ensures
        r == spec_layout_arrange(l),
{
    match l {
        Layout::Tile => Some(Arrange::Tile),
        Layout::Monocle => Some(Arrange::Monocle),
        Layout::Inert => None,
    }
}

/// The symbol a layout shows in the bar, as bytes.
pub open spec fn spec_layout_symbol(l: Layout) -> Seq<u8> {
    match l {
        Layout::Tile => seq![91u8, 93u8, 61u8],
        Layout::Monocle => seq![91u8, 77u8, 93u8],
        Layout::Inert => seq![],
    }
}

pub fn layout_symbol(l: Layout) -> (r: Vec<u8>)
    ensures
        r@ == spec_layout_symbol(l),
{
    let mut v: Vec<u8> = Vec::new();
    match l {
        Layout::Tile => {
            v.push(91u8);
            v.push(93u8);
            v.push(61u8);
        },
        Layout::Monocle => {
            v.push(91u8);
            v.push(77u8);
            v.push(93u8);
        },
        Layout::Inert => {},
    }
    assert(v@ =~= spec_layout_symbol(l));
    v
}

/// The layout table, in order: tiling first.
pub fn layouts() -> (r: Vec<Layout>)
    ensures
        r@ == seq![Layout::Tile, Layout::Monocle],
{
    let mut v: Vec<Layout> = Vec::new();
    v.push(Layout::Tile);
    v.push(Layout::Monocle);
    assert(v@ =~= seq![Layout::Tile, Layout::Monocle]);
    v
}

/// The monocle entry of the layout table.
pub fn monocle_layout() -> (r: Layout)
    ensures
        r == Layout::Monocle,
{
    Layout::Monocle
}

/// A rule that new windows are matched against. A pattern that is present
/// matches where it occurs in the window's class, instance or title.
#[derive(Debug)]
pub struct Rule {
    pub class: Option<Vec<u8>>,
    pub instance: Option<Vec<u8>>,
    pub title: Option<Vec<u8>>,
    pub tags: u32,
    pub isfloating: i32,
    pub isterminal: i32,
    pub noswallow: i32,
    pub monitor: i32,
}

/// A rule as a value.
pub struct RuleView {
    pub class: Option<Seq<u8>>,
    pub instance: Option<Seq<u8>>,
    pub title: Option<Seq<u8>>,
    pub tags: u32,
    pub isfloating: i32,
    pub isterminal: i32,
    pub noswallow: i32,
    pub monitor: i32,
}

pub open spec fn opt_view(o: Option<Vec<u8>>) -> Option<Seq<u8>> {
    match o {
        Some(v) => Some(v@),
        None => None,
    }
}

impl View for Rule {
    type V = RuleView;

    open spec fn view(&self) -> RuleView {
        RuleView {
            class: opt_view(self.class),
            instance: opt_view(self.instance),
            title: opt_view(self.title),
            tags: self.tags,
            isfloating: self.isfloating,
            isterminal: self.isterminal,
            noswallow: self.noswallow,
            monitor: self.monitor,
        }
    }
}

/// A rule that matches by class alone.
pub open spec fn class_rule(class: Seq<u8>, isfloating: i32, isterminal: i32, noswallow: i32) -> RuleView {
    RuleView { class: Some(class), instance: None, title: None, tags: 0, isfloating, isterminal, noswallow, monitor: -1i32 }
}

#[verifier::opaque]
/// The rule table, in the order rules are applied: Gimp floats; the browsers
/// are never swallowed; st is a terminal; the event tester is never
/// swallowed.
pub open spec fn spec_rules() -> Seq<RuleView> {
    seq![
        class_rule(seq![71u8, 105u8, 109u8, 112u8], 1, 0, 0),
        class_rule(seq![102u8, 105u8, 114u8, 101u8, 102u8, 111u8, 120u8], 0, 0, -1i32),
        class_rule(seq![76u8, 105u8, 98u8, 114u8, 101u8, 87u8, 111u8, 108u8, 102u8], 0, 0, -1i32),
        class_rule(seq![67u8, 104u8, 114u8, 111u8, 109u8, 105u8, 117u8, 109u8], 0, 0, -1i32),
        class_rule(seq![83u8, 116u8], 0, 1, 0),
        RuleView {
            class: None,
            instance: None,
            title: Some(seq![69u8, 118u8, 101u8, 110u8, 116u8, 32u8, 84u8, 101u8, 115u8, 116u8, 101u8, 114u8]),
            tags: 0,
            isfloating: 0,
            isterminal: 0,
            noswallow: 1,
            monitor: -1i32,
        },
    ]
}

fn class_only(class: Vec<u8>, isfloating: i32, isterminal: i32, noswallow: i32) -> (r: Rule)
    ensures
        r@ == class_rule(class@, isfloating, isterminal, noswallow),
{
    Rule { class: Some(class), instance: None, title: None, tags: 0, isfloating, isterminal, noswallow, monitor: -1i32 }
}

/// The rule table, in the order rules are applied.
pub fn rules() -> (r: Vec<Rule>)
    ensures
        r@.len() == spec_rules().len(),
        forall|k: int| 0 <= k < r@.len() ==> #[trigger] r@[k]@ == spec_rules()[k],
{
    let mut v: Vec<Rule> = Vec::new();
    v.push(class_only(vec![71u8, 105u8, 109u8, 112u8], 1, 0, 0));
    v.push(class_only(vec![102u8, 105u8, 114u8, 101u8, 102u8, 111u8, 120u8], 0, 0, -1));
    v.push(class_only(vec![76u8, 105u8, 98u8, 114u8, 101u8, 87u8, 111u8, 108u8, 102u8], 0, 0, -1));
    v.push(class_only(vec![67u8, 104u8, 114u8, 111u8, 109u8, 105u8, 117u8, 109u8], 0, 0, -1));
    v.push(class_only(vec![83u8, 116u8], 0, 1, 0));
    let title: Vec<u8> = vec![69u8, 118u8, 101u8, 110u8, 116u8, 32u8, 84u8, 101u8, 115u8, 116u8, 101u8, 114u8];
    v.push(Rule { class: None, instance: None, title: Some(title), tags: 0, isfloating: 0, isterminal: 0, noswallow: 1, monitor: -1 });
    proof {
        reveal(spec_rules);
        assert forall|k: int| 0 <= k < v@.len() implies #[trigger] v@[k]@ == spec_rules()[k] by {
            assert(v@[k]@.class =~~= spec_rules()[k].class);
        }
    }
    v
}

} // verus!
