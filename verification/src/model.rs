use vstd::prelude::*;
use crate::config::{Layout, TAGMASK};

verus! {

/// A bound on the number of clients a monitor holds, so that counts fit the
/// C `int` and `unsigned` the layouts compute with.
pub const MAX_CLIENTS: usize = 0x1000_0000;

/// A width over height ratio as the size hints give it: `num / den`.
#[derive(Clone, Copy, PartialEq, Eq, Structural, Debug)]
pub struct Ratio {
    pub num: i32,
    pub den: i32,
}

/// A managed window. Its title is kept beside it, in `Wm::names`.
#[derive(Clone, Copy, PartialEq, Eq, Structural, Debug)]
pub struct Client {
    /// Whether this slot of the client table holds a managed window.
    pub alive: bool,
    /// Smallest and largest aspect ratio that the window accepts (0 for none).
    pub mina: Ratio,
    pub maxa: Ratio,
    pub x: i32,
    pub y: i32,
    pub w: i32,
    pub h: i32,
    pub oldx: i32,
    pub oldy: i32,
    pub oldw: i32,
    pub oldh: i32,
    pub basew: i32,
    pub baseh: i32,
    pub incw: i32,
    pub inch: i32,
    pub maxw: i32,
    pub maxh: i32,
    pub minw: i32,
    pub minh: i32,
    pub bw: i32,
    pub oldbw: i32,
    pub tags: u32,
    pub isfixed: bool,
    pub isfloating: bool,
    pub isurgent: bool,
    pub neverfocus: bool,
    pub oldstate: bool,
    pub isfullscreen: bool,
    pub isterminal: bool,
    pub noswallow: bool,
    pub pid: i32,
    /// The window of a terminal that this client swallowed, if any.
    pub swallowing: Option<u64>,
    /// Index of the monitor the client is on.
    pub mon: usize,
    pub win: u64,
}

/// A monitor: its geometry, its tag sets, its layouts and its clients in
/// two orders (the client list, and the focus stack).
pub struct Monitor {
    /// The layout symbol shown in the bar, as the bytes of a C string.
    pub ltsymbol: Vec<u8>,
    pub nmaster: i32,
    pub num: i32,
    /// Bar position.
    pub by: i32,
    /// Monitor geometry.
    pub mx: i32,
    pub my: i32,
    pub mw: i32,
    pub mh: i32,
    /// Window area geometry.
    pub wx: i32,
    pub wy: i32,
    pub ww: i32,
    pub wh: i32,
    pub seltags: usize,
    pub sellt: usize,
    pub tagset: [u32; 2],
    pub showbar: bool,
    pub topbar: bool,
    /// Client list, most recently attached first.
    pub clients: Vec<usize>,
    /// The selected client.
    pub sel: Option<usize>,
    /// Focus stack, most recently focused first.
    pub stack: Vec<usize>,
    pub barwin: u64,
    pub lt: [Layout; 2],
}

/// A monitor as a value.
#[verifier::ext_equal]
pub struct MonitorView {
    pub ltsymbol: Seq<u8>,
    pub nmaster: i32,
    pub num: i32,
    pub by: i32,
    pub mx: i32,
    pub my: i32,
    pub mw: i32,
    pub mh: i32,
    pub wx: i32,
    pub wy: i32,
    pub ww: i32,
    pub wh: i32,
    pub seltags: usize,
    pub sellt: usize,
    pub tagset: (u32, u32),
    pub showbar: bool,
    pub topbar: bool,
    pub clients: Seq<usize>,
    pub sel: Option<usize>,
    pub stack: Seq<usize>,
    pub barwin: u64,
    pub lt: (Layout, Layout),
}

/// The first or the second of a pair.
pub open spec fn pick<T>(p: (T, T), i: int) -> T {
    if i == 0 { p.0 } else { p.1 }
}

impl View for Monitor {
    type V = MonitorView;

    open spec fn view(&self) -> MonitorView {
        MonitorView {
            ltsymbol: self.ltsymbol@,
            nmaster: self.nmaster,
            num: self.num,
            by: self.by,
            mx: self.mx,
            my: self.my,
            mw: self.mw,
            mh: self.mh,
            wx: self.wx,
            wy: self.wy,
            ww: self.ww,
            wh: self.wh,
            seltags: self.seltags,
            sellt: self.sellt,
            tagset: (self.tagset[0], self.tagset[1]),
            showbar: self.showbar,
            topbar: self.topbar,
            clients: self.clients@,
            sel: self.sel,
            stack: self.stack@,
            barwin: self.barwin,
            lt: (self.lt[0], self.lt[1]),
        }
    }
}

/// The state of the window manager as a value.
#[verifier::ext_equal]
pub struct WmView {
    pub stext: Seq<u8>,
    pub sw: i32,
    pub sh: i32,
    pub bh: i32,
    pub blw: i32,
    pub lrpad: i32,
    pub numlockmask: u32,
    pub running: bool,
    pub clients: Seq<Client>,
    pub names: Seq<Seq<u8>>,
    pub mons: Seq<MonitorView>,
    pub selmon: usize,
    pub root: u64,
    pub motion_mon: Option<usize>,
}

/// The state of the window manager.
pub struct Wm {
    /// Status text, as the bytes of a C string.
    pub stext: Vec<u8>,
    /// Screen size.
    pub sw: i32,
    pub sh: i32,
    /// Bar height.
    pub bh: i32,
    /// Width of the layout symbol in the bar.
    pub blw: i32,
    /// Sum of left and right padding of bar text.
    pub lrpad: i32,
    pub numlockmask: u32,
    pub running: bool,
    /// The client table; monitors refer to clients by their index here.
    pub clients: Vec<Client>,
    /// The title of each client of the table, as the bytes of a C string.
    pub names: Vec<Vec<u8>>,
    pub mons: Vec<Monitor>,
    pub selmon: usize,
    pub root: u64,
    /// The monitor the pointer was last seen on, by index.
    pub motion_mon: Option<usize>,
}

impl View for Wm {
    type V = WmView;

    open spec fn view(&self) -> WmView {
        WmView {
            stext: self.stext@,
            sw: self.sw,
            sh: self.sh,
            bh: self.bh,
            blw: self.blw,
            lrpad: self.lrpad,
            numlockmask: self.numlockmask,
            running: self.running,
            clients: self.clients@,
            names: self.names@.map_values(|n: Vec<u8>| n@),
            mons: self.mons@.map_values(|m: Monitor| m@),
            selmon: self.selmon,
            root: self.root,
            motion_mon: self.motion_mon,
        }
    }
}

impl WmView {
    /// `id` names a managed client that sits on monitor `m`.
    pub open spec fn client_on(self, id: int, m: int) -> bool {
        &&& 0 <= id < self.clients.len()
        &&& self.clients[id].alive
        &&& self.clients[id].mon == m
    }

    /// A tag set that names at least one tag and no other bits.
    pub open spec fn tagset_ok(t: u32) -> bool {
        t != 0 && t & !TAGMASK == 0
    }

    /// Monitor `m` is well formed: each list names distinct clients of this
    /// monitor, both lists name the same clients, the selection is one of them.
    pub open spec fn mon_ok(self, m: int) -> bool {
        let mon = self.mons[m];
        &&& mon.clients.no_duplicates()
        &&& mon.stack.no_duplicates()
        &&& mon.clients.len() < MAX_CLIENTS
        &&& (forall|k: int| 0 <= k < mon.clients.len() ==> #[trigger] self.client_on(mon.clients[k] as int, m))
        &&& (forall|k: int| 0 <= k < mon.stack.len() ==> #[trigger] self.client_on(mon.stack[k] as int, m))
        &&& (forall|id: usize| #[trigger] mon.clients.contains(id) <==> mon.stack.contains(id))
        &&& (mon.sel matches Some(s) ==> mon.clients.contains(s))
        &&& mon.seltags < 2
        &&& mon.sellt < 2
        &&& Self::tagset_ok(mon.tagset.0)
        &&& Self::tagset_ok(mon.tagset.1)
    }

    /// The state is well formed: there is a monitor, the selected one exists,
    /// each monitor is well formed, and each client has a title.
    pub open spec fn wf(self) -> bool {
        &&& self.mons.len() > 0
        &&& self.selmon < self.mons.len()
        &&& self.names.len() == self.clients.len()
        &&& (forall|m: int| 0 <= m < self.mons.len() ==> #[trigger] self.mon_ok(m))
        &&& (forall|id: int| 0 <= id < self.clients.len() && (#[trigger] self.clients[id]).alive ==>
                self.clients[id].mon < self.mons.len()
                && self.mons[self.clients[id].mon as int].clients.contains(id as usize)
                && Self::tagset_ok(self.clients[id].tags))
    }

    /// This state with monitor `m` replaced.
    pub open spec fn set_mon(self, m: int, mv: MonitorView) -> WmView {
        WmView { mons: self.mons.update(m, mv), ..self }
    }

    /// This state with client `id` replaced.
    pub open spec fn set_client(self, id: int, c: Client) -> WmView {
        WmView { clients: self.clients.update(id, c), ..self }
    }

    /// The first client of `s` that is visible.
    pub open spec fn first_visible(self, s: Seq<usize>) -> Option<usize>
        decreases s.len(),
    {
        if s.len() == 0 {
            None
        } else if self.visible(s[0] as int) {
            Some(s[0])
        } else {
            self.first_visible(s.drop_first())
        }
    }

    /// The tags that monitor `m` shows.
    pub open spec fn shown_tags(self, m: int) -> u32 {
        pick(self.mons[m].tagset, self.mons[m].seltags as int)
    }

    /// The slots of the managed clients.
    pub open spec fn managed_clients(self) -> Set<usize> {
        Set::new(|id: usize| (id as int) < self.clients.len() && self.clients[id as int].alive)
    }

    /// Client `id` carries a tag that its monitor shows.
    pub open spec fn visible(self, id: int) -> bool {
        self.clients[id].tags & self.shown_tags(self.clients[id].mon as int) != 0
    }
}

} // verus!
