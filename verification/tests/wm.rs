use dwm::commands::{incnmaster, setlayout, togglebar, togglefloating};
use dwm::config::Layout;
use dwm::engine::{Effect, FloatQuery};
use dwm::events::{maprequest, scan, ClientMsg, ConfigRequest, PropertyChange, ScanInfo};
use dwm::geom::{Geom, Screens};
use dwm::hints::SizeHints;
use dwm::manage::{manage, NewWindow};
use dwm::model::Wm;
use dwm::stack::{focusstack, movestack, zoom};
use dwm::tags::{tag, toggletag, toggleview, view};
use dwm::transfer::tagmon;

fn answer(q: FloatQuery) -> (i32, i32) {
    match q {
        FloatQuery::Aspect { w, h, .. } => (w, h),
        FloatQuery::MasterWidth { avail, .. } => ((avail as f32 * 0.55f32) as i32, 0),
    }
}

fn no_hints() -> SizeHints {
    SizeHints { base: None, min: None, inc: None, max: None, aspect: None }
}

fn window(win: u64) -> NewWindow {
    NewWindow {
        win,
        x: 10,
        y: 10,
        width: 300,
        height: 200,
        border_width: 1,
        pid: 0,
        ancestry: Vec::new(),
        title: b"term".to_vec(),
        transient: None,
        class: None,
        instance: None,
        fullscreen: false,
        dialog: false,
        size: no_hints(),
        wmhints: None,
    }
}

fn screen() -> Wm {
    let mut wm = Wm::new(1, 1920, 1080, 20, 10);
    let mut fx: Vec<Effect> = Vec::new();
    assert!(wm.updategeom(&Screens::Single, None, &mut fx));
    wm
}

fn with_windows(n: u64) -> Wm {
    let mut wm = screen();
    let mut fx: Vec<Effect> = Vec::new();
    for w in 0..n {
        manage(&mut wm, &window(100 + w), &answer, &mut fx);
    }
    wm
}

fn geometry(wm: &Wm, c: usize) -> (i32, i32, i32, i32) {
    let cl = &wm.clients[c];
    (cl.x, cl.y, cl.w, cl.h)
}

#[test]
fn single_screen_monitor() {
    let wm = screen();
    let m = &wm.mons[0];
    assert_eq!((m.mx, m.my, m.mw, m.mh), (0, 0, 1920, 1080));
    assert_eq!((m.wx, m.wy, m.ww, m.wh), (0, 20, 1920, 1060));
    assert_eq!(m.by, 0);
    assert_eq!(m.ltsymbol, b"[]=".to_vec());
}

#[test]
fn one_client_fills_window_area() {
    let wm = with_windows(1);
    assert_eq!(geometry(&wm, 0), (0, 20, 1920, 1060));
    assert_eq!(wm.clients[0].bw, 2);
    assert_eq!(wm.mons[0].sel, Some(0));
    assert_eq!(wm.mons[0].clients, vec![0]);
    assert_eq!(wm.names[0], b"term".to_vec());
}

#[test]
fn master_and_stack() {
    let wm = with_windows(2);
    // the newest client is the master
    assert_eq!(wm.mons[0].clients, vec![1, 0]);
    assert_eq!(geometry(&wm, 1), (0, 20, 1047, 1056));
    assert_eq!(geometry(&wm, 0), (1059, 20, 857, 1056));
    assert_eq!(wm.mons[0].sel, Some(1));
    assert_eq!(wm.mons[0].stack, vec![1, 0]);
}

#[test]
fn managed_window_effects() {
    let mut wm = screen();
    let mut fx: Vec<Effect> = Vec::new();
    manage(&mut wm, &window(7), &answer, &mut fx);
    assert!(fx.contains(&Effect::AppendClientList { win: 7 }));
    assert!(fx.contains(&Effect::MapWindow { win: 7 }));
    assert!(fx.contains(&Effect::ConfigureBorder { win: 7, bw: 2 }));
    assert!(fx.contains(&Effect::SetFocus { win: 7, neverfocus: false }));
}

#[test]
fn view_and_back() {
    let mut wm = with_windows(1);
    let mut fx: Vec<Effect> = Vec::new();
    view(&mut wm, 4, &answer, &mut fx);
    let m = &wm.mons[0];
    assert_eq!(m.tagset[m.seltags], 4);
    assert_eq!(m.sel, None);
    view(&mut wm, 0, &answer, &mut fx);
    let m = &wm.mons[0];
    assert_eq!(m.tagset[m.seltags], 1);
    assert_eq!(m.sel, Some(0));
}

#[test]
fn toggleview_twice_restores() {
    let mut wm = with_windows(1);
    let mut fx: Vec<Effect> = Vec::new();
    toggleview(&mut wm, 2, &answer, &mut fx);
    assert_eq!(wm.mons[0].tagset[wm.mons[0].seltags], 3);
    toggleview(&mut wm, 2, &answer, &mut fx);
    assert_eq!(wm.mons[0].tagset[wm.mons[0].seltags], 1);
    // the last shown tag cannot be toggled away
    toggleview(&mut wm, 1, &answer, &mut fx);
    assert_eq!(wm.mons[0].tagset[wm.mons[0].seltags], 1);
}

#[test]
fn tag_moves_client_out_of_view() {
    let mut wm = with_windows(2);
    let mut fx: Vec<Effect> = Vec::new();
    tag(&mut wm, 2, &answer, &mut fx);
    assert_eq!(wm.clients[1].tags, 2);
    assert_eq!(wm.mons[0].sel, Some(0));
    // alone on the shown tag, the other client fills the area, borderless
    assert_eq!(geometry(&wm, 0), (0, 20, 1920, 1060));
    toggletag(&mut wm, 2, &answer, &mut fx);
    assert_eq!(wm.clients[0].tags, 3);
    toggletag(&mut wm, 2, &answer, &mut fx);
    assert_eq!(wm.clients[0].tags, 1);
}

#[test]
fn focusstack_cycles() {
    let mut wm = with_windows(3);
    let mut fx: Vec<Effect> = Vec::new();
    assert_eq!(wm.mons[0].clients, vec![2, 1, 0]);
    focusstack(&mut wm, 1, &mut fx);
    assert_eq!(wm.mons[0].sel, Some(1));
    focusstack(&mut wm, 1, &mut fx);
    assert_eq!(wm.mons[0].sel, Some(0));
    focusstack(&mut wm, 1, &mut fx);
    assert_eq!(wm.mons[0].sel, Some(2));
    focusstack(&mut wm, -1, &mut fx);
    assert_eq!(wm.mons[0].sel, Some(0));
}

#[test]
fn movestack_and_back() {
    let mut wm = with_windows(3);
    let mut fx: Vec<Effect> = Vec::new();
    movestack(&mut wm, 1, &answer, &mut fx);
    assert_eq!(wm.mons[0].clients, vec![1, 2, 0]);
    movestack(&mut wm, -1, &answer, &mut fx);
    assert_eq!(wm.mons[0].clients, vec![2, 1, 0]);
}

#[test]
fn zoom_makes_master() {
    let mut wm = with_windows(2);
    let mut fx: Vec<Effect> = Vec::new();
    focusstack(&mut wm, 1, &mut fx);
    assert_eq!(wm.mons[0].sel, Some(0));
    zoom(&mut wm, &answer, &mut fx);
    assert_eq!(wm.mons[0].clients, vec![0, 1]);
    assert_eq!(geometry(&wm, 0), (0, 20, 1047, 1056));
}

#[test]
fn togglefloating_twice() {
    let mut wm = with_windows(2);
    let mut fx: Vec<Effect> = Vec::new();
    togglefloating(&mut wm, &answer, &mut fx);
    assert!(wm.clients[1].isfloating);
    assert_eq!(geometry(&wm, 0), (0, 20, 1920, 1060));
    togglefloating(&mut wm, &answer, &mut fx);
    assert!(!wm.clients[1].isfloating);
    assert_eq!(geometry(&wm, 1), (0, 20, 1047, 1056));
}

#[test]
fn monocle_layout_fills_and_counts() {
    let mut wm = with_windows(2);
    let mut fx: Vec<Effect> = Vec::new();
    setlayout(&mut wm, Some(Layout::Monocle), &answer, &mut fx);
    assert_eq!(wm.mons[0].ltsymbol, b"[2]".to_vec());
    assert_eq!(geometry(&wm, 0), (0, 20, 1920, 1060));
    assert_eq!(geometry(&wm, 1), (0, 20, 1920, 1060));
    // no layout given: back to the former one
    setlayout(&mut wm, None, &answer, &mut fx);
    assert_eq!(wm.mons[0].ltsymbol, b"[]=".to_vec());
}

#[test]
fn incnmaster_stacks_masters() {
    let mut wm = with_windows(2);
    let mut fx: Vec<Effect> = Vec::new();
    incnmaster(&mut wm, 1, &answer, &mut fx);
    assert_eq!(wm.mons[0].nmaster, 2);
    // both masters share the height: (1060 - 8) / 2 = 526
    assert_eq!(geometry(&wm, 1), (0, 20, 1916, 522));
    assert_eq!(geometry(&wm, 0), (0, 554, 1916, 522));
    incnmaster(&mut wm, -5, &answer, &mut fx);
    assert_eq!(wm.mons[0].nmaster, 0);
}

#[test]
fn togglebar_hides_bar() {
    let mut wm = with_windows(1);
    let mut fx: Vec<Effect> = Vec::new();
    togglebar(&mut wm, &answer, &mut fx);
    let m = &wm.mons[0];
    assert!(!m.showbar);
    assert_eq!((m.wy, m.wh, m.by), (0, 1080, -20));
    assert_eq!(geometry(&wm, 0), (0, 0, 1920, 1080));
}

#[test]
fn killclient_closes_selected() {
    let wm = with_windows(1);
    let mut fx: Vec<Effect> = Vec::new();
    wm.killclient(&mut fx);
    assert_eq!(fx, vec![Effect::Close { win: 100 }]);
    let empty = screen();
    let mut fx2: Vec<Effect> = Vec::new();
    empty.killclient(&mut fx2);
    assert!(fx2.is_empty());
}

#[test]
fn unmanage_forgets_client() {
    let mut wm = with_windows(2);
    let mut fx: Vec<Effect> = Vec::new();
    wm.unmanage(1, true, &answer, &mut fx);
    assert!(!wm.clients[1].alive);
    assert_eq!(wm.mons[0].clients, vec![0]);
    assert_eq!(wm.mons[0].stack, vec![0]);
    assert_eq!(wm.mons[0].sel, Some(0));
    assert_eq!(geometry(&wm, 0), (0, 20, 1920, 1060));
    assert_eq!(wm.wintoclient(101), None);
    assert_eq!(wm.wintoclient(100), Some(0));
}

#[test]
fn destroyed_window_is_unmanaged() {
    let mut wm = with_windows(2);
    let mut fx: Vec<Effect> = Vec::new();
    wm.destroynotify(100, &answer, &mut fx);
    assert!(!wm.clients[0].alive);
    assert_eq!(wm.mons[0].clients, vec![1]);
}

#[test]
fn fullscreen_request() {
    let mut wm = with_windows(2);
    let mut fx: Vec<Effect> = Vec::new();
    wm.clientmessage(101, ClientMsg::WmState { action: 1, fullscreen: true }, &answer, &mut fx);
    assert!(wm.clients[1].isfullscreen);
    assert_eq!(geometry(&wm, 1), (0, 0, 1920, 1080));
    assert_eq!(wm.clients[1].bw, 0);
    wm.clientmessage(101, ClientMsg::WmState { action: 2, fullscreen: true }, &answer, &mut fx);
    assert!(!wm.clients[1].isfullscreen);
    assert_eq!(wm.clients[1].bw, 2);
    assert_eq!(geometry(&wm, 1), (0, 20, 1047, 1056));
}

#[test]
fn activation_marks_urgent() {
    let mut wm = with_windows(2);
    let mut fx: Vec<Effect> = Vec::new();
    wm.clientmessage(100, ClientMsg::ActiveWindow, &answer, &mut fx);
    assert!(wm.clients[0].isurgent);
    // the selected client is not marked
    wm.clientmessage(101, ClientMsg::ActiveWindow, &answer, &mut fx);
    assert!(!wm.clients[1].isurgent);
}

#[test]
fn root_name_is_status() {
    let mut wm = with_windows(1);
    let mut fx: Vec<Effect> = Vec::new();
    wm.propertynotify(1, false, PropertyChange::Name { wm_name: true, text: Some(b"12:00".to_vec()) }, &answer, &mut fx);
    assert_eq!(wm.stext, b"12:00".to_vec());
    wm.propertynotify(1, false, PropertyChange::Name { wm_name: true, text: None }, &answer, &mut fx);
    assert_eq!(wm.stext, b"dwm-6.2".to_vec());
}

#[test]
fn client_name_is_title() {
    let mut wm = with_windows(1);
    let mut fx: Vec<Effect> = Vec::new();
    wm.propertynotify(100, false, PropertyChange::Name { wm_name: false, text: Some(b"vim".to_vec()) }, &answer, &mut fx);
    assert_eq!(wm.names[0], b"vim".to_vec());
    wm.propertynotify(100, false, PropertyChange::Name { wm_name: false, text: Some(Vec::new()) }, &answer, &mut fx);
    assert_eq!(wm.names[0], b"broken".to_vec());
}

#[test]
fn rules_float_gimp() {
    let mut wm = screen();
    let mut fx: Vec<Effect> = Vec::new();
    let mut nw = window(200);
    nw.class = Some(b"Gimp".to_vec());
    manage(&mut wm, &nw, &answer, &mut fx);
    assert!(wm.clients[0].isfloating);
    assert_eq!(wm.clients[0].tags, 1);
}

#[test]
fn terminal_swallows_child() {
    let mut wm = screen();
    let mut fx: Vec<Effect> = Vec::new();
    let mut term = window(300);
    term.class = Some(b"St".to_vec());
    term.pid = 40;
    term.ancestry = vec![40, 1];
    manage(&mut wm, &term, &answer, &mut fx);
    assert!(wm.clients[0].isterminal);
    let mut child = window(301);
    child.pid = 41;
    child.ancestry = vec![41, 40, 1];
    manage(&mut wm, &child, &answer, &mut fx);
    // the terminal's slot now shows the child's window
    assert_eq!(wm.clients[0].win, 301);
    assert_eq!(wm.clients[0].swallowing, Some(300));
    assert!(!wm.clients[1].alive);
    assert_eq!(wm.mons[0].clients, vec![0]);
    assert_eq!(wm.wintoclient(301), Some(0));
    assert_eq!(wm.swallowingclient(300), Some(0));
    // when the child goes, the terminal comes back
    wm.unmanage(0, true, &answer, &mut fx);
    assert_eq!(wm.clients[0].win, 300);
    assert_eq!(wm.clients[0].swallowing, None);
    assert!(wm.clients[0].alive);
}

#[test]
fn maprequest_skips_override_redirect() {
    let mut wm = screen();
    let mut fx: Vec<Effect> = Vec::new();
    maprequest(&mut wm, &window(5), true, true, &answer, &mut fx);
    assert!(wm.clients.is_empty());
    assert!(fx.is_empty());
    maprequest(&mut wm, &window(5), true, false, &answer, &mut fx);
    assert_eq!(wm.clients.len(), 1);
    // a window already managed is left alone
    maprequest(&mut wm, &window(5), true, false, &answer, &mut fx);
    assert_eq!(wm.clients.len(), 1);
}

#[test]
fn configure_request_of_unmanaged_window() {
    let mut wm = screen();
    let mut fx: Vec<Effect> = Vec::new();
    let r = ConfigRequest {
        window: 77,
        value_mask: 15,
        x: 1,
        y: 2,
        width: 3,
        height: 4,
        border_width: 0,
        above: 0,
        detail: 0,
    };
    wm.configurerequest(r, &mut fx);
    assert_eq!(fx, vec![Effect::ConfigureRaw { request: r }, Effect::Sync]);
}

#[test]
fn scan_order() {
    let normal = ScanInfo { attrs_ok: true, override_redirect: false, transient: false, viewable: true, iconic: false };
    let transient = ScanInfo { transient: true, ..normal };
    let hidden = ScanInfo { viewable: false, ..normal };
    let popup = ScanInfo { override_redirect: true, ..normal };
    let r = scan(&[transient, normal, hidden, popup, normal]);
    assert_eq!(r, vec![1, 4, 0]);
}

#[test]
fn two_screens_and_tagmon() {
    let mut wm = with_windows(2);
    let mut fx: Vec<Effect> = Vec::new();
    let screens = Screens::Multi(vec![
        Geom { x: 0, y: 0, w: 1920, h: 1080 },
        Geom { x: 1920, y: 0, w: 1280, h: 1024 },
        Geom { x: 0, y: 0, w: 1920, h: 1080 },
    ]);
    assert!(wm.updategeom(&screens, Some((10, 10)), &mut fx));
    assert_eq!(wm.mons.len(), 2);
    assert_eq!((wm.mons[1].mx, wm.mons[1].mw, wm.mons[1].num), (1920, 1280, 1));
    assert_eq!(wm.selmon, 0);
    tagmon(&mut wm, 1, &answer, &mut fx);
    assert_eq!(wm.clients[1].mon, 1);
    assert_eq!(wm.mons[1].clients, vec![1]);
    assert_eq!(wm.mons[0].clients, vec![0]);
    assert_eq!(wm.clients[1].tags, 1);
    assert_eq!(wm.recttomon(2000, 10, 50, 50), 1);
    // back to one screen: the second monitor's clients come to the first
    let one = Screens::Multi(vec![Geom { x: 0, y: 0, w: 1920, h: 1080 }]);
    let mut fx2: Vec<Effect> = Vec::new();
    assert!(wm.updategeom(&one, Some((10, 10)), &mut fx2));
    assert_eq!(wm.mons.len(), 1);
    assert_eq!(wm.clients[1].mon, 0);
    assert!(fx2.contains(&Effect::DestroyBar { win: 0 }));
}

#[test]
fn dirtomon_wraps() {
    let mut wm = screen();
    let mut fx: Vec<Effect> = Vec::new();
    let screens = Screens::Multi(vec![
        Geom { x: 0, y: 0, w: 800, h: 600 },
        Geom { x: 800, y: 0, w: 800, h: 600 },
        Geom { x: 1600, y: 0, w: 800, h: 600 },
    ]);
    wm.updategeom(&screens, None, &mut fx);
    assert_eq!(wm.dirtomon(1), 1);
    assert_eq!(wm.dirtomon(-1), 2);
}
