use dwm::commands::togglefloating;
use dwm::drag::motion_due;
use dwm::engine::{Effect, FloatQuery};
use dwm::geom::{Geom, Screens};
use dwm::hints::SizeHints;
use dwm::manage::{manage, NewWindow};
use dwm::model::Wm;

fn answer(q: FloatQuery) -> (i32, i32) {
    match q {
        FloatQuery::Aspect { w, h, .. } => (w, h),
        FloatQuery::MasterWidth { avail, .. } => ((avail as f32 * 0.55f32) as i32, 0),
    }
}

fn window(win: u64) -> NewWindow {
    NewWindow {
        win,
        x: 10,
        y: 10,
        width: 300,
        height: 200,
        border_width: 1,
        pid: 0,
        ancestry: Vec::new(),
        title: b"term".to_vec(),
        transient: None,
        class: None,
        instance: None,
        fullscreen: false,
        dialog: false,
        size: SizeHints { base: None, min: None, inc: None, max: None, aspect: None },
        wmhints: None,
    }
}

fn two_clients(sw: i32, screens: &Screens) -> Wm {
    let mut wm = Wm::new(1, sw, 1080, 20, 10);
    let mut fx: Vec<Effect> = Vec::new();
    assert!(wm.updategeom(screens, None, &mut fx));
    manage(&mut wm, &window(100), &answer, &mut fx);
    manage(&mut wm, &window(101), &answer, &mut fx);
    wm
}

fn geometry(wm: &Wm, c: usize) -> (i32, i32, i32, i32) {
    let cl = &wm.clients[c];
    (cl.x, cl.y, cl.w, cl.h)
}

#[test]
fn motion_is_throttled() {
    assert!(!motion_due(100, 90));
    assert!(!motion_due(100, 84));
    assert!(motion_due(100, 83));
    assert!(!motion_due(5, 10));
}

#[test]
fn drag_start_answers_selected_client() {
    let wm = two_clients(1920, &Screens::Single);
    let mut fx: Vec<Effect> = Vec::new();
    assert_eq!(wm.drag_start(&mut fx), Some((1, 0, 20)));
    let empty = Wm::new(1, 1920, 1080, 20, 10);
    let mut fx2: Vec<Effect> = Vec::new();
    let mut empty = empty;
    assert!(empty.updategeom(&Screens::Single, None, &mut fx2));
    fx2.clear();
    assert_eq!(empty.drag_start(&mut fx2), None);
    assert!(fx2.is_empty());
}

#[test]
fn floating_client_follows_pointer() {
    let mut wm = two_clients(1920, &Screens::Single);
    let mut fx: Vec<Effect> = Vec::new();
    togglefloating(&mut wm, &answer, &mut fx);
    assert_eq!(geometry(&wm, 1), (0, 20, 1047, 1056));
    wm.movemouse_motion(1, 0, 20, 500, 500, 700, 600, &answer, &mut fx);
    assert_eq!(geometry(&wm, 1), (200, 120, 1047, 1056));
}

#[test]
fn moved_client_snaps_to_edges() {
    let mut wm = two_clients(1920, &Screens::Single);
    let mut fx: Vec<Effect> = Vec::new();
    togglefloating(&mut wm, &answer, &mut fx);
    // 11 pixels short of the right edge, 5 below the top of the window area
    wm.movemouse_motion(1, 0, 20, 0, 0, 880, 5, &answer, &mut fx);
    assert_eq!(geometry(&wm, 1), (869, 20, 1047, 1056));
}

#[test]
fn small_move_keeps_tiled_client() {
    let mut wm = two_clients(1920, &Screens::Single);
    let mut fx: Vec<Effect> = Vec::new();
    wm.movemouse_motion(1, 0, 20, 100, 100, 110, 100, &answer, &mut fx);
    assert!(!wm.clients[1].isfloating);
    assert_eq!(geometry(&wm, 1), (0, 20, 1047, 1056));
    assert!(fx.is_empty());
}

#[test]
fn pulled_client_starts_floating() {
    let mut wm = two_clients(1920, &Screens::Single);
    let mut fx: Vec<Effect> = Vec::new();
    wm.movemouse_motion(1, 0, 20, 100, 100, 300, 100, &answer, &mut fx);
    assert!(wm.clients[1].isfloating);
    assert_eq!(geometry(&wm, 1), (200, 20, 1047, 1056));
    // the other client is alone in the tiled area
    assert_eq!(geometry(&wm, 0), (0, 20, 1920, 1060));
}

#[test]
fn resized_client_reaches_pointer() {
    let mut wm = two_clients(1920, &Screens::Single);
    let mut fx: Vec<Effect> = Vec::new();
    togglefloating(&mut wm, &answer, &mut fx);
    wm.resizemouse_motion(1, 0, 20, 600, 500, &answer, &mut fx);
    assert_eq!(geometry(&wm, 1), (0, 20, 597, 477));
    // the size never drops under the bar height
    wm.resizemouse_motion(1, 0, 20, 0, 0, &answer, &mut fx);
    assert_eq!(geometry(&wm, 1), (0, 20, 20, 20));
}

#[test]
fn drag_end_sends_client_to_other_monitor() {
    let screens = Screens::Multi(vec![
        Geom { x: 0, y: 0, w: 1920, h: 1080 },
        Geom { x: 1920, y: 0, w: 1280, h: 1024 },
    ]);
    let mut wm = two_clients(3200, &screens);
    let mut fx: Vec<Effect> = Vec::new();
    togglefloating(&mut wm, &answer, &mut fx);
    wm.movemouse_motion(1, 0, 20, 0, 0, 2000, 0, &answer, &mut fx);
    assert_eq!(geometry(&wm, 1), (2000, 20, 1047, 1056));
    wm.drag_end(1, &answer, &mut fx);
    assert_eq!(wm.clients[1].mon, 1);
    assert_eq!(wm.selmon, 1);
    assert_eq!(wm.mons[1].sel, Some(1));
    assert_eq!(wm.mons[0].clients, vec![0]);
    assert_eq!(wm.mons[1].clients, vec![1]);
}

#[test]
fn drag_end_on_same_monitor_changes_nothing() {
    let mut wm = two_clients(1920, &Screens::Single);
    let mut fx: Vec<Effect> = Vec::new();
    wm.drag_end(1, &answer, &mut fx);
    assert_eq!(wm.selmon, 0);
    assert_eq!(wm.clients[1].mon, 0);
    assert!(fx.is_empty());
}
