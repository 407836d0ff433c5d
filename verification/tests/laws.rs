use dwm::commands::togglefloating;
use dwm::engine::{Effect, FloatQuery};
use dwm::geom::Screens;
use dwm::hints::SizeHints;
use dwm::manage::{manage, NewWindow};
use dwm::model::Wm;
use dwm::stack::{focusstack, movestack};
use dwm::utf8::utf8decode;

fn answer(q: FloatQuery) -> (i32, i32) {
    match q {
        FloatQuery::Aspect { w, h, .. } => (w, h),
        FloatQuery::MasterWidth { avail, .. } => ((avail as f32 * 0.55f32) as i32, 0),
    }
}

fn window(win: u64) -> NewWindow {
    NewWindow {
        win,
        x: 10,
        y: 10,
        width: 300,
        height: 200,
        border_width: 1,
        pid: 0,
        ancestry: Vec::new(),
        title: b"term".to_vec(),
        transient: None,
        class: None,
        instance: None,
        fullscreen: false,
        dialog: false,
        size: SizeHints { base: None, min: None, inc: None, max: None, aspect: None },
        wmhints: None,
    }
}

fn with_windows(n: u64) -> Wm {
    let mut wm = Wm::new(1, 1920, 1080, 20, 10);
    let mut fx: Vec<Effect> = Vec::new();
    assert!(wm.updategeom(&Screens::Single, None, &mut fx));
    for w in 0..n {
        manage(&mut wm, &window(100 + w), &answer, &mut fx);
    }
    wm
}

fn managed_count(wm: &Wm) -> usize {
    wm.clients.iter().filter(|c| c.alive).count()
}

#[test]
fn decoding_inverts_encoding() {
    let samples: [u32; 12] = [0, 0x41, 0x7F, 0x80, 0xE9, 0x7FF, 0x800, 0x20AC, 0xD7FF, 0xE000, 0x10000, 0x10FFFF];
    for &c in samples.iter() {
        let ch = char::from_u32(c).unwrap();
        let mut buf = [0u8; 4];
        let enc = ch.encode_utf8(&mut buf).as_bytes().to_vec();
        let mut text: Vec<i8> = enc.iter().map(|&b| b as i8).collect();
        text.push(0);
        let mut cp: i64 = 0;
        let n = utf8decode(&text, &mut cp, 4);
        assert_eq!((n, cp), (enc.len(), c as i64));
    }
}

#[test]
fn movestack_down_then_up_restores_order() {
    let mut wm = with_windows(3);
    let mut fx: Vec<Effect> = Vec::new();
    assert_eq!(wm.mons[0].clients, vec![2, 1, 0]);
    assert_eq!(wm.mons[0].sel, Some(2));
    movestack(&mut wm, 1, &answer, &mut fx);
    assert_eq!(wm.mons[0].clients, vec![1, 2, 0]);
    movestack(&mut wm, -1, &answer, &mut fx);
    assert_eq!(wm.mons[0].clients, vec![2, 1, 0]);
    assert_eq!(wm.mons[0].sel, Some(2));
}

#[test]
fn movestack_round_the_list_and_back() {
    let mut wm = with_windows(3);
    let mut fx: Vec<Effect> = Vec::new();
    focusstack(&mut wm, -1, &mut fx);
    assert_eq!(wm.mons[0].sel, Some(0));
    // the last client moves down round to the first place, and back
    movestack(&mut wm, 1, &answer, &mut fx);
    assert_eq!(wm.mons[0].clients, vec![0, 1, 2]);
    movestack(&mut wm, -1, &answer, &mut fx);
    assert_eq!(wm.mons[0].clients, vec![2, 1, 0]);
    assert_eq!(wm.mons[0].sel, Some(0));
}

#[test]
fn focusstack_forward_then_back() {
    let mut wm = with_windows(3);
    let mut fx: Vec<Effect> = Vec::new();
    focusstack(&mut wm, 1, &mut fx);
    assert_eq!(wm.mons[0].sel, Some(1));
    focusstack(&mut wm, -1, &mut fx);
    assert_eq!(wm.mons[0].sel, Some(2));
    assert_eq!(wm.mons[0].clients, vec![2, 1, 0]);
    // round the list: from the last client forwards to the first, and back
    focusstack(&mut wm, -1, &mut fx);
    assert_eq!(wm.mons[0].sel, Some(0));
    focusstack(&mut wm, 1, &mut fx);
    assert_eq!(wm.mons[0].sel, Some(2));
    focusstack(&mut wm, -1, &mut fx);
    assert_eq!(wm.mons[0].sel, Some(0));
}

#[test]
fn fullscreen_on_then_off_restores_floating_client() {
    let mut wm = with_windows(2);
    let mut fx: Vec<Effect> = Vec::new();
    togglefloating(&mut wm, &answer, &mut fx);
    assert!(wm.clients[1].isfloating);
    let before = (wm.clients[1].x, wm.clients[1].y, wm.clients[1].w, wm.clients[1].h);
    wm.setfullscreen(1, true, &answer, &mut fx);
    assert!(wm.clients[1].isfullscreen && wm.clients[1].isfloating);
    assert_eq!(wm.clients[1].bw, 0);
    assert_eq!((wm.clients[1].x, wm.clients[1].y, wm.clients[1].w, wm.clients[1].h), (0, 0, 1920, 1080));
    wm.setfullscreen(1, false, &answer, &mut fx);
    assert!(!wm.clients[1].isfullscreen);
    assert!(wm.clients[1].isfloating);
    assert_eq!(wm.clients[1].bw, 2);
    assert_eq!((wm.clients[1].x, wm.clients[1].y, wm.clients[1].w, wm.clients[1].h), before);
}

#[test]
fn manage_adds_exactly_one_client() {
    let mut wm = with_windows(2);
    let mut fx: Vec<Effect> = Vec::new();
    assert_eq!(managed_count(&wm), 2);
    manage(&mut wm, &window(200), &answer, &mut fx);
    assert_eq!(managed_count(&wm), 3);
    assert_eq!(wm.clients[2].win, 200);
}

#[test]
fn swallowed_window_adds_no_client() {
    let mut wm = with_windows(0);
    let mut fx: Vec<Effect> = Vec::new();
    let mut term = window(300);
    term.class = Some(b"St".to_vec());
    term.pid = 40;
    term.ancestry = vec![40, 1];
    manage(&mut wm, &term, &answer, &mut fx);
    assert_eq!(managed_count(&wm), 1);
    let mut child = window(301);
    child.pid = 41;
    child.ancestry = vec![41, 40, 1];
    manage(&mut wm, &child, &answer, &mut fx);
    assert_eq!(managed_count(&wm), 1);
    assert_eq!(wm.clients[0].win, 301);
}

#[test]
fn freed_slot_is_reused() {
    let mut wm = with_windows(3);
    let mut fx: Vec<Effect> = Vec::new();
    wm.unmanage(1, true, &answer, &mut fx);
    assert!(!wm.clients[1].alive);
    let mut w = window(200);
    w.title = b"editor".to_vec();
    manage(&mut wm, &w, &answer, &mut fx);
    assert_eq!(wm.clients.len(), 3);
    assert!(wm.clients[1].alive);
    assert_eq!(wm.clients[1].win, 200);
    assert_eq!(wm.names[1], b"editor".to_vec());
    assert_eq!(wm.mons[0].clients, vec![1, 2, 0]);
    assert_eq!(wm.mons[0].sel, Some(1));
    // with no slot free, the table grows
    manage(&mut wm, &window(201), &answer, &mut fx);
    assert_eq!(wm.clients.len(), 4);
    assert_eq!(wm.clients[3].win, 201);
}
