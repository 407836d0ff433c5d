use dwm::engine::{decimal, div_trunc, rem_trunc, wrap};
use dwm::geom::{unique_geoms, Geom};
use dwm::input::{bar_click, cleanmask, grab_modifiers, keypress, updatenumlockmask, xerror_ignored, Click, Command, Key};
use dwm::procs::{isdescprocess, parse_i32, parse_ppid};
use dwm::rules::has_text;
use dwm::util::{between, copy_bytes_to_cstr, copy_cstr, max_i32, min_i32};
use dwm::utf8::{utf8decode, utf8decodebyte, utf8validate};
use dwm::window::title_for;
use dwm::xres::{client_pid, xcb_res_client_id_spec_t, xcb_res_client_id_value_t};

#[test]
fn max_min_between() {
    assert_eq!(max_i32(3, -7), 3);
    assert_eq!(max_i32(i32::MIN, i32::MAX), i32::MAX);
    assert_eq!(min_i32(3, -7), -7);
    assert_eq!(min_i32(5, 5), 5);
    assert!(between(5, 1, 10));
    assert!(between(1, 1, 1));
    assert!(!between(0, 1, 10));
    assert!(!between(11, 1, 10));
}

#[test]
fn cstr_copies_truncate() {
    let mut dst = [7i8; 4];
    copy_bytes_to_cstr(&mut dst, b"hello");
    assert_eq!(dst, [104, 101, 108, 0]);
    let mut dst2 = [7i8; 8];
    copy_bytes_to_cstr(&mut dst2, b"hi");
    assert_eq!(dst2, [104, 105, 0, 0, 0, 0, 0, 0]);
    let mut empty: [i8; 0] = [];
    copy_bytes_to_cstr(&mut empty, b"x");
    let mut dst3 = [1i8; 6];
    copy_cstr(&mut dst3, b"ab\0cd");
    assert_eq!(dst3, [97, 98, 0, 0, 0, 0]);
}

#[test]
fn utf8_decoding() {
    let mut idx = 9usize;
    assert_eq!(utf8decodebyte(0x41, &mut idx), 0x41);
    assert_eq!(idx, 1);
    let mut idx = 9usize;
    assert_eq!(utf8decodebyte(0xC3u8 as i8, &mut idx), 0x03);
    assert_eq!(idx, 2);
    let text: Vec<i8> = "é".bytes().map(|b| b as i8).collect();
    let mut cp: i64 = 0;
    let n = utf8decode(&text, &mut cp, 4);
    assert_eq!(n, 2);
    assert_eq!(cp, 0xE9);
    let euro: Vec<i8> = "€".bytes().map(|b| b as i8).collect();
    let n = utf8decode(&euro, &mut cp, 4);
    assert_eq!(n, 3);
    assert_eq!(cp, 0x20AC);
    let bad: Vec<i8> = vec![0x80u8 as i8];
    let n = utf8decode(&bad, &mut cp, 4);
    assert_eq!(n, 1);
    assert_eq!(cp, 0xFFFD);
    let mut surrogate: i64 = 0xD800;
    let len = utf8validate(&mut surrogate, 3);
    assert_eq!(surrogate, 0xFFFD);
    assert_eq!(len, 3);
}

#[test]
fn integer_helpers() {
    assert_eq!(wrap(0x1_0000_0005), 5);
    assert_eq!(wrap(-1), -1);
    assert_eq!(wrap(0x8000_0000), i32::MIN);
    assert_eq!(div_trunc(-7, 2), -3);
    assert_eq!(div_trunc(7, -2), -3);
    assert_eq!(rem_trunc(-7, 2), -1);
    assert_eq!(decimal(0), b"0".to_vec());
    assert_eq!(decimal(1203), b"1203".to_vec());
}

#[test]
fn substring_search() {
    assert!(has_text(b"Firefox Nightly", b"fox"));
    assert!(has_text(b"abc", b""));
    assert!(!has_text(b"abc", b"abcd"));
    assert!(!has_text(b"Gimp", b"gimp"));
    assert!(has_text(b"St", b"St"));
}

#[test]
fn integer_parsing_as_rust_does() {
    assert_eq!(parse_i32(b"42"), Some(42));
    assert_eq!(parse_i32(b"-17"), Some(-17));
    assert_eq!(parse_i32(b"+8"), Some(8));
    assert_eq!(parse_i32(b"2147483647"), Some(i32::MAX));
    assert_eq!(parse_i32(b"-2147483648"), Some(i32::MIN));
    assert_eq!(parse_i32(b"2147483648"), None);
    assert_eq!(parse_i32(b"99999999999"), None);
    assert_eq!(parse_i32(b""), None);
    assert_eq!(parse_i32(b"-"), None);
    assert_eq!(parse_i32(b"12a"), None);
    for n in [0i32, 7, 1234, i32::MAX] {
        assert_eq!(parse_i32(n.to_string().as_bytes()), Some(n));
    }
}

#[test]
fn parent_process_from_stat() {
    assert_eq!(parse_ppid(b"1234 (bash) S 1200 1234 1234 0 -1"), 1200);
    assert_eq!(parse_ppid(b"77 (odd) name) R 5 77"), 5);
    assert_eq!(parse_ppid(b"77 (x) S"), 0);
    assert_eq!(parse_ppid(b"no parens here"), 0);
    assert_eq!(parse_ppid(b"1 (init) S   \t 0 1"), 0);
    assert_eq!(parse_ppid(b"9 (a) S x 9"), 0);
    assert_eq!(parse_ppid(b""), 0);
}

#[test]
fn ancestry_walk() {
    assert_eq!(isdescprocess(100, &[300, 200, 100, 1, 0]), 100);
    assert_eq!(isdescprocess(100, &[300, 200, 1, 0]), 0);
    assert_eq!(isdescprocess(100, &[300, 0, 100]), 0);
    assert_eq!(isdescprocess(100, &[]), 0);
    assert_eq!(isdescprocess(5, &[5]), 5);
}

#[test]
fn titles() {
    assert_eq!(title_for(b"vim"), b"vim".to_vec());
    assert_eq!(title_for(b""), b"broken".to_vec());
    assert_eq!(title_for(b"\0hidden"), b"broken".to_vec());
    assert_eq!(title_for(b"ab\0cd"), b"ab".to_vec());
    let long = vec![b'x'; 300];
    assert_eq!(title_for(&long).len(), 255);
}

#[test]
fn modifier_cleaning() {
    let numlock = 16u32;
    assert_eq!(cleanmask(64 | 2 | 16, numlock), 64);
    assert_eq!(cleanmask(64 | 1, numlock), 65);
    assert_eq!(cleanmask(0x100 | 4, 0), 4);
    assert_eq!(cleanmask(cleanmask(0xFFFF, numlock), numlock), cleanmask(0xFFFF, numlock));
    assert_eq!(grab_modifiers(16), vec![0, 2, 16, 18]);
}

#[test]
fn key_bindings() {
    let keys = vec![
        Key { mask: 64, keysym: 0x6a, cmd: Command::FocusStack(1) },
        Key { mask: 64, keysym: 0x6b, cmd: Command::FocusStack(-1) },
        Key { mask: 65, keysym: 0x6a, cmd: Command::MoveStack(1) },
        Key { mask: 64, keysym: 0x6a, cmd: Command::Zoom },
    ];
    assert_eq!(keypress(&keys, 0x6a, 64 | 16 | 2, 16), vec![Command::FocusStack(1), Command::Zoom]);
    assert_eq!(keypress(&keys, 0x6a, 65, 16), vec![Command::MoveStack(1)]);
    assert!(keypress(&keys, 0x6c, 64, 16).is_empty());
}

#[test]
fn bar_clicks_land_on_tags() {
    let ws = [20, 20, 20, 20, 20, 20, 20, 20, 20];
    assert_eq!(bar_click(&ws, 0, 30, 1000, 100), (Click::TagBar, 0));
    assert_eq!(bar_click(&ws, 19, 30, 1000, 100), (Click::TagBar, 0));
    assert_eq!(bar_click(&ws, 20, 30, 1000, 100), (Click::TagBar, 1));
    assert_eq!(bar_click(&ws, 175, 30, 1000, 100), (Click::TagBar, 8));
    assert_eq!(bar_click(&ws, 990, 30, 1000, 100), (Click::TagBar, 8));
}

#[test]
fn numlock_from_modifier_map() {
    let mut map = vec![0u8; 16];
    map[2 * 2 + 1] = 77;
    assert_eq!(updatenumlockmask(&map, 2, 77), 1 << 2);
    map[6 * 2] = 77;
    assert_eq!(updatenumlockmask(&map, 2, 77), 1 << 6);
    assert_eq!(updatenumlockmask(&map, 2, 78), 0);
}

#[test]
fn tolerated_errors() {
    assert!(xerror_ignored(3, 0));
    assert!(xerror_ignored(8, 42));
    assert!(xerror_ignored(10, 33));
    assert!(!xerror_ignored(8, 33));
    assert!(!xerror_ignored(1, 1));
}

#[test]
fn process_id_from_resource_ids() {
    let other = xcb_res_client_id_value_t { spec: xcb_res_client_id_spec_t { client: 5, mask: 1 }, length: 1 };
    let pid = xcb_res_client_id_value_t { spec: xcb_res_client_id_spec_t { client: 5, mask: 2 }, length: 1 };
    assert_eq!(client_pid(&[(other, 9), (pid, 4242)]), 4242);
    assert_eq!(client_pid(&[(other, 9)]), 0);
    assert_eq!(client_pid(&[(pid, u32::MAX)]), 0);
    assert_eq!(client_pid(&[]), 0);
}

#[test]
fn distinct_screens() {
    let a = Geom { x: 0, y: 0, w: 1920, h: 1080 };
    let b = Geom { x: 1920, y: 0, w: 1280, h: 1024 };
    assert_eq!(unique_geoms(&[a, b, a, b, a]), vec![a, b]);
    assert_eq!(unique_geoms(&[]), Vec::<Geom>::new());
}
