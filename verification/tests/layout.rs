use dwm::text::{text_begin, text_step, TextRequest, TextRun};

/// Fonts for the tests: font 0 has glyphs for ASCII only, every font after
/// it has all glyphs; each byte is 10 pixels wide in every font. A fallback
/// search finds a font where `fallback_ok`.
struct Fonts {
    n: usize,
    fallback_ok: bool,
    asked: Vec<TextRequest>,
}

impl Fonts {
    fn answer(&mut self, q: TextRequest) -> u32 {
        self.asked.push(q);
        match q {
            TextRequest::HasGlyph { font, codepoint } => (font > 0 || codepoint < 0x80) as u32,
            TextRequest::Extent { len, .. } => 10 * len as u32,
            TextRequest::Fallback { .. } => {
                if self.fallback_ok {
                    self.n += 1;
                }
                self.fallback_ok as u32
            }
            TextRequest::Done { .. } => 0,
        }
    }
}

fn layout(x: i32, y: i32, w: u32, h: u32, lpad: u32, fonts: &mut Fonts, text: &[u8]) -> (i32, Vec<TextRun>) {
    let (mut st, mut req) = text_begin(x, y, w, h, lpad, fonts.n, text);
    let mut runs = Vec::new();
    for _ in 0..10_000 {
        if let TextRequest::Done { x } = req {
            return (x, runs);
        }
        let a = fonts.answer(req);
        let (next, run) = text_step(&mut st, text, a);
        if let Some(r) = run {
            runs.push(r);
        }
        req = next;
    }
    panic!("layout did not finish");
}

#[test]
fn measure_text_width() {
    let mut f = Fonts { n: 1, fallback_ok: false, asked: Vec::new() };
    let (w, runs) = layout(0, 0, 0, 0, 0, &mut f, b"abc\0");
    assert_eq!(w, 30);
    assert_eq!(runs.len(), 1);
    assert_eq!((runs[0].start, runs[0].len, runs[0].ellipsis), (0, 3, false));
    let (w, runs) = layout(0, 0, 0, 0, 0, &mut f, b"");
    assert_eq!(w, 0);
    assert!(runs.is_empty());
}

#[test]
fn drawn_text_ends_at_box_edge() {
    let mut f = Fonts { n: 1, fallback_ok: false, asked: Vec::new() };
    let (x, runs) = layout(5, 0, 100, 20, 4, &mut f, b"abc");
    assert_eq!(x, 105);
    assert_eq!(runs, vec![TextRun { font: 0, x: 9, width: 30, start: 0, len: 3, ellipsis: false }]);
}

#[test]
fn too_long_text_is_cut_with_dots() {
    let mut f = Fonts { n: 1, fallback_ok: false, asked: Vec::new() };
    let (x, runs) = layout(5, 0, 25, 20, 0, &mut f, b"abcdef");
    assert_eq!(x, 30);
    assert_eq!(runs.len(), 1);
    assert_eq!((runs[0].len, runs[0].width, runs[0].ellipsis), (2, 20, true));
}

#[test]
fn other_font_takes_over() {
    let mut f = Fonts { n: 2, fallback_ok: false, asked: Vec::new() };
    let text = "ab\u{e9}c".as_bytes();
    let (w, runs) = layout(0, 0, 0, 0, 0, &mut f, text);
    assert_eq!(runs.len(), 3);
    assert_eq!((runs[0].font, runs[0].start, runs[0].len), (0, 0, 2));
    assert_eq!((runs[1].font, runs[1].start, runs[1].len), (1, 2, 2));
    assert_eq!((runs[2].font, runs[2].start, runs[2].len), (0, 4, 1));
    assert_eq!(w, 50);
}

#[test]
fn fallback_font_is_appended() {
    let mut f = Fonts { n: 1, fallback_ok: true, asked: Vec::new() };
    let text = "a\u{e9}".as_bytes();
    let (w, runs) = layout(0, 0, 0, 0, 0, &mut f, text);
    assert!(f.asked.contains(&TextRequest::Fallback { codepoint: 0xE9 }));
    assert_eq!(runs.len(), 2);
    assert_eq!((runs[1].font, runs[1].start, runs[1].len), (1, 1, 2));
    assert_eq!(w, 30);
}
