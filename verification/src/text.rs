use vstd::prelude::*;
use crate::engine::i32w;
use crate::utf8::{decode, lemma_decode_full, utf8decode};

verus! {

/// The most bytes of a run drawn at once: what the drawing buffer holds
/// besides the terminating zero.
pub const TEXT_BUF: usize = 1023;

/// The configuration of fontconfig. The fallback font search names it only
/// through a null pointer (the current configuration), so it holds nothing
/// that is read here.
pub struct FcConfig {
    _opaque: (),
}

/// Where the layout of a text stands between two questions to the fonts.
#[derive(Clone, Copy, PartialEq, Eq, Structural, Debug)]
pub enum TextPhase {
    /// Asked whether font `font` has a glyph for `codepoint`, the character
    /// at the current position, `clen` bytes long.
    Glyph { font: usize, codepoint: i64, clen: usize },
    /// Asked the width of the first `len` bytes of the current run.
    Measure { len: usize },
    /// Asked for a fallback font for the character at the current position.
    Fallback,
    /// The text is laid out.
    Finished,
}

/// The layout of a text in progress: the byte position reached, the run of
/// bytes gathered for the font in use, the fonts known, the font found for
/// the character that ended the run (if another one), the pen position and
/// the width left, with `x + w` fixed at `end`.
#[derive(Clone, Copy, PartialEq, Eq, Structural, Debug)]
pub struct TextState {
    pub pos: usize,
    pub run_start: usize,
    pub run_len: usize,
    pub used: usize,
    pub nfonts: usize,
    pub next: Option<usize>,
    pub x: i64,
    pub w: u32,
    pub end: i64,
    pub render: bool,
    pub phase: TextPhase,
}

/// A question to the fonts, or the end of the layout with the value the
/// drawing returns.
#[derive(Clone, Copy, PartialEq, Eq, Structural, Debug)]
pub enum TextRequest {
    /// Whether font `font` has a glyph for `codepoint` (answer nonzero).
    HasGlyph { font: usize, codepoint: i64 },
    /// The width of `len` bytes of the text from `start` in font `font`.
    Extent { font: usize, start: usize, len: usize },
    /// Find a font with a glyph for `codepoint` and append it to the fonts
    /// (answer nonzero), or report that none was found (answer zero).
    Fallback { codepoint: i64 },
    /// The layout is done.
    Done { x: i32 },
}

/// A piece of text to draw: `len` bytes from `start` in font `font` at `x`,
/// `width` wide, its last three bytes shown as dots where it was cut short.
#[derive(Clone, Copy, PartialEq, Eq, Structural, Debug)]
pub struct TextRun {
    pub font: usize,
    pub x: i32,
    pub width: u32,
    pub start: usize,
    pub len: usize,
    pub ellipsis: bool,
}

/// Byte `i` of a zero-terminated text: zero past its end.
pub open spec fn text_byte(text: Seq<u8>, i: int) -> u8 {
    if 0 <= i < text.len() { text[i] } else { 0 }
}

/// The four bytes of the text from position `p`.
pub open spec fn window(text: Seq<u8>, p: int) -> Seq<i8> {
    Seq::new(4, |i: int| text_byte(text, p + i) as i8)
}

/// The length and codepoint of the character at position `p`.
pub open spec fn char_at(text: Seq<u8>, p: int) -> (int, i64) {
    decode(window(text, p), 4)
}

/// `a - b`, or 0 where `b` is larger.
pub open spec fn sat_sub(a: u32, b: u32) -> u32 {
    if b <= a { (a - b) as u32 } else { 0 }
}

/// A layout state that the steps can go on from.
pub open spec fn text_ok(st: TextState, text: Seq<u8>) -> bool {
    &&& text_core(st, text)
    &&& (st.phase matches TextPhase::Glyph { font, clen, .. } ==> font < st.nfonts && 1 <= clen <= 4
            && text_byte(text, st.pos as int) != 0)
    &&& (st.phase matches TextPhase::Measure { len } ==> len <= st.run_len && len <= TEXT_BUF && st.run_len != 0)
    &&& (st.phase matches TextPhase::Fallback ==> text_byte(text, st.pos as int) != 0)
}

/// What holds of the layout's positions and fonts whatever its phase.
pub open spec fn text_core(st: TextState, text: Seq<u8>) -> bool {
    &&& 1 <= st.nfonts
    &&& st.used < st.nfonts
    &&& (st.next matches Some(k) ==> k < st.nfonts)
    &&& st.run_start + st.run_len <= st.pos <= text.len() + 4
    &&& st.x + st.w == st.end
    &&& i32::MIN <= st.x
    &&& st.end <= i32::MAX + u32::MAX
}

/// The value a finished layout returns: the pen position, and in drawing
/// mode the width left beside it.
pub open spec fn done_value(st: TextState) -> i32 {
    if st.render { i32w(st.x + st.w) } else { i32w(st.x as int) }
}

/// A text ends at the current position: the layout is finished.
pub open spec fn finish(st: TextState) -> (TextState, TextRequest) {
    (TextState { phase: TextPhase::Finished, ..st }, TextRequest::Done { x: done_value(st) })
}

/// Looks at the character at the current position: at the end of the text
/// the run is over; else the first font is asked for its glyph.
pub open spec fn scan(st: TextState, text: Seq<u8>) -> (TextState, TextRequest) {
    if text_byte(text, st.pos as int) == 0 {
        end_run(st, text)
    } else {
        let (clen, cp) = char_at(text, st.pos as int);
        (
            TextState { phase: TextPhase::Glyph { font: 0, codepoint: cp, clen: clen as usize }, ..st },
            TextRequest::HasGlyph { font: 0, codepoint: cp },
        )
    }
}

/// The run is over: a nonempty one is measured, else the layout goes on.
pub open spec fn end_run(st: TextState, text: Seq<u8>) -> (TextState, TextRequest) {
    if st.run_len != 0 {
        let len = if st.run_len <= TEXT_BUF { st.run_len } else { TEXT_BUF };
        (
            TextState { phase: TextPhase::Measure { len }, ..st },
            TextRequest::Extent { font: st.used, start: st.run_start, len: st.run_len },
        )
    } else {
        after_run(st, text)
    }
}

/// After a run: at the end of the text the layout is finished; where another
/// font has the next character, a run in that font starts; else a fallback
/// font is asked for.
pub open spec fn after_run(st: TextState, text: Seq<u8>) -> (TextState, TextRequest) {
    if text_byte(text, st.pos as int) == 0 {
        finish(st)
    } else {
        match st.next {
            Some(k) => start_run(TextState { used: k, ..st }, text),
            None => (
                TextState { phase: TextPhase::Fallback, ..st },
                TextRequest::Fallback { codepoint: char_at(text, st.pos as int).1 },
            ),
        }
    }
}

/// A new run starts at the character at the current position, whose glyph
/// the first font is asked for.
pub open spec fn start_run(st: TextState, text: Seq<u8>) -> (TextState, TextRequest) {
    let (clen, cp) = char_at(text, st.pos as int);
    (
        TextState {
            run_start: st.pos,
            run_len: 0,
            next: None,
            phase: TextPhase::Glyph { font: 0, codepoint: cp, clen: clen as usize },
            ..st
        },
        TextRequest::HasGlyph { font: 0, codepoint: cp },
    )
}

/// The layout after font `font` answered `a` on whether it has the glyph of
/// the current character.
pub open spec fn glyph_answered(st: TextState, text: Seq<u8>, font: usize, cp: i64, clen: usize, a: u32)
    -> (TextState, TextRequest)
{
    if a != 0 {
        if font == st.used {
            scan(TextState { run_len: (st.run_len + clen) as usize, pos: (st.pos + clen) as usize, ..st }, text)
        } else {
            end_run(TextState { next: Some(font), ..st }, text)
        }
    } else if font + 1 < st.nfonts {
        (
            TextState { phase: TextPhase::Glyph { font: (font + 1) as usize, codepoint: cp, clen }, ..st },
            TextRequest::HasGlyph { font: (font + 1) as usize, codepoint: cp },
        )
    } else {
        end_run(st, text)
    }
}

/// The run measured `ew` wide over its first `len` bytes: too wide, it is
/// measured a byte shorter; else what is left of it is drawn, and the pen
/// moves on.
pub open spec fn measured(st: TextState, text: Seq<u8>, len: usize, ew: u32)
    -> (TextState, TextRequest, Option<TextRun>)
{
    if len != 0 && ew > st.w {
        (
            TextState { phase: TextPhase::Measure { len: (len - 1) as usize }, ..st },
            TextRequest::Extent { font: st.used, start: st.run_start, len: (len - 1) as usize },
            None,
        )
    } else if len != 0 {
        let run = TextRun {
            font: st.used,
            x: i32w(st.x as int),
            width: ew,
            start: st.run_start,
            len,
            ellipsis: len < st.run_len,
        };
        let (s, q) = after_run(TextState { x: (st.x + ew) as i64, w: sat_sub(st.w, ew), ..st }, text);
        (s, q, Some(run))
    } else {
        let (s, q) = after_run(st, text);
        (s, q, None)
    }
}

/// The fallback search answered `a`: a font found is appended and used,
/// else the first font is used again.
pub open spec fn fallback_answered(st: TextState, text: Seq<u8>, a: u32) -> (TextState, TextRequest) {
    if a != 0 {
        start_run(TextState { nfonts: (st.nfonts + 1) as usize, used: st.nfonts, ..st }, text)
    } else {
        start_run(TextState { used: 0, ..st }, text)
    }
}

/// One step of the layout: the state, the next question and the run to
/// draw, if any, after `answer` to the last question.
pub open spec fn text_next(st: TextState, text: Seq<u8>, answer: u32) -> (TextState, TextRequest, Option<TextRun>) {
    match st.phase {
        TextPhase::Glyph { font, codepoint, clen } => {
            let (s, q) = glyph_answered(st, text, font, codepoint, clen, answer);
            (s, q, None)
        },
        TextPhase::Measure { len } => measured(st, text, len, answer),
        TextPhase::Fallback => {
            let (s, q) = fallback_answered(st, text, answer);
            (s, q, None)
        },
        TextPhase::Finished => (st, TextRequest::Done { x: done_value(st) }, None),
    }
}

/// The state a layout starts from: drawing where any of `x`, `y`, `w`, `h`
/// is nonzero, inside the padding `lpad`; only measuring (with no width
/// limit) otherwise.
pub open spec fn text_origin(x: i32, y: i32, w: u32, h: u32, lpad: u32, nfonts: usize) -> TextState {
    let render = x != 0 || y != 0 || w != 0 || h != 0;
    let x0: i64 = if render { (x + lpad) as i64 } else { x as i64 };
    let w0: u32 = if render { sat_sub(w, lpad) } else { !w };
    TextState {
        pos: 0,
        run_start: 0,
        run_len: 0,
        used: 0,
        nfonts,
        next: None,
        x: x0,
        w: w0,
        end: (x0 + w0) as i64,
        render,
        phase: TextPhase::Finished,
    }
}

fn byte_of(text: &[u8], i: usize) -> (r: u8)
    ensures
        r == text_byte(text@, i as int),
{
    if i < text.len() { text[i] } else { 0 }
}

/// The length and codepoint of the character at `p`.
fn char_of(text: &[u8], p: usize) -> (r: (usize, i64))
    requires
        p + 4 <= usize::MAX,
    ensures
        r.0 == char_at(text@, p as int).0,
        r.1 == char_at(text@, p as int).1,
        1 <= r.0 <= 4,
{
    let mut win: Vec<i8> = Vec::new();
    let mut i: usize = 0;
    while i < 4
        invariant
            p + 4 <= usize::MAX,
            i <= 4,
            win@.len() == i,
            forall|j: int| 0 <= j < i ==> #[trigger] win@[j] == window(text@, p as int)[j],
        decreases 4 - i,
    {
        let b = byte_of(text, p + i);
        win.push(b as i8);
        i += 1;
    }
    proof {
        assert(win@ =~= window(text@, p as int));
        lemma_decode_full(window(text@, p as int));
    }
    let mut cp: i64 = 0;
    let n = utf8decode(win.as_slice(), &mut cp, 4);
    (n, cp)
}

fn finish_exec(st: &mut TextState) -> (r: TextRequest)
    requires
        old(st).x + old(st).w == old(st).end,
        i32::MIN <= old(st).x,
        old(st).end <= i32::MAX + u32::MAX,
    ensures
        (*final(st), r) == finish(*old(st)),
{
    let v: i64 = if st.render { st.x + st.w as i64 } else { st.x };
    st.phase = TextPhase::Finished;
    TextRequest::Done { x: crate::engine::wrap(v) }
}

fn scan_exec(st: &mut TextState, text: &[u8]) -> (r: TextRequest)
    requires
        text_core(*old(st), text@),
        text@.len() + 8 <= usize::MAX,
    ensures
        (*final(st), r) == scan(*old(st), text@),
        text_ok(*final(st), text@),
        final(st).end == old(st).end,
{
    if byte_of(text, st.pos) == 0 {
        end_run_exec(st, text)
    } else {
        let (clen, cp) = char_of(text, st.pos);
        st.phase = TextPhase::Glyph { font: 0, codepoint: cp, clen };
        TextRequest::HasGlyph { font: 0, codepoint: cp }
    }
}

fn end_run_exec(st: &mut TextState, text: &[u8]) -> (r: TextRequest)
    requires
        text_core(*old(st), text@),
        text@.len() + 8 <= usize::MAX,
    ensures
        (*final(st), r) == end_run(*old(st), text@),
        text_ok(*final(st), text@),
        final(st).end == old(st).end,
{
    if st.run_len != 0 {
        let len = if st.run_len <= TEXT_BUF { st.run_len } else { TEXT_BUF };
        st.phase = TextPhase::Measure { len };
        TextRequest::Extent { font: st.used, start: st.run_start, len: st.run_len }
    } else {
        after_run_exec(st, text)
    }
}

fn after_run_exec(st: &mut TextState, text: &[u8]) -> (r: TextRequest)
    requires
        text_core(*old(st), text@),
        text@.len() + 8 <= usize::MAX,
    ensures
        (*final(st), r) == after_run(*old(st), text@),
        text_ok(*final(st), text@),
        final(st).end == old(st).end,
{
    if byte_of(text, st.pos) == 0 {
        finish_exec(st)
    } else {
        match st.next {
            Some(k) => {
                st.used = k;
                start_run_exec(st, text)
            },
            None => {
                let (_, cp) = char_of(text, st.pos);
                st.phase = TextPhase::Fallback;
                TextRequest::Fallback { codepoint: cp }
            },
        }
    }
}

fn start_run_exec(st: &mut TextState, text: &[u8]) -> (r: TextRequest)
    requires
        text_core(*old(st), text@),
        text@.len() + 8 <= usize::MAX,
        text_byte(text@, old(st).pos as int) != 0,
    ensures
        (*final(st), r) == start_run(*old(st), text@),
        text_ok(*final(st), text@),
        final(st).end == old(st).end,
{
    st.run_start = st.pos;
    st.run_len = 0;
    st.next = None;
    let (clen, cp) = char_of(text, st.pos);
    st.phase = TextPhase::Glyph { font: 0, codepoint: cp, clen };
    TextRequest::HasGlyph { font: 0, codepoint: cp }
}

/// Starts the layout of the zero-terminated `text` in `nfonts` fonts, at `x`
/// in a box `w` wide (where any of `x`, `y`, `w`, `h` is nonzero, the text
/// is drawn inside the padding `lpad`; else it is only measured), and asks
/// the first question.
pub fn text_begin(x: i32, y: i32, w: u32, h: u32, lpad: u32, nfonts: usize, text: &[u8]) -> (r: (TextState, TextRequest))
    requires
        nfonts >= 1,
        text@.len() + 8 <= usize::MAX,
    ensures
        r == scan(text_origin(x, y, w, h, lpad, nfonts), text@),
        text_ok(r.0, text@),
        r.0.end == text_origin(x, y, w, h, lpad, nfonts).end,
{
    let render = x != 0 || y != 0 || w != 0 || h != 0;
    let x0: i64 = if render { x as i64 + lpad as i64 } else { x as i64 };
    let w0: u32 = if render { if lpad <= w { w - lpad } else { 0 } } else { !w };
    let mut st = TextState {
        pos: 0,
        run_start: 0,
        run_len: 0,
        used: 0,
        nfonts,
        next: None,
        x: x0,
        w: w0,
        end: x0 + w0 as i64,
        render,
        phase: TextPhase::Finished,
    };
    proof { assert(st == text_origin(x, y, w, h, lpad, nfonts)); }
    let q = scan_exec(&mut st, text);
    (st, q)
}

/// Goes on with the layout after `answer` to the last question: answers the
/// next question, and the run to draw, if any.
pub fn text_step(st: &mut TextState, text: &[u8], answer: u32) -> (r: (TextRequest, Option<TextRun>))
    requires
        text_ok(*old(st), text@),
        text@.len() + 8 <= usize::MAX,
        old(st).nfonts < usize::MAX,
    ensures
        (*final(st), r.0, r.1) == text_next(*old(st), text@, answer),
        text_ok(*final(st), text@),
        final(st).end == old(st).end,
{
    match st.phase {
        TextPhase::Glyph { font, codepoint, clen } => {
            if answer != 0 {
                if font == st.used {
                    st.run_len = st.run_len + clen;
                    st.pos = st.pos + clen;
                    (scan_exec(st, text), None)
                } else {
                    st.next = Some(font);
                    (end_run_exec(st, text), None)
                }
            } else if font + 1 < st.nfonts {
                st.phase = TextPhase::Glyph { font: font + 1, codepoint, clen };
                (TextRequest::HasGlyph { font: font + 1, codepoint }, None)
            } else {
                (end_run_exec(st, text), None)
            }
        },
        TextPhase::Measure { len } => {
            if len != 0 && answer > st.w {
                st.phase = TextPhase::Measure { len: len - 1 };
                (TextRequest::Extent { font: st.used, start: st.run_start, len: len - 1 }, None)
            } else if len != 0 {
                let run = TextRun {
                    font: st.used,
                    x: crate::engine::wrap(st.x),
                    width: answer,
                    start: st.run_start,
                    len,
                    ellipsis: len < st.run_len,
                };
                st.x = st.x + answer as i64;
                st.w = st.w - answer;
                let q = after_run_exec(st, text);
                (q, Some(run))
            } else {
                (after_run_exec(st, text), None)
            }
        },
        TextPhase::Fallback => {
            if answer != 0 {
                st.used = st.nfonts;
                st.nfonts = st.nfonts + 1;
            } else {
                st.used = 0;
            }
            (start_run_exec(st, text), None)
        },
        TextPhase::Finished => {
            let v: i64 = if st.render { st.x + st.w as i64 } else { st.x };
            (TextRequest::Done { x: crate::engine::wrap(v) }, None)
        },
    }
}

} // verus!
