use vstd::prelude::*;
use crate::color::Color;
use crate::text::chars_of;
use crate::slide::{
    Page, PageView, Slide, SlideView, SlideElement, ElementView, elements_view, pages_view,
    opt_str_view,
};
use crate::slide_parser::{
    CompileError, CompileState, compile, compile_slide, compile_from, opens_with, closing_line,
    tokenize, initial_state,
};
use crate::text::{
    lines_of, strip_comments, lines_from, strip_comments_from, line_end, lemma_line_end, strip_cr,
    lemma_lines_cons,
};

verus! {

pub const HASH_OFFSET: u64 = 0xcbf2_9ce4_8422_2325;

pub const HASH_PRIME: u64 = 0x0100_0000_01b3;

/// One step of the page hash: mix in a word, then multiply (mod 2^64).
pub open spec fn mix(h: u64, w: u64) -> u64 {
    (((h ^ w) as int * HASH_PRIME as int) % 0x1_0000_0000_0000_0000) as u64
}

/// The hash of a series of words, from the state `h`.
pub open spec fn hash_words(h: u64, ws: Seq<u64>) -> u64
    decreases ws.len(),
{
    if ws.len() == 0 {
        h
    } else {
        mix(hash_words(h, ws.drop_last()), ws.last())
    }
}

pub open spec fn opt_words(o: Option<i64>) -> Seq<u64> {
    match o {
        Some(v) => seq![1u64, v as u64],
        None => seq![0u64],
    }
}

pub open spec fn text_words(s: Seq<char>) -> Seq<u64> {
    seq![s.len() as u64] + s.map_values(|c: char| c as u64)
}

pub open spec fn opt_text_words(o: Option<Seq<char>>) -> Seq<u64> {
    match o {
        Some(s) => seq![1u64] + text_words(s),
        None => seq![0u64],
    }
}

pub open spec fn color_word(c: Color) -> u64 {
    (c.r as int * 0x100_0000 + c.g as int * 0x1_0000 + c.b as int * 0x100 + c.a as int) as u64
}

/// What the hash reads of an element: for text its position, text, color,
/// size and font; for an image its kind, path, position, size and color.
pub open spec fn element_words(e: ElementView) -> Seq<u64> {
    match e {
        ElementView::Text(t) => seq![1u64] + opt_words(t.x) + opt_words(t.y) + text_words(t.text) + seq![
            color_word(t.color),
            t.font_size as u64,
        ] + opt_text_words(t.font_name),
        ElementView::Image(i) => seq![2u64, i.background as u64] + text_words(i.location) + opt_words(i.x)
            + opt_words(i.y) + opt_words(i.w) + opt_words(i.h) + seq![color_word(i.color)],
    }
}

pub open spec fn elements_words(es: Seq<ElementView>) -> Seq<u64>
    decreases es.len(),
{
    if es.len() == 0 {
        seq![]
    } else {
        elements_words(es.drop_last()) + element_words(es.last())
    }
}

pub open spec fn page_words(p: PageView) -> Seq<u64> {
    seq![color_word(p.background_color)] + elements_words(p.elements)
}

/// The structural hash of a page: its background and the contents of its
/// elements, in order.
pub open spec fn spec_page_hash(p: PageView) -> u64 {
    hash_words(HASH_OFFSET, page_words(p))
}

proof fn lemma_hash_words_append(h: u64, a: Seq<u64>, b: Seq<u64>)
    ensures
        hash_words(h, a + b) == hash_words(hash_words(h, a), b),
    decreases b.len(),
{
    if b.len() == 0 {
        assert(a + b == a);
    } else {
        lemma_hash_words_append(h, a, b.drop_last());
        assert((a + b).drop_last() == a + b.drop_last());
    }
}

proof fn lemma_hash_push(h: u64, a: Seq<u64>, w: u64)
    ensures
        hash_words(h, a.push(w)) == mix(hash_words(h, a), w),
        hash_words(h, a + seq![w]) == mix(hash_words(h, a), w),
        hash_words(h, Seq::<u64>::empty()) == h,
{
    assert(a.push(w).drop_last() == a);
    assert(a + seq![w] == a.push(w));
}

proof fn lemma_hash_one(h: u64, w: u64)
    ensures
        hash_words(h, seq![w]) == mix(h, w),
{
    lemma_hash_push(h, Seq::<u64>::empty(), w);
    assert(Seq::<u64>::empty().push(w) == seq![w]);
}

proof fn lemma_hash_two(h: u64, w1: u64, w2: u64)
    ensures
        hash_words(h, seq![w1, w2]) == mix(mix(h, w1), w2),
{
    lemma_hash_one(h, w1);
    lemma_hash_push(h, seq![w1], w2);
    assert(seq![w1].push(w2) == seq![w1, w2]);
}

fn mix_word(h: u64, w: u64) -> (r: u64)
    ensures
        r == mix(h, w),
{
    (((h ^ w) as u128 * HASH_PRIME as u128) % 0x1_0000_0000_0000_0000u128) as u64
}

fn mix_opt(h: u64, o: Option<i64>) -> (r: u64)
    ensures
        r == hash_words(h, opt_words(o)),
{
    match o {
        Some(v) => {
            let h1 = mix_word(h, 1);
            let r = mix_word(h1, v as u64);
            proof {
                lemma_hash_two(h, 1, v as u64);
            }
            r
        },
        None => {
            proof {
                lemma_hash_one(h, 0);
            }
            mix_word(h, 0)
        },
    }
}

fn mix_text(h: u64, s: &String) -> (r: u64)
    ensures
        r == hash_words(h, text_words(s@)),
{
    let v = chars_of(s.as_str());
    let ghost cs = v@.map_values(|c: char| c as u64);
    let mut r = mix_word(h, v.len() as u64);
    proof {
        lemma_hash_one(h, v.len() as u64);
        assert(seq![v@.len() as u64] + cs.subrange(0, 0) == seq![v@.len() as u64]);
    }
    let mut k: usize = 0;
    while k < v.len()
        invariant
            k <= v@.len(),
            cs == v@.map_values(|c: char| c as u64),
            r == hash_words(h, seq![v@.len() as u64] + cs.subrange(0, k as int)),
        decreases v@.len() - k,
    {
        let ghost before = seq![v@.len() as u64] + cs.subrange(0, k as int);
        r = mix_word(r, v[k] as u64);
        proof {
            lemma_hash_push(h, before, v@[k as int] as u64);
            assert(seq![v@.len() as u64] + cs.subrange(0, k + 1) == before.push(v@[k as int] as u64));
        }
        k = k + 1;
    }
    assert(cs.subrange(0, v@.len() as int) == cs);
    r
}

fn mix_opt_text(h: u64, o: &Option<String>) -> (r: u64)
    ensures
        r == hash_words(h, opt_text_words(opt_str_view(*o))),
{
    match o {
        Some(s) => {
            let h1 = mix_word(h, 1);
            proof {
                lemma_hash_one(h, 1);
                lemma_hash_words_append(h, seq![1u64], text_words(s@));
            }
            mix_text(h1, s)
        },
        None => {
            proof {
                lemma_hash_one(h, 0);
            }
            mix_word(h, 0)
        },
    }
}

fn mix_element(h: u64, e: &SlideElement) -> (r: u64)
    ensures
        r == hash_words(h, element_words(e@)),
{
    match e {
        SlideElement::Text(t) => {
            let ghost a = seq![1u64];
            let ghost b = opt_words(t.x);
            let ghost c = opt_words(t.y);
            let ghost d = text_words(t.text@);
            let ghost f = seq![color_word(t.color), t.font_size as u64];
            let ghost g = opt_text_words(opt_str_view(t.font_name));
            let h1 = mix_word(h, 1);
            proof {
                lemma_hash_one(h, 1);
            }
            let h2 = mix_opt(h1, t.x);
            let h3 = mix_opt(h2, t.y);
            let h4 = mix_text(h3, &t.text);
            let cw = ((t.color.r as u64) * 0x100_0000 + (t.color.g as u64) * 0x1_0000 + (t.color.b as u64) * 0x100
                + t.color.a as u64);
            let h5 = mix_word(h4, cw);
            let h6 = mix_word(h5, t.font_size as u64);
            proof {
                lemma_hash_two(h4, color_word(t.color), t.font_size as u64);
            }
            let h7 = mix_opt_text(h6, &t.font_name);
            proof {
                lemma_hash_words_append(h, a, b);
                lemma_hash_words_append(h, a + b, c);
                lemma_hash_words_append(h, a + b + c, d);
                lemma_hash_words_append(h, a + b + c + d, f);
                lemma_hash_words_append(h, a + b + c + d + f, g);
            }
            h7
        },
        SlideElement::Image(i) => {
            let ghost a = seq![2u64, i.background as u64];
            let ghost b = text_words(i.location@);
            let ghost c = opt_words(i.x);
            let ghost d = opt_words(i.y);
            let ghost f = opt_words(i.w);
            let ghost g = opt_words(i.h);
            let ghost k = seq![color_word(i.color)];
            let h1 = mix_word(h, 2);
            let h1 = mix_word(h1, if i.background { 1 } else { 0 });
            proof {
                lemma_hash_two(h, 2, i.background as u64);
            }
            let h2 = mix_text(h1, &i.location);
            let h3 = mix_opt(h2, i.x);
            let h4 = mix_opt(h3, i.y);
            let h5 = mix_opt(h4, i.w);
            let h6 = mix_opt(h5, i.h);
            let cw = ((i.color.r as u64) * 0x100_0000 + (i.color.g as u64) * 0x1_0000 + (i.color.b as u64) * 0x100
                + i.color.a as u64);
            let h7 = mix_word(h6, cw);
            proof {
                lemma_hash_one(h6, color_word(i.color));
                lemma_hash_words_append(h, a, b);
                lemma_hash_words_append(h, a + b, c);
                lemma_hash_words_append(h, a + b + c, d);
                lemma_hash_words_append(h, a + b + c + d, f);
                lemma_hash_words_append(h, a + b + c + d + f, g);
                lemma_hash_words_append(h, a + b + c + d + f + g, k);
            }
            h7
        },
    }
}

/// The structural hash of a page (see `spec_page_hash`).
pub fn page_hash(page: &Page) -> (r: u64)
    ensures
        r == spec_page_hash(page@),
{
    let c = page.background_color;
    let ghost es = elements_view(page.elements@);
    let cw = ((c.r as u64) * 0x100_0000 + (c.g as u64) * 0x1_0000 + (c.b as u64) * 0x100 + c.a as u64);
    let mut h = mix_word(HASH_OFFSET, cw);
    proof {
        lemma_hash_one(HASH_OFFSET, color_word(c));
        assert(es.subrange(0, 0) == Seq::<ElementView>::empty());
        assert(seq![color_word(c)] + elements_words(Seq::<ElementView>::empty()) == seq![color_word(c)]);
    }
    let mut k: usize = 0;
    while k < page.elements.len()
        invariant
            k <= page.elements@.len(),
            es == elements_view(page.elements@),
            h == hash_words(HASH_OFFSET, seq![color_word(c)] + elements_words(es.subrange(0, k as int))),
        decreases page.elements@.len() - k,
    {
        let ghost pre = seq![color_word(c)] + elements_words(es.subrange(0, k as int));
        h = mix_element(h, &page.elements[k]);
        proof {
            lemma_hash_words_append(HASH_OFFSET, pre, element_words(es[k as int]));
            assert(es.subrange(0, k + 1).drop_last() == es.subrange(0, k as int));
            assert(seq![color_word(c)] + elements_words(es.subrange(0, k + 1)) == pre + element_words(es[k as int]));
        }
        k = k + 1;
    }
    assert(es.subrange(0, page.elements@.len() as int) == es);
    h
}

pub open spec fn hash_distance(a: u64, b: u64) -> int {
    if a >= b {
        a - b
    } else {
        b - a
    }
}

/// The index from `i` on whose hash is nearest `target`, against the best so
/// far; ties keep the lower index.
pub open spec fn nearest_from(target: u64, hashes: Seq<u64>, i: int, best: int) -> int
    decreases hashes.len() - i,
{
    if i < 0 || i >= hashes.len() {
        best
    } else if hash_distance(hashes[i], target) < hash_distance(hashes[best], target) {
        nearest_from(target, hashes, i + 1, i)
    } else {
        nearest_from(target, hashes, i + 1, best)
    }
}

/// The index of the hash nearest `target`, the lowest on a tie.
pub open spec fn nearest(target: u64, hashes: Seq<u64>) -> int {
    nearest_from(target, hashes, 1, 0)
}

proof fn lemma_nearest_from(target: u64, hashes: Seq<u64>, i: int, best: int)
    requires
        0 <= best < i <= hashes.len(),
        forall|j: int| 0 <= j < i ==> hash_distance(hashes[best], target) <= hash_distance(#[trigger] hashes[j], target),
        forall|j: int| 0 <= j < best ==> hash_distance(hashes[best], target) < hash_distance(#[trigger] hashes[j], target),
    ensures
        0 <= nearest_from(target, hashes, i, best) < hashes.len(),
        forall|j: int| 0 <= j < hashes.len() ==> hash_distance(hashes[nearest_from(target, hashes, i, best)], target) <= hash_distance(#[trigger] hashes[j], target),
        forall|j: int| 0 <= j < nearest_from(target, hashes, i, best) ==> hash_distance(hashes[nearest_from(target, hashes, i, best)], target) < hash_distance(#[trigger] hashes[j], target),
    decreases hashes.len() - i,
{
    if i < hashes.len() {
        if hash_distance(hashes[i], target) < hash_distance(hashes[best], target) {
            lemma_nearest_from(target, hashes, i + 1, i);
        } else {
            lemma_nearest_from(target, hashes, i + 1, best);
        }
    }
}

/// The chosen page is the one whose hash lies nearest the target: no page
/// lies nearer, and every page before it lies farther. An equal hash is
/// therefore always found, the first one where there are several.
pub proof fn lemma_nearest_is_closest(target: u64, hashes: Seq<u64>)
    requires
        hashes.len() > 0,
    ensures
        0 <= nearest(target, hashes) < hashes.len(),
        forall|j: int| 0 <= j < hashes.len() ==> hash_distance(hashes[nearest(target, hashes)], target) <= hash_distance(#[trigger] hashes[j], target),
        forall|j: int| 0 <= j < nearest(target, hashes) ==> hash_distance(hashes[nearest(target, hashes)], target) < hash_distance(#[trigger] hashes[j], target),
        (exists|j: int| 0 <= j < hashes.len() && hashes[j] == target) ==> hashes[nearest(target, hashes)] == target,
{
    lemma_nearest_from(target, hashes, 1, 0);
}

/// The index of the hash nearest `target` (see `nearest`).
pub fn nearest_hash(target: u64, hashes: &Vec<u64>) -> (r: usize)
    requires
        hashes@.len() > 0,
    ensures
        r == nearest(target, hashes@),
{
    let mut best: usize = 0;
    let mut i: usize = 1;
    let mut best_distance: u64 = if hashes[0] >= target { hashes[0] - target } else { target - hashes[0] };
    while i < hashes.len()
        invariant
            0 <= best < i <= hashes@.len(),
            best_distance == hash_distance(hashes@[best as int], target),
            nearest(target, hashes@) == nearest_from(target, hashes@, i as int, best as int),
        decreases hashes@.len() - i,
    {
        let d = if hashes[i] >= target { hashes[i] - target } else { target - hashes[i] };
        if d < best_distance {
            best = i;
            best_distance = d;
        }
        i = i + 1;
    }
    best
}

/// Why a reload left the document as it was.
#[derive(Debug, Clone, Copy, PartialEq, Eq, Structural)]
pub enum ReloadError {
    /// The source could not be read.
    Unreadable,
    /// The source no longer compiles.
    Compile(CompileError),
}

pub open spec fn page_hashes(pages: Seq<PageView>) -> Seq<u64> {
    pages.map_values(|p: PageView| spec_page_hash(p))
}

/// The page to show after a reload: the same index when the page count is
/// unchanged, else the new page whose hash is nearest that of the page that
/// was shown.
pub open spec fn resync_page(old: SlideView, new_pages: Seq<PageView>) -> int {
    if old.pages.len() == new_pages.len() {
        old.current_page
    } else if new_pages.len() == 0 || !(0 <= old.current_page < old.pages.len()) {
        0
    } else {
        nearest(spec_page_hash(old.pages[old.current_page]), page_hashes(new_pages))
    }
}

/// The document after a reload from `source`, modified at `modified_time`.
pub open spec fn reloaded(old: SlideView, source: Seq<char>, modified_time: u64) -> Result<SlideView, ReloadError> {
    if modified_time <= old.last_modified_time {
        Ok(old)
    } else {
        match compile(source) {
            Err(e) => Err(ReloadError::Compile(e)),
            Ok(new) => Ok(
                SlideView {
                    file_name: old.file_name,
                    last_modified_time: modified_time,
                    current_page: resync_page(old, new.pages),
                    ..new
                },
            ),
        }
    }
}

fn hashes_of(pages: &Vec<Page>) -> (r: Vec<u64>)
    ensures
        r@ == page_hashes(pages_view(pages@)),
{
    let mut r: Vec<u64> = Vec::new();
    let mut k: usize = 0;
    while k < pages.len()
        invariant
            k <= pages@.len(),
            r@ == page_hashes(pages_view(pages@)).subrange(0, k as int),
        decreases pages@.len() - k,
    {
        r.push(page_hash(&pages[k]));
        assert(page_hashes(pages_view(pages@)).subrange(0, k + 1) == page_hashes(pages_view(pages@)).subrange(0, k as int).push(spec_page_hash(pages@[k as int]@)));
        k = k + 1;
    }
    assert(page_hashes(pages_view(pages@)).subrange(0, pages@.len() as int) == page_hashes(pages_view(pages@)));
    r
}

impl Slide {
    /// Compiles the source read from `file_name`, modified at `modified_time`.
    pub fn new_from_file(file_name: &str, source: &str, modified_time: u64) -> (r: Result<Slide, CompileError>)
        ensures
            match r {
                Ok(s) => s.wf() && compile(source@) == Ok::<SlideView, CompileError>(
                    SlideView { file_name: seq![], last_modified_time: 0, ..s@ },
                ) && s@.file_name == file_name@ && s.last_modified_time == modified_time,
                Err(e) => compile(source@) == Err::<SlideView, CompileError>(e),
            },
    {
        match compile_slide(source) {
            Ok(s) => {
                let mut s = s;
                s.file_name = String::from_str(file_name);
                s.last_modified_time = modified_time;
                Ok(s)
            },
            Err(e) => Err(e),
        }
    }

    /// Takes in a newer source: recompiles it and keeps the viewer's place
    /// (see `reloaded`); on failure the document stays as it was.
    pub fn reload(&mut self, source: &str, modified_time: u64) -> (r: Result<(), ReloadError>)
        requires
            old(self).wf(),
        ensures
            final(self).wf(),
            match reloaded(old(self)@, source@, modified_time) {
                Ok(v) => r is Ok && final(self)@ == v,
                Err(e) => r == Err::<(), ReloadError>(e) && final(self)@ == old(self)@,
            },
    {
        if modified_time <= self.last_modified_time {
            return Ok(());
        }
        match compile_slide(source) {
            Err(e) => Err(ReloadError::Compile(e)),
            Ok(new_slide) => {
                let ghost new_view = new_slide@;
                let page = if self.pages.len() == new_slide.pages.len() {
                    self.current_page
                } else if new_slide.pages.len() == 0 || self.current_page < 0 || self.current_page as usize >= self.pages.len() {
                    0
                } else {
                    let target = page_hash(&self.pages[self.current_page as usize]);
                    let hashes = hashes_of(&new_slide.pages);
                    let k = nearest_hash(target, &hashes);
                    proof {
                        lemma_nearest_is_closest(target, hashes@);
                    }
                    k as isize
                };
                self.last_modified_time = modified_time;
                self.pages = new_slide.pages;
                self.current_page = page;
                self.resolution = new_slide.resolution;
                self.default_transition = new_slide.default_transition;
                Ok(())
            },
        }
    }
}

/// Compiling the same source twice gives documents with as many pages, and
/// equal structural hashes page by page.
pub proof fn lemma_compile_stable(a: Seq<char>, b: Seq<char>)
    requires
        a == b,
    ensures
        compile(a) is Ok <==> compile(b) is Ok,
        compile(a) is Ok ==> compile(a)->Ok_0.pages.len() == compile(b)->Ok_0.pages.len(),
        compile(a) is Ok ==> forall|i: int|
            0 <= i < compile(a)->Ok_0.pages.len() ==> #[trigger] spec_page_hash(compile(a)->Ok_0.pages[i])
                == spec_page_hash(compile(b)->Ok_0.pages[i]),
{
}

proof fn lemma_unclosed_from(lines: Seq<Seq<char>>, i: int, p: int, st: CompileState)
    requires
        0 <= i <= p < lines.len(),
        opens_with(lines[p], "page"@),
        forall|k: int| p < k < lines.len() ==> !opens_with(#[trigger] lines[k], "end_page"@),
    ensures
        compile_from(lines, i, st) is Err,
    decreases lines.len() - i,
{
    reveal(compile_from);
    assert("page"@ != "end_page"@) by {
        reveal_strlit("page");
        reveal_strlit("end_page");
        assert("page"@.len() != "end_page"@.len());
    }
    match tokenize(lines[i]) {
        None => {
            assert(i != p);
            lemma_unclosed_from(lines, i + 1, p, st);
        },
        Some(cmds) => {
            let n = cmds[0].name;
            if n == "page"@ {
                let e = closing_line(lines, i + 1, "end_page"@);
                crate::slide_parser::lemma_closing_line(lines, i + 1, "end_page"@);
                if e < lines.len() {
                    assert(e != p);
                    assert(e < p);
                    let (c, pg) = crate::slide_parser::build_page(st.ctx, lines.subrange(i + 1, e));
                    lemma_unclosed_from(lines, e + 1, p, CompileState { ctx: c, pages: st.pages.push(pg), ..st });
                }
            } else {
                assert(i != p);
                lemma_unclosed_from(lines, i + 1, p, crate::slide_parser::top_commands(cmds, 0, st));
            }
        },
    }
}

proof fn lemma_no_closing_kept(s: Seq<char>, i: int)
    requires
        0 <= i <= s.len(),
        forall|k: int| 0 <= k < lines_from(s, i).len() ==> !opens_with(#[trigger] lines_from(s, i)[k], "end_page"@),
    ensures
        forall|k: int|
            0 <= k < lines_of(strip_comments_from(s, i)).len() ==> !opens_with(
                #[trigger] lines_of(strip_comments_from(s, i))[k],
                "end_page"@,
            ),
    decreases s.len() - i,
{
    lemma_line_end(s, i);
    let e = line_end(s, i);
    let line = s.subrange(i, e);
    let rest = if e < s.len() {
        strip_comments_from(s, e + 1)
    } else {
        Seq::<char>::empty()
    };
    if e < s.len() {
        assert forall|k: int| 0 <= k < lines_from(s, e + 1).len() implies !opens_with(
            #[trigger] lines_from(s, e + 1)[k],
            "end_page"@,
        ) by {
            assert(lines_from(s, i)[k + 1] == lines_from(s, e + 1)[k]);
        }
        lemma_no_closing_kept(s, e + 1);
    }
    assert(lines_of(Seq::<char>::empty()) == Seq::<Seq<char>>::empty());
    if !(line.len() > 0 && line[0] == '#') {
        assert forall|m: int| 0 <= m < line.len() implies line[m] != '\n' by {
            assert(line[m] == s[i + m]);
        }
        lemma_lines_cons(line, rest);
        assert(strip_comments_from(s, i) == line.push('\n') + rest);
        let sv = lines_of(strip_comments_from(s, i));
        assert forall|k: int| 0 <= k < sv.len() implies !opens_with(#[trigger] sv[k], "end_page"@) by {
            if k == 0 {
                if i < s.len() {
                    assert(lines_from(s, i)[0] == strip_cr(line));
                } else {
                    assert(strip_cr(line).len() == 0);
                }
            } else {
                assert(sv[k] == lines_of(rest)[k - 1]);
            }
        }
    } else {
        assert(strip_comments_from(s, i) == rest);
    }
}

proof fn lemma_opening_kept(s: Seq<char>, i: int, p: int) -> (q: int)
    requires
        0 <= i <= s.len(),
        0 <= p < lines_from(s, i).len(),
        opens_with(lines_from(s, i)[p], "page"@),
        forall|k: int| p < k < lines_from(s, i).len() ==> !opens_with(#[trigger] lines_from(s, i)[k], "end_page"@),
    ensures
        0 <= q < lines_of(strip_comments_from(s, i)).len(),
        opens_with(lines_of(strip_comments_from(s, i))[q], "page"@),
        forall|k: int|
            q < k < lines_of(strip_comments_from(s, i)).len() ==> !opens_with(
                #[trigger] lines_of(strip_comments_from(s, i))[k],
                "end_page"@,
            ),
    decreases s.len() - i,
{
    lemma_line_end(s, i);
    let e = line_end(s, i);
    let line = s.subrange(i, e);
    let rest = if e < s.len() {
        strip_comments_from(s, e + 1)
    } else {
        Seq::<char>::empty()
    };
    let r = lines_from(s, i);
    assert(r == seq![strip_cr(line)] + lines_from(s, e + 1));
    assert(lines_of(Seq::<char>::empty()) == Seq::<Seq<char>>::empty());
    assert forall|m: int| 0 <= m < line.len() implies line[m] != '\n' by {
        assert(line[m] == s[i + m]);
    }
    if p == 0 {
        assert(strip_cr(line)[0] == line[0]);
        assert(line.len() > 0 && line[0] == '$');
        lemma_lines_cons(line, rest);
        assert(strip_comments_from(s, i) == line.push('\n') + rest);
        let sv = lines_of(strip_comments_from(s, i));
        if e < s.len() {
            assert forall|k: int| 0 <= k < lines_from(s, e + 1).len() implies !opens_with(
                #[trigger] lines_from(s, e + 1)[k],
                "end_page"@,
            ) by {
                assert(r[k + 1] == lines_from(s, e + 1)[k]);
            }
            lemma_no_closing_kept(s, e + 1);
        }
        assert forall|k: int| 0 < k < sv.len() implies !opens_with(#[trigger] sv[k], "end_page"@) by {
            assert(sv[k] == lines_of(rest)[k - 1]);
        }
        0
    } else {
        assert(e < s.len());
        assert forall|k: int| p - 1 < k < lines_from(s, e + 1).len() implies !opens_with(
            #[trigger] lines_from(s, e + 1)[k],
            "end_page"@,
        ) by {
            assert(r[k + 1] == lines_from(s, e + 1)[k]);
        }
        assert(r[p] == lines_from(s, e + 1)[p - 1]);
        let q1 = lemma_opening_kept(s, e + 1, p - 1);
        if line.len() > 0 && line[0] == '#' {
            assert(strip_comments_from(s, i) == rest);
            q1
        } else {
            lemma_lines_cons(line, rest);
            assert(strip_comments_from(s, i) == line.push('\n') + rest);
            let sv = lines_of(strip_comments_from(s, i));
            assert(sv[q1 + 1] == lines_of(rest)[q1]);
            assert forall|k: int| q1 + 1 < k < sv.len() implies !opens_with(#[trigger] sv[k], "end_page"@) by {
                assert(sv[k] == lines_of(rest)[k - 1]);
            }
            q1 + 1
        }
    }
}

/// A source with a line whose first directive is `page`, and no line after
/// it whose first directive is `end_page`, does not compile: there is no
/// document, so no page.
pub proof fn lemma_unclosed_page_fails(source: Seq<char>, p: int)
    requires
        0 <= p < lines_of(source).len(),
        opens_with(lines_of(source)[p], "page"@),
        forall|k: int| p < k < lines_of(source).len() ==> !opens_with(#[trigger] lines_of(source)[k], "end_page"@),
    ensures
        compile(source) is Err,
{
    let q = lemma_opening_kept(source, 0, p);
    let lines = lines_of(strip_comments(source));
    assert forall|k: int| q < k < lines.len() implies !opens_with(#[trigger] lines[k], "end_page"@) by {
        assert(lines[k] == lines_of(strip_comments_from(source, 0))[k]);
    }
    lemma_unclosed_from(lines, 0, q, initial_state());
}

/// Reload continuity: when the page that was shown is still in the new
/// source (at `j`) and the page count has changed, the reload shows a page
/// with the same structural hash, at `j` or before it; when the count is
/// unchanged the index is kept.
pub proof fn lemma_reload_follows_page(old: SlideView, source: Seq<char>, modified_time: u64, j: int)
    requires
        modified_time > old.last_modified_time,
        compile(source) is Ok,
        0 <= old.current_page < old.pages.len(),
        0 <= j < compile(source)->Ok_0.pages.len(),
        compile(source)->Ok_0.pages[j] == old.pages[old.current_page],
    ensures
        reloaded(old, source, modified_time) is Ok,
        old.pages.len() == compile(source)->Ok_0.pages.len() ==> reloaded(old, source, modified_time)->Ok_0.current_page
            == old.current_page,
        old.pages.len() != compile(source)->Ok_0.pages.len() ==> ({
            let new = reloaded(old, source, modified_time)->Ok_0;
            &&& 0 <= new.current_page <= j
            &&& spec_page_hash(new.pages[new.current_page]) == spec_page_hash(old.pages[old.current_page])
        }),
{
    let new_pages = compile(source)->Ok_0.pages;
    if old.pages.len() != new_pages.len() {
        let target = spec_page_hash(old.pages[old.current_page]);
        let hs = page_hashes(new_pages);
        assert(hs[j] == target);
        lemma_nearest_is_closest(target, hs);
        let r = nearest(target, hs);
        assert(hs[r] == target);
        if r > j {
            assert(hash_distance(hs[r], target) < hash_distance(hs[j], target));
        }
    }
}

} // verus!
