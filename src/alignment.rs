use vstd::prelude::*;
use vstd::slice::slice_subrange;

use crate::local_alignment::{
    alignment_of, lemma_alignment_bounds, lemma_exact_occurrence, lemma_no_common_character,
    run_smith_waterman,
};
use crate::script_text::{script_lines, split_script_lines, string_of};

verus! {

/// How many characters past the cursor the reference window reaches.
pub const LOOK_AHEAD: usize = 200;

/// How many characters before the cursor the reference window reaches.
pub const LOOK_BACK: usize = 30;

/// One line of the script: its text in both languages and the half-open range
/// `[start_idx, end_idx)` that its source-language text takes in the flattened script.
#[derive(Clone, Debug)]
pub struct Segment {
    pub id: usize,
    pub cn_text: String,
    pub en_text: String,
    pub start_idx: usize,
    pub end_idx: usize,
}

/// The script, flattened, with its segments and the reading cursor.
pub struct ScriptEngine {
    full_cn_text: Vec<char>,
    segments: Vec<Segment>,
    pub current_cursor: usize,
}

pub open spec fn covers(s: Segment, x: int) -> bool {
    s.start_idx <= x < s.end_idx
}

/// The segments cut `text` into consecutive, non-empty pieces, numbered in order.
pub open spec fn partitions(text: Seq<char>, segs: Seq<Segment>) -> bool {
    &&& forall|k: int|
        #![trigger segs[k]]
        0 <= k < segs.len() ==> {
            &&& segs[k].id == k
            &&& segs[k].start_idx < segs[k].end_idx <= text.len()
            &&& segs[k].cn_text@ == text.subrange(
                segs[k].start_idx as int,
                segs[k].end_idx as int,
            )
        }
    &&& forall|k: int|
        0 < k < segs.len() ==> #[trigger] segs[k].start_idx == segs[k - 1].end_idx
    &&& segs.len() == 0 ==> text.len() == 0
    &&& segs.len() > 0 ==> segs[0].start_idx == 0 && segs.last().end_idx == text.len()
}

/// `r` is the first segment that covers `x`, or `None` when none does.
pub open spec fn segment_found(segs: Seq<Segment>, x: int, r: Option<Segment>) -> bool {
    match r {
        Some(s) => exists|k: int|
            0 <= k < segs.len() && segs[k] == s && covers(segs[k], x) && forall|q: int|
                0 <= q < k ==> !covers(#[trigger] segs[q], x),
        None => forall|k: int| 0 <= k < segs.len() ==> !covers(#[trigger] segs[k], x),
    }
}

pub open spec fn window_start(cursor: int) -> int {
    if cursor >= LOOK_BACK { cursor - LOOK_BACK } else { 0 }
}

pub open spec fn window_end(cursor: int, len: int) -> int {
    if cursor + LOOK_AHEAD <= len { cursor + LOOK_AHEAD } else { len }
}

/// Where an accepted alignment of `h` ends in `text`, read from `cursor`:
/// `None` when the window or `h` is empty, when nothing aligns, or when the
/// score does not exceed one point per character of `h`.
pub open spec fn align_target(text: Seq<char>, cursor: int, h: Seq<char>) -> Option<int> {
    let s = window_start(cursor);
    let e = window_end(cursor, text.len() as int);
    if s >= e || h.len() == 0 {
        None
    } else {
        match alignment_of(text.subrange(s, e), h) {
            Some((k, score)) => if score > h.len() {
                Some(s + k)
            } else {
                None
            },
            None => None,
        }
    }
}

/// The cursor after an alignment: it moves only forward.
pub open spec fn advanced(cursor: int, target: Option<int>) -> int {
    match target {
        Some(g) => if g > cursor { g } else { cursor },
        None => cursor,
    }
}

/// The source-language texts of the segments, in order.
pub open spec fn cn_texts(segs: Seq<Segment>) -> Seq<Seq<char>> {
    segs.map_values(|s: Segment| s.cn_text@)
}

proof fn lemma_prefix_flatten(text: Seq<char>, segs: Seq<Segment>, n: int)
    requires
        partitions(text, segs),
        0 <= n <= segs.len(),
    ensures
        cn_texts(segs.take(n)).flatten() == text.take(
            if n == 0 {
                0
            } else {
                segs[n - 1].end_idx as int
            },
        ),
    decreases n,
{
    if n == 0 {
        assert(cn_texts(segs.take(0)) =~= Seq::<Seq<char>>::empty());
        assert(text.take(0) =~= Seq::<char>::empty());
    } else {
        lemma_prefix_flatten(text, segs, n - 1);
        let prev = cn_texts(segs.take(n - 1));
        let last = segs[n - 1];
        let a = last.start_idx as int;
        let b = last.end_idx as int;
        assert(cn_texts(segs.take(n)) == prev.push(last.cn_text@)) by {
            assert(cn_texts(segs.take(n)) =~= prev.push(last.cn_text@));
        }
        prev.lemma_flatten_push(last.cn_text@);
        assert(a == if n == 1 {
            0
        } else {
            segs[n - 2].end_idx as int
        }) by {
            if n > 1 {
                assert(segs[n - 1].start_idx == segs[n - 1 - 1].end_idx);
            }
        }
        assert(last.cn_text@ == text.subrange(a, b));
        assert(a < b <= text.len());
        assert(text.take(a) + text.subrange(a, b) == text.take(b)) by {
            assert(text.take(a) + text.subrange(a, b) =~= text.take(b));
        }
    }
}

proof fn lemma_some_segment_covers(text: Seq<char>, segs: Seq<Segment>, x: int, n: int)
    requires
        partitions(text, segs),
        1 <= n <= segs.len(),
        0 <= x < segs[n - 1].end_idx,
    ensures
        exists|k: int| 0 <= k < n && covers(#[trigger] segs[k], x),
    decreases n,
{
    if n > 1 && x < segs[n - 2].end_idx {
        lemma_some_segment_covers(text, segs, x, n - 1);
        let k = choose|k: int| 0 <= k < n - 1 && covers(#[trigger] segs[k], x);
        assert(covers(segs[k], x));
    } else if n > 1 {
        assert(segs[n - 1].start_idx == segs[n - 1 - 1].end_idx);
        assert(covers(segs[n - 1], x));
    } else {
        assert(covers(segs[n - 1], x));
    }
}

/// The segments of a well-formed engine, joined in order, give back the
/// flattened script; their ranges are non-empty and follow one another.
pub proof fn lemma_segments_rebuild_text(e: &ScriptEngine)
    requires
        e.wf(),
    ensures
        cn_texts(e.segs()).flatten() == e.text(),
        forall|k: int|
            0 <= k < e.segs().len() ==> (#[trigger] e.segs()[k]).start_idx < e.segs()[k].end_idx,
        forall|k: int|
            0 < k < e.segs().len() ==> #[trigger] e.segs()[k].start_idx == e.segs()[k - 1].end_idx,
{
    let segs = e.segs();
    let text = e.text();
    lemma_prefix_flatten(text, segs, segs.len() as int);
    assert(segs.take(segs.len() as int) =~= segs);
    assert(text.take(text.len() as int) =~= text);
}

/// A fragment that reads exactly as the script from the cursor on (and fits
/// the look-ahead) is accepted: the cursor moves to a position inside that
/// stretch of text, and the segment found there overlaps it.
pub proof fn lemma_exact_fragment_found(e: &ScriptEngine, h: Seq<char>)
    requires
        e.wf(),
        0 < h.len() <= LOOK_AHEAD,
        e.cursor() + h.len() <= e.text().len(),
        e.text().subrange(e.cursor() as int, e.cursor() + h.len()) == h,
    ensures
        align_target(e.text(), e.cursor() as int, h) is Some,
        e.cursor() <= advanced(e.cursor() as int, align_target(e.text(), e.cursor() as int, h))
            < e.cursor() + h.len(),
        forall|r: Option<Segment>|
            segment_found(
                e.segs(),
                advanced(e.cursor() as int, align_target(e.text(), e.cursor() as int, h)),
                r,
            ) ==> (r matches Some(seg) && seg.start_idx < e.cursor() + h.len() && e.cursor()
                < seg.end_idx),
{
    let text = e.text();
    let c = e.cursor() as int;
    let ws = window_start(c);
    let we = window_end(c, text.len() as int);
    let w = text.subrange(ws, we);
    let p = (c - ws) as nat;
    assert(w.subrange(p as int, (p + h.len()) as int) =~= h);
    lemma_exact_occurrence(w, h, p);
    let nc = advanced(c, align_target(text, c, h));
    assert(c <= nc < c + h.len());
    let segs = e.segs();
    assert(segs.len() > 0);
    lemma_some_segment_covers(text, segs, nc, segs.len() as int);
    assert forall|r: Option<Segment>| segment_found(segs, nc, r) implies (r matches Some(seg)
        && seg.start_idx < c + h.len() && c < seg.end_idx) by {
        let k0 = choose|k: int| 0 <= k < segs.len() && covers(#[trigger] segs[k], nc);
        assert(covers(segs[k0], nc));
    }
}

/// A fragment that shares no character with the window around the cursor
/// is not accepted, and the cursor stays where it is.
pub proof fn lemma_foreign_fragment_ignored(text: Seq<char>, cursor: int, h: Seq<char>)
    requires
        0 <= cursor,
        forall|a: int, b: int|
            window_start(cursor) <= a < window_end(cursor, text.len() as int) && 0 <= b < h.len()
                ==> text[a] != h[b],
    ensures
        align_target(text, cursor, h) is None,
        advanced(cursor, align_target(text, cursor, h)) == cursor,
{
    let ws = window_start(cursor);
    let we = window_end(cursor, text.len() as int);
    if ws < we && h.len() > 0 {
        let w = text.subrange(ws, we);
        assert forall|a: int, b: int| 0 <= a < w.len() && 0 <= b < h.len() implies w[a] != h[b] by {
            assert(w[a] == text[ws + a]);
        }
        lemma_no_common_character(w, h, w.len());
    }
}

fn copy_segment(s: &Segment) -> (r: Segment)
    ensures
        r == *s,
{
    Segment {
        id: s.id,
        cn_text: s.cn_text.clone(),
        en_text: s.en_text.clone(),
        start_idx: s.start_idx,
        end_idx: s.end_idx,
    }
}

impl ScriptEngine {
    pub closed spec fn text(&self) -> Seq<char> {
        self.full_cn_text@
    }

    pub closed spec fn segs(&self) -> Seq<Segment> {
        self.segments@
    }

    pub closed spec fn cursor(&self) -> usize {
        self.current_cursor
    }

    pub open spec fn wf(&self) -> bool {
        partitions(self.text(), self.segs())
    }

    /// Builds the engine from a script and its translation: one segment per
    /// non-blank line of the script, with the translated line of the same rank
    /// (or an empty text), and the cursor at 0.
    pub fn new(script_original: &str, script_translated: &str) -> (r: Self)
        ensures
            r.wf(),
            r.cursor() == 0,
            r.text() == script_lines(script_original@).flatten(),
            r.segs().len() == script_lines(script_original@).len(),
            forall|k: int|
                0 <= k < r.segs().len() ==> {
                    &&& (#[trigger] r.segs()[k]).cn_text@ == script_lines(script_original@)[k]
                    &&& r.segs()[k].en_text@ == if k < script_lines(script_translated@).len() {
                        script_lines(script_translated@)[k]
                    } else {
                        Seq::empty()
                    }
                },
    {
        let orig_lines = split_script_lines(script_original);
        let trans_lines = split_script_lines(script_translated);
        let ghost lines = script_lines(script_original@);
        let ghost tlines = script_lines(script_translated@);
        let mut segments: Vec<Segment> = Vec::new();
        let mut full_cn_text: Vec<char> = Vec::new();
        let mut i: usize = 0;
        proof {
            assert(lines.take(0).flatten() =~= Seq::<char>::empty());
        }
        while i < orig_lines.len()
            invariant
                i <= orig_lines@.len() == lines.len(),
                lines == script_lines(script_original@),
                tlines == script_lines(script_translated@),
                forall|k: int| 0 <= k < orig_lines@.len() ==> #[trigger] orig_lines@[k]@ == lines[k],
                trans_lines@.len() == tlines.len(),
                forall|k: int| 0 <= k < trans_lines@.len() ==> #[trigger] trans_lines@[k]@ == tlines[k],
                full_cn_text@ == lines.take(i as int).flatten(),
                segments@.len() == i,
                partitions(full_cn_text@, segments@),
                forall|k: int|
                    0 <= k < i ==> {
                        &&& (#[trigger] segments@[k]).cn_text@ == lines[k]
                        &&& segments@[k].en_text@ == if k < tlines.len() {
                            tlines[k]
                        } else {
                            Seq::empty()
                        }
                    },
            decreases orig_lines@.len() - i,
        {
            let line = &orig_lines[i];
            proof {
                crate::script_text::lemma_script_lines_nonempty(script_original@, i as int);
            }
            let cn = string_of(line);
            let en = if i < trans_lines.len() {
                string_of(&trans_lines[i])
            } else {
                String::new()
            };
            let start_idx = full_cn_text.len();
            let ghost before = full_cn_text@;
            let mut j: usize = 0;
            while j < line.len()
                invariant
                    j <= line@.len(),
                    full_cn_text@ == before + line@.take(j as int),
                decreases line@.len() - j,
            {
                full_cn_text.push(line[j]);
                j = j + 1;
                assert(full_cn_text@ =~= before + line@.take(j as int));
            }
            let end_idx = full_cn_text.len();
            proof {
                assert(line@.take(line@.len() as int) =~= line@);
                assert(lines.take(i as int + 1) =~= lines.take(i as int).push(lines[i as int]));
                lines.take(i as int).lemma_flatten_push(lines[i as int]);
                assert(full_cn_text@.subrange(start_idx as int, end_idx as int) =~= line@);
                assert forall|k: int| 0 <= k < segments@.len() implies full_cn_text@.subrange(
                    (#[trigger] segments@[k]).start_idx as int,
                    segments@[k].end_idx as int,
                ) == before.subrange(segments@[k].start_idx as int, segments@[k].end_idx as int) by {
                    assert(full_cn_text@.subrange(
                        segments@[k].start_idx as int,
                        segments@[k].end_idx as int,
                    ) =~= before.subrange(segments@[k].start_idx as int, segments@[k].end_idx as int));
                }
            }
            segments.push(Segment { id: i, cn_text: cn, en_text: en, start_idx, end_idx });
            i = i + 1;
        }
        proof {
            assert(lines.take(lines.len() as int) =~= lines);
        }
        ScriptEngine { full_cn_text, segments, current_cursor: 0 }
    }

    /// Moves the cursor back to the start of the script.
    pub fn reset_cursor(&mut self)
        ensures
            final(self).cursor() == 0,
            final(self).text() == old(self).text(),
            final(self).segs() == old(self).segs(),
    {
        self.current_cursor = 0;
    }

    /// Aligns a recognised fragment against the window around the cursor. On
    /// an accepted alignment the cursor moves to its end if that lies ahead,
    /// and the segment that covers the cursor is returned; else `None`.
    pub fn align(&mut self, hypothesis: &str) -> (r: Option<Segment>)
        ensures
            final(self).text() == old(self).text(),
            final(self).segs() == old(self).segs(),
            final(self).cursor() == advanced(
                old(self).cursor() as int,
                align_target(old(self).text(), old(self).cursor() as int, hypothesis@),
            ),
            final(self).cursor() >= old(self).cursor(),
            align_target(old(self).text(), old(self).cursor() as int, hypothesis@) is None ==> r
                is None,
            align_target(old(self).text(), old(self).cursor() as int, hypothesis@) is Some
                ==> segment_found(final(self).segs(), final(self).cursor() as int, r),
    {
        let cursor = self.current_cursor;
        let len = self.full_cn_text.len();
        let start: usize = if cursor >= LOOK_BACK {
            cursor - LOOK_BACK
        } else {
            0
        };
        let end: usize = if cursor <= len && len - cursor >= LOOK_AHEAD {
            cursor + LOOK_AHEAD
        } else {
            len
        };
        if start >= end {
            return None;
        }
        let hypothesis_chars = crate::script_text::chars_of(hypothesis);
        if hypothesis_chars.len() == 0 {
            return None;
        }
        let window = slice_subrange(self.full_cn_text.as_slice(), start, end);
        proof {
            lemma_alignment_bounds(window@, hypothesis_chars@);
        }
        match run_smith_waterman(window, hypothesis_chars.as_slice()) {
            Some((local_end_idx, score)) => {
                if score as usize > hypothesis_chars.len() {
                    let global_idx = start + local_end_idx;
                    if global_idx > self.current_cursor {
                        self.current_cursor = global_idx;
                    }
                    self.find_segment(self.current_cursor)
                } else {
                    None
                }
            },
            None => None,
        }
    }

    /// The first segment whose range covers `cursor`.
    pub fn find_segment(&self, cursor: usize) -> (r: Option<Segment>)
        ensures
            segment_found(self.segs(), cursor as int, r),
    {
        let mut k: usize = 0;
        while k < self.segments.len()
            invariant
                k <= self.segments@.len(),
                forall|q: int| 0 <= q < k ==> !covers(#[trigger] self.segments@[q], cursor as int),
            decreases self.segments@.len() - k,
        {
            let s = &self.segments[k];
            if cursor >= s.start_idx && cursor < s.end_idx {
                return Some(copy_segment(s));
            }
            k = k + 1;
        }
        None
    }
}

} // verus!
