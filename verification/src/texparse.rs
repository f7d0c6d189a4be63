use vstd::prelude::*;
use vstd::string::StringExecFns;

use crate::slide::{spec_new_slide, spec_type_num, SlideData, SlideType, SlideView};
use crate::text::{
    chars_of, copy_range, count_char, count_char_before, find_chars, find_from, lemma_find_from,
    lemma_rfind_before, matches_at, rfind_before, rfind_char, string_of,
};

verus! {

/// What opens a frame.
pub const BEGIN_FRAME: &'static str = "\\begin{frame}";

/// What closes a frame.
pub const END_FRAME: &'static str = "\\end{frame}";

/// What starts the appendix.
pub const APPENDIX: &'static str = "\\appendix";

/// What ends the preamble.
pub const BEGIN_DOCUMENT: &'static str = "\\begin{document}";

/// What ends the document proper.
pub const END_DOCUMENT: &'static str = "\\end{document}";

/// Why the frames of a stretch of text cannot be read.
#[derive(Debug, Clone, Copy, PartialEq, Eq, Structural)]
pub enum FrameError {
    /// A `\begin{frame}` stands on the first line: no line break comes
    /// before it.
    NoLineBreak,
    /// A frame has no `\end{frame}` after the start of its line.
    FrameNotEnded,
    /// A frame ends no later than where the search for it began, so the
    /// search would find the same frame again and again without end.
    NoProgress,
}

/// Why a Beamer document cannot be read.
#[derive(Debug, Clone, Copy, PartialEq, Eq, Structural)]
pub enum TexError {
    /// The text has no `\begin{document}`.
    NoBeginDocument,
    /// The text has no `\end{document}`.
    NoEndDocument,
    /// The frames of one part of the document cannot be read.
    Frame(FrameError),
}

/// The frames found from index `start` on: each is the pair of the index
/// where its line starts and the index just after its `\end{frame}`.
/// The search stops at the first `\begin{frame}` whose line starts after
/// `end`, or when no `\begin{frame}` is left. It fails where a
/// `\begin{frame}` has no line break before it, where no `\end{frame}`
/// follows the start of a frame's line, and where a frame ends no later
/// than the index its search started from.
pub open spec fn frame_spans(s: Seq<char>, start: int, end: int) -> Result<
    Seq<(int, int)>,
    FrameError,
>
    decreases s.len() - start,
{
    if start < 0 || start > s.len() {
        Ok(Seq::empty())
    } else {
        match find_from(s, BEGIN_FRAME@, start) {
            None => Ok(Seq::empty()),
            Some(q) => match rfind_before(s, '\n', q) {
                None => Err(FrameError::NoLineBreak),
                Some(nl) => {
                    let p = nl + 1;
                    if p > end {
                        Ok(Seq::empty())
                    } else {
                        match find_from(s, END_FRAME@, p) {
                            None => Err(FrameError::FrameNotEnded),
                            Some(e) => {
                                let se = e + END_FRAME@.len();
                                if se <= start {
                                    Err(FrameError::NoProgress)
                                } else {
                                    proof {
                                        lemma_find_from(s, END_FRAME@, p);
                                    }
                                    match frame_spans(s, se, end) {
                                        Ok(rest) => Ok(seq![(p, se)] + rest),
                                        Err(x) => Err(x),
                                    }
                                }
                            },
                        }
                    }
                },
            },
        }
    }
}

/// One step of the search for frames from index `start`: no more frames
/// (`Ok(None)`), an error, or the next frame as the index where its line
/// starts and the index just after its `\end{frame}` — whether or not that
/// frame ends after `start`.
pub open spec fn scan_step(s: Seq<char>, start: int, end: int) -> Result<Option<(int, int)>, FrameError> {
    match find_from(s, BEGIN_FRAME@, start) {
        None => Ok(None),
        Some(q) => match rfind_before(s, '\n', q) {
            None => Err(FrameError::NoLineBreak),
            Some(nl) => if nl + 1 > end {
                Ok(None)
            } else {
                match find_from(s, END_FRAME@, nl + 1) {
                    None => Err(FrameError::FrameNotEnded),
                    Some(e) => Ok(Some((nl + 1, e + END_FRAME@.len()))),
                }
            },
        },
    }
}

/// `frame_spans` takes steps of `scan_step` for as long as each frame ends
/// after the index its step started from.
pub proof fn lemma_frame_spans_unfold(s: Seq<char>, start: int, end: int)
    requires
        0 <= start <= s.len(),
    ensures
        frame_spans(s, start, end) == match scan_step(s, start, end) {
            Err(e) => Err(e),
            Ok(None) => Ok(Seq::empty()),
            Ok(Some((p, se))) => if se <= start {
                Err(FrameError::NoProgress)
            } else {
                prepend_spans(seq![(p, se)], frame_spans(s, se, end))
            },
        },
{
}

/// What a step that finds a frame tells: the frame's line starts at `p`,
/// after a newline and not after `end`; a `\begin{frame}` stands at some
/// `q` at or after both `start` and `p` with no newline between `p` and
/// `q`, and no earlier one at or after `start`; the frame's text ends with
/// the first `\end{frame}` at or after `p`.
pub proof fn lemma_scan_step(s: Seq<char>, start: int, end: int)
    requires
        0 <= start <= s.len(),
    ensures
        scan_step(s, start, end) matches Ok(Some((p, se))) ==> {
            &&& 1 <= p <= end
            &&& s[p - 1] == '\n'
            &&& p + 11 <= se <= s.len()
            &&& matches_at(s, END_FRAME@, se - 11)
            &&& forall|j: int| p <= j < se - 11 ==> !matches_at(s, END_FRAME@, j)
            &&& exists|q: int|
                #![trigger matches_at(s, BEGIN_FRAME@, q)]
                {
                    &&& start <= q
                    &&& p <= q
                    &&& matches_at(s, BEGIN_FRAME@, q)
                    &&& find_from(s, BEGIN_FRAME@, start) == Some(q)
                    &&& forall|k: int| p <= k < q ==> s[k] != '\n'
                }
        },
{
    reveal_strlit("\\begin{frame}");
    reveal_strlit("\\end{frame}");
    lemma_find_from(s, BEGIN_FRAME@, start);
    match find_from(s, BEGIN_FRAME@, start) {
        None => {},
        Some(q) => {
            lemma_rfind_before(s, '\n', q);
            match rfind_before(s, '\n', q) {
                None => {},
                Some(nl) => {
                    lemma_find_from(s, END_FRAME@, nl + 1);
                    assert(matches_at(s, BEGIN_FRAME@, q));
                },
            }
        },
    }
}

/// `\end{frame}` holds no newline and no backslash after its first
/// character; `\begin{frame}` holds no backslash after its first character.
proof fn lemma_markers()
    ensures
        END_FRAME@.len() == 11,
        BEGIN_FRAME@.len() == 13,
        forall|k: int| 0 <= k < 11 ==> END_FRAME@[k] != '\n',
        forall|k: int| 1 <= k < 11 ==> END_FRAME@[k] != '\\',
        END_FRAME@[0] == '\\',
        BEGIN_FRAME@[0] == '\\',
        BEGIN_FRAME@[1] != END_FRAME@[1],
        forall|k: int| 1 <= k < 13 ==> BEGIN_FRAME@[k] != '\\',
{
    reveal_strlit("\\begin{frame}");
    reveal_strlit("\\end{frame}");
}

/// A search that finds a frame ending no later than where it started would
/// find the very same frame again from the end of that frame, and so on
/// for ever: this is the case that `FrameError::NoProgress` reports.
pub proof fn lemma_stall_repeats(s: Seq<char>, start: int, end: int)
    requires
        0 <= start <= s.len(),
        scan_step(s, start, end) matches Ok(Some((p, se))) && se <= start,
    ensures
        scan_step(s, scan_step(s, start, end)->Ok_0->Some_0.1, end) == scan_step(s, start, end),
{
    lemma_scan_step(s, start, end);
    lemma_markers();
    let (p, se) = scan_step(s, start, end)->Ok_0->Some_0;
    let q = find_from(s, BEGIN_FRAME@, start)->Some_0;
    lemma_find_from(s, BEGIN_FRAME@, start);
    lemma_find_from(s, BEGIN_FRAME@, se);
    // The first `\begin{frame}` from `se` on is at or before `q`, and after `p`.
    let q2 = find_from(s, BEGIN_FRAME@, se)->Some_0;
    assert(find_from(s, BEGIN_FRAME@, se) is Some) by {
        if find_from(s, BEGIN_FRAME@, se) is None {
            assert(!matches_at(s, BEGIN_FRAME@, q));
        }
    }
    assert(q2 <= q);
    assert(p < q2);
    // Its line starts at `p` too.
    lemma_rfind_before(s, '\n', q);
    lemma_rfind_before(s, '\n', q2);
    let nl = rfind_before(s, '\n', q)->Some_0;
    assert(nl == p - 1);
    assert(rfind_before(s, '\n', q2) == Some(nl)) by {
        match rfind_before(s, '\n', q2) {
            None => {
                assert(s[nl] == '\n');
            },
            Some(nl2) => {
                if nl2 > nl {
                    assert(s[nl2] == '\n');
                }
                if nl2 < nl {
                    assert(s[nl] == '\n');
                }
            },
        }
    }
}

/// The frames that a search finds run each from the start of a line
/// (which is not after `end`) through a `\begin{frame}` to the first
/// `\end{frame}` after that start; they end after `start`, come in order
/// and do not overlap.
pub proof fn lemma_frame_spans_shape(s: Seq<char>, start: int, end: int)
    requires
        0 <= start <= s.len(),
    ensures
        frame_spans(s, start, end) matches Ok(spans) ==> {
            &&& forall|k: int|
                0 <= k < spans.len() ==> {
                    let (p, se) = #[trigger] spans[k];
                    &&& 1 <= p <= end
                    &&& s[p - 1] == '\n'
                    &&& start < se <= s.len()
                    &&& matches_at(s, END_FRAME@, se - 11)
                    &&& forall|j: int| p <= j < se - 11 ==> !matches_at(s, END_FRAME@, j)
                    &&& exists|q: int|
                        #![trigger matches_at(s, BEGIN_FRAME@, q)]
                        p <= q && q + 13 <= se - 11 && matches_at(s, BEGIN_FRAME@, q)
                }
            &&& forall|k: int| 0 <= k < spans.len() - 1 ==> (#[trigger] spans[k]).1 <= spans[k + 1].0
        },
    decreases s.len() - start,
{
    lemma_frame_spans_unfold(s, start, end);
    lemma_scan_step(s, start, end);
    lemma_markers();
    if let Ok(Some((p, se))) = scan_step(s, start, end) {
        if se > start {
            lemma_frame_spans_shape(s, se, end);
            lemma_frame_spans_unfold(s, se, end);
            lemma_scan_step(s, se, end);
            if let Ok(spans) = frame_spans(s, start, end) {
                let rest = frame_spans(s, se, end)->Ok_0;
                assert(spans == seq![(p, se)] + rest);
                let e = se - 11;
                let q = find_from(s, BEGIN_FRAME@, start)->Some_0;
                lemma_find_from(s, BEGIN_FRAME@, start);
                // The `\begin{frame}` at `q` comes before the `\end{frame}`.
                assert(q < e) by {
                    if q >= e {
                        if q < se {
                            // A backslash inside `\end{frame}`, or the same
                            // first two characters.
                            assert(s.subrange(q, q + 13)[0] == BEGIN_FRAME@[0]);
                            assert(s[q] == '\\');
                            if q > e {
                                assert(s.subrange(e, e + 11)[q - e] == END_FRAME@[q - e]);
                                assert(s[q] == END_FRAME@[q - e]);
                            } else {
                                assert(s.subrange(q, q + 13)[1] == BEGIN_FRAME@[1]);
                                assert(s.subrange(e, e + 11)[1] == END_FRAME@[1]);
                                assert(s[q + 1] == BEGIN_FRAME@[1]);
                                assert(s[e + 1] == END_FRAME@[1]);
                            }
                        } else {
                            // The search from `se` finds the same frame
                            // again, which makes no progress.
                            lemma_find_from(s, BEGIN_FRAME@, se);
                            assert(find_from(s, BEGIN_FRAME@, se) == Some(q)) by {
                                let q2 = find_from(s, BEGIN_FRAME@, se);
                                if q2 is None {
                                    assert(!matches_at(s, BEGIN_FRAME@, q));
                                } else {
                                    assert(!matches_at(s, BEGIN_FRAME@, q2->Some_0));
                                }
                            }
                            assert(scan_step(s, se, end) == scan_step(s, start, end));
                        }
                    }
                }
                assert(q + 13 <= e) by {
                    if q + 13 > e {
                        assert(s.subrange(e, e + 11)[0] == END_FRAME@[0]);
                        assert(s[e] == '\\');
                        assert(s.subrange(q, q + 13)[e - q] == BEGIN_FRAME@[e - q]);
                        assert(s[e] == BEGIN_FRAME@[e - q]);
                    }
                }
                assert(matches_at(s, BEGIN_FRAME@, q));
                // The next frame starts no earlier than this one ends.
                if rest.len() > 0 {
                    let (p2, se2) = rest[0];
                    assert(spans[1] == rest[0]);
                    assert(se <= p2) by {
                        if p2 < se {
                            if p2 - 1 >= e {
                                assert(s.subrange(e, e + 11)[p2 - 1 - e] == END_FRAME@[p2 - 1 - e]);
                                assert(s[p2 - 1] == END_FRAME@[p2 - 1 - e]);
                            } else {
                                assert(matches_at(s, END_FRAME@, e));
                                assert(se2 <= se);
                            }
                        }
                    }
                }
                assert forall|k: int| 0 <= k < spans.len() - 1 implies (#[trigger] spans[k]).1
                    <= spans[k + 1].0 by {
                    if k > 0 {
                        assert(spans[k] == rest[k - 1]);
                        assert(spans[k + 1] == rest[k]);
                    }
                }
                assert forall|k: int| 0 <= k < spans.len() implies {
                    let (p, se) = #[trigger] spans[k];
                    &&& 1 <= p <= end
                    &&& s[p - 1] == '\n'
                    &&& start < se <= s.len()
                    &&& matches_at(s, END_FRAME@, se - 11)
                    &&& forall|j: int| p <= j < se - 11 ==> !matches_at(s, END_FRAME@, j)
                    &&& exists|q: int|
                        #![trigger matches_at(s, BEGIN_FRAME@, q)]
                        p <= q && q + 13 <= se - 11 && matches_at(s, BEGIN_FRAME@, q)
                } by {
                    if k > 0 {
                        assert(spans[k] == rest[k - 1]);
                    }
                }
            }
        }
    }
}

/// The line (from 1) on which index `i` of `s` stands, cast to `i32` as the
/// frame fields hold it.
pub open spec fn line_of(s: Seq<char>, i: int) -> i32 {
    (count_char(s.take(i), '\n') + 1) as i32
}

/// The frame that a span of `s` gives.
pub open spec fn frame_slide(s: Seq<char>, span: (int, int), t: SlideType) -> SlideView {
    spec_new_slide(
        true,
        line_of(s, span.0),
        line_of(s, span.1),
        s.subrange(span.0, span.1),
        None,
        spec_type_num(t),
    )
}

/// The frames that spans of `s` give.
pub open spec fn frames_of(s: Seq<char>, spans: Seq<(int, int)>, t: SlideType) -> Seq<SlideView> {
    spans.map_values(|sp: (int, int)| frame_slide(s, sp, t))
}

/// What `get_frames` gives back for a result of `frame_spans`.
pub open spec fn frames_result(s: Seq<char>, r: Result<Seq<(int, int)>, FrameError>, t: SlideType) -> Result<
    Seq<SlideView>,
    FrameError,
> {
    match r {
        Ok(spans) => Ok(frames_of(s, spans, t)),
        Err(e) => Err(e),
    }
}

/// The views of a vector of frames.
pub open spec fn views(v: Seq<SlideData>) -> Seq<SlideView> {
    v.map_values(|d: SlideData| d@)
}

/// The views of a result of frames.
pub open spec fn result_views(r: Result<Vec<SlideData>, FrameError>) -> Result<
    Seq<SlideView>,
    FrameError,
> {
    match r {
        Ok(v) => Ok(views(v@)),
        Err(e) => Err(e),
    }
}

/// Puts found spans in front of the result of a later search.
pub open spec fn prepend_spans(
    acc: Seq<(int, int)>,
    r: Result<Seq<(int, int)>, FrameError>,
) -> Result<Seq<(int, int)>, FrameError> {
    match r {
        Ok(rest) => Ok(acc + rest),
        Err(e) => Err(e),
    }
}

/// The frames of `contents` from index `start` on, as `frame_spans` finds
/// them, each included, with its first and last line, its text, its
/// label, the default image and the given slide type.
pub fn get_frames(contents: &Vec<char>, start: usize, end: usize, slidetype: SlideType) -> (r:
    Result<Vec<SlideData>, FrameError>)
    requires
        start <= contents@.len(),
    ensures
        result_views(r) == frames_result(
            contents@,
            frame_spans(contents@, start as int, end as int),
            slidetype,
        ),
{
    let ghost s = contents@;
    let begin = chars_of(BEGIN_FRAME);
    let fin = chars_of(END_FRAME);
    proof {
        reveal_strlit("\\begin{frame}");
        reveal_strlit("\\end{frame}");
    }
    let mut slides: Vec<SlideData> = Vec::new();
    let mut pos = start;
    let ghost mut acc: Seq<(int, int)> = Seq::empty();
    loop
        invariant
            s == contents@,
            begin@ == BEGIN_FRAME@,
            fin@ == END_FRAME@,
            begin@.len() == 13,
            fin@.len() == 11,
            pos <= s.len(),
            frame_spans(s, start as int, end as int) == prepend_spans(
                acc,
                frame_spans(s, pos as int, end as int),
            ),
            views(slides@) == frames_of(s, acc, slidetype),
        decreases s.len() - pos,
    {
        let q = match find_chars(contents, &begin, pos) {
            None => {
                assert(acc + Seq::<(int, int)>::empty() =~= acc);
                return Ok(slides);
            },
            Some(q) => q,
        };
        proof {
            lemma_find_from(s, begin@, pos as int);
        }
        let nl = match rfind_char(contents, '\n', q) {
            None => {
                return Err(FrameError::NoLineBreak);
            },
            Some(nl) => nl,
        };
        proof {
            lemma_rfind_before(s, '\n', q as int);
        }
        let p = nl + 1;
        if p > end {
            assert(acc + Seq::<(int, int)>::empty() =~= acc);
            return Ok(slides);
        }
        let e = match find_chars(contents, &fin, p) {
            None => {
                return Err(FrameError::FrameNotEnded);
            },
            Some(e) => e,
        };
        proof {
            lemma_find_from(s, fin@, p as int);
        }
        let n = contents.len();
        assert(e + fin@.len() <= n);
        let se = e + fin.len();
        if se <= pos {
            return Err(FrameError::NoProgress);
        }
        let nstart = count_char_before(contents, '\n', p);
        let nend = count_char_before(contents, '\n', se);
        let linestart = #[verifier::truncate] ((nstart as u128 + 1) as i32);
        let lineend = #[verifier::truncate] ((nend as u128 + 1) as i32);
        let text = string_of(&copy_range(contents, p, se));
        let d = SlideData::new(true, linestart, lineend, text, None, slidetype.to_num());
        let ghost old_slides = slides@;
        slides.push(d);
        proof {
            assert(d@ == frame_slide(s, (p as int, se as int), slidetype));
            assert(views(slides@) =~= views(old_slides).push(d@));
            assert(frames_of(s, acc.push((p as int, se as int)), slidetype) =~= frames_of(
                s,
                acc,
                slidetype,
            ).push(frame_slide(s, (p as int, se as int), slidetype)));
            let rest = frame_spans(s, se as int, end as int);
            match rest {
                Ok(r) => {
                    assert(acc + (seq![(p as int, se as int)] + r) =~= acc.push(
                        (p as int, se as int),
                    ) + r);
                },
                Err(_) => {},
            }
            acc = acc.push((p as int, se as int));
        }
        pos = se;
    }
}


// ---------------------------------------------------------------------------
// Whole documents
// ---------------------------------------------------------------------------

/// The model of a Beamer document: the text up to and including
/// `\begin{document}`, and the main, appendix and unused frames.
pub struct BeamerView {
    pub preamble: Seq<char>,
    pub slides: Seq<SlideView>,
    pub appendix: Seq<SlideView>,
    pub unused: Seq<SlideView>,
}

/// The frames of `ss` whose slide type number is `n`, in order.
pub open spec fn of_type(ss: Seq<SlideView>, n: u8) -> Seq<SlideView>
    decreases ss.len(),
{
    if ss.len() == 0 {
        Seq::empty()
    } else {
        of_type(ss.drop_last(), n) + if ss.last().slidetype == n {
            seq![ss.last()]
        } else {
            Seq::empty()
        }
    }
}

/// Every frame of `ss` has slide type number `n`.
pub open spec fn all_of_type(ss: Seq<SlideView>, n: u8) -> bool {
    forall|i: int| 0 <= i < ss.len() ==> #[trigger] ss[i].slidetype == n
}

/// Main frames are of type 0, appendix frames of type 1, unused frames of
/// type 2.
pub open spec fn well_typed(v: BeamerView) -> bool {
    &&& all_of_type(v.slides, 0)
    &&& all_of_type(v.appendix, 1)
    &&& all_of_type(v.unused, 2)
}

/// All frames of a document: main, then appendix, then unused ones.
pub open spec fn all_slides(v: BeamerView) -> Seq<SlideView> {
    v.slides + v.appendix + v.unused
}

/// What `BeamerContents::parse` reads from a text.
pub open spec fn spec_parse(s: Seq<char>) -> Result<BeamerView, TexError> {
    match find_from(s, BEGIN_DOCUMENT@, 0) {
        None => Err(TexError::NoBeginDocument),
        Some(b) => {
            let p = b + BEGIN_DOCUMENT@.len();
            match find_from(s, END_DOCUMENT@, 0) {
                None => Err(TexError::NoEndDocument),
                Some(end) => {
                    let parts: Result<(Seq<(int, int)>, Seq<(int, int)>), FrameError> = match find_from(
                        s,
                        APPENDIX@,
                        p,
                    ) {
                        Some(a) => match frame_spans(s, a, end) {
                            Err(e) => Err(e),
                            Ok(ap) => match frame_spans(s, p, a) {
                                Err(e) => Err(e),
                                Ok(mn) => Ok((mn, ap)),
                            },
                        },
                        None => match frame_spans(s, p, end) {
                            Err(e) => Err(e),
                            Ok(mn) => Ok((mn, Seq::empty())),
                        },
                    };
                    match parts {
                        Err(e) => Err(TexError::Frame(e)),
                        Ok((mn, ap)) => match frame_spans(s, end, s.len() as int) {
                            Err(e) => Err(TexError::Frame(e)),
                            Ok(un) => Ok(
                                BeamerView {
                                    preamble: s.take(p),
                                    slides: frames_of(s, mn, SlideType::Main),
                                    appendix: frames_of(s, ap, SlideType::Appendix),
                                    unused: frames_of(s, un, SlideType::Unused),
                                },
                            ),
                        },
                    }
                },
            }
        },
    }
}

/// Two newlines.
pub open spec fn blank() -> Seq<char> {
    seq!['\n', '\n']
}

/// The texts of the included frames of `ss`, each followed by two newlines.
pub open spec fn section(ss: Seq<SlideView>) -> Seq<char>
    decreases ss.len(),
{
    if ss.len() == 0 {
        Seq::empty()
    } else {
        section(ss.drop_last()) + if ss.last().included {
            ss.last().content + blank()
        } else {
            Seq::empty()
        }
    }
}

/// The text of a document with only its included frames: the preamble,
/// the main frames, `\appendix`, the appendix frames, `\end{document}`
/// and the unused frames, each part followed by two newlines.
pub open spec fn document_text(v: BeamerView) -> Seq<char> {
    v.preamble + blank() + section(v.slides) + APPENDIX@ + blank() + section(v.appendix)
        + END_DOCUMENT@ + blank() + section(v.unused)
}

/// What is written for frames: each included frame's own text followed by
/// two newlines, nothing for a frame that is not included, and the writing
/// of two lists one after the other is the writing of the first followed by
/// that of the second.
pub proof fn lemma_section_writes_contents(ss: Seq<SlideView>, tt: Seq<SlideView>, sv: SlideView)
    ensures
        section(Seq::empty()) == Seq::<char>::empty(),
        section(seq![sv]) == if sv.included {
            sv.content + seq!['\n', '\n']
        } else {
            Seq::<char>::empty()
        },
        section(ss + tt) == section(ss) + section(tt),
    decreases tt.len(),
{
    assert(seq![sv].drop_last() =~= Seq::<SlideView>::empty());
    assert(section(Seq::<SlideView>::empty()) == Seq::<char>::empty());
    assert(seq![sv].len() == 1 && seq![sv].last() == sv);
    assert(section(seq![sv]) == section(Seq::<SlideView>::empty()) + if sv.included {
        sv.content + blank()
    } else {
        Seq::<char>::empty()
    });
    assert(section(seq![sv]) =~= if sv.included {
        sv.content + seq!['\n', '\n']
    } else {
        Seq::<char>::empty()
    });
    if tt.len() == 0 {
        assert(ss + tt =~= ss);
        assert(section(ss) + section(tt) =~= section(ss));
    } else {
        lemma_section_writes_contents(ss, tt.drop_last(), sv);
        assert((ss + tt).drop_last() =~= ss + tt.drop_last());
        assert((ss + tt).last() == tt.last());
        assert(section(ss + tt) =~= section(ss) + section(tt));
    }
}

/// The written document is, in this order: the preamble, a blank line,
/// the main frames, `\appendix`, a blank line, the appendix frames,
/// `\end{document}`, a blank line and the unused frames.
pub proof fn lemma_document_layout(v: BeamerView)
    ensures
        document_text(v) == v.preamble + seq!['\n', '\n'] + section(v.slides) + seq![
            '\\',
            'a',
            'p',
            'p',
            'e',
            'n',
            'd',
            'i',
            'x',
            '\n',
            '\n',
        ] + section(v.appendix) + seq![
            '\\',
            'e',
            'n',
            'd',
            '{',
            'd',
            'o',
            'c',
            'u',
            'm',
            'e',
            'n',
            't',
            '}',
            '\n',
            '\n',
        ] + section(v.unused),
{
    reveal_strlit("\\appendix");
    reveal_strlit("\\end{document}");
    assert(APPENDIX@ + blank() =~= seq!['\\', 'a', 'p', 'p', 'e', 'n', 'd', 'i', 'x', '\n', '\n']);
    assert(END_DOCUMENT@ + blank() =~= seq![
        '\\',
        'e',
        'n',
        'd',
        '{',
        'd',
        'o',
        'c',
        'u',
        'm',
        'e',
        'n',
        't',
        '}',
        '\n',
        '\n',
    ]);
    assert(document_text(v) =~= v.preamble + blank() + section(v.slides) + (APPENDIX@ + blank())
        + section(v.appendix) + (END_DOCUMENT@ + blank()) + section(v.unused));
}

/// Sorting by type keeps a frame exactly when it has the type, and sorting
/// two lists one after the other sorts the first and then the second.
pub proof fn lemma_of_type_keeps(ss: Seq<SlideView>, tt: Seq<SlideView>, sv: SlideView, n: u8)
    ensures
        of_type(seq![sv], n) == if sv.slidetype == n {
            seq![sv]
        } else {
            Seq::<SlideView>::empty()
        },
        of_type(ss + tt, n) == of_type(ss, n) + of_type(tt, n),
    decreases tt.len(),
{
    assert(seq![sv].drop_last() =~= Seq::<SlideView>::empty());
    assert(seq![sv].len() == 1 && seq![sv].last() == sv);
    assert(of_type(Seq::<SlideView>::empty(), n) == Seq::<SlideView>::empty());
    assert(of_type(seq![sv], n) =~= if sv.slidetype == n {
        seq![sv]
    } else {
        Seq::<SlideView>::empty()
    });
    if tt.len() == 0 {
        assert(ss + tt =~= ss);
        assert(of_type(ss, n) + of_type(tt, n) =~= of_type(ss, n));
    } else {
        lemma_of_type_keeps(ss, tt.drop_last(), sv, n);
        assert((ss + tt).drop_last() =~= ss + tt.drop_last());
        assert((ss + tt).last() == tt.last());
        assert(of_type(ss + tt, n) =~= of_type(ss, n) + of_type(tt, n));
    }
}

/// The frames of `ss` sorted into the types `n` picks: `of_type` keeps
/// only frames of that type.
pub proof fn lemma_of_type_all(ss: Seq<SlideView>, n: u8)
    ensures
        all_of_type(of_type(ss, n), n),
        of_type(ss, n).len() <= ss.len(),
    decreases ss.len(),
{
    if ss.len() > 0 {
        lemma_of_type_all(ss.drop_last(), n);
    }
}

/// Sorting frames by type loses none and adds none: when every type number
/// is at most 2, the three sorted lists together are as long as the input.
pub proof fn lemma_of_type_partition(ss: Seq<SlideView>)
    requires
        forall|i: int| 0 <= i < ss.len() ==> #[trigger] ss[i].slidetype <= 2,
    ensures
        of_type(ss, 0).len() + of_type(ss, 1).len() + of_type(ss, 2).len() == ss.len(),
    decreases ss.len(),
{
    if ss.len() > 0 {
        lemma_of_type_partition(ss.drop_last());
        assert(ss.drop_last().len() + 1 == ss.len());
        assert(ss.last().slidetype <= 2);
    }
}

/// The preamble of a read document is the text up to and including its
/// first `\begin{document}`.
pub proof fn lemma_parse_preamble(s: Seq<char>)
    ensures
        spec_parse(s) matches Ok(v) ==> {
            &&& v.preamble.len() >= 16
            &&& v.preamble == s.take(v.preamble.len() as int)
            &&& matches_at(s, BEGIN_DOCUMENT@, v.preamble.len() - 16)
            &&& forall|j: int|
                0 <= j < v.preamble.len() - 16 ==> !matches_at(s, BEGIN_DOCUMENT@, j)
        },
{
    reveal_strlit("\\begin{document}");
    lemma_find_from(s, BEGIN_DOCUMENT@, 0);
}

/// A Beamer document, read into its preamble and its three kinds of frames.
pub struct BeamerContents {
    preamble: String,
    slides: Vec<SlideData>,
    appendix: Vec<SlideData>,
    unused: Vec<SlideData>,
}

impl View for BeamerContents {
    type V = BeamerView;

    closed spec fn view(&self) -> BeamerView {
        BeamerView {
            preamble: self.preamble@,
            slides: views(self.slides@),
            appendix: views(self.appendix@),
            unused: views(self.unused@),
        }
    }
}

impl BeamerContents {
    /// Every main frame is of type 0, every appendix frame of type 1 and
    /// every unused frame of type 2.
    #[verifier::type_invariant]
    closed spec fn inv(self) -> bool {
        well_typed(self@)
    }

    /// A document from a preamble and frames, each frame put with the
    /// frames of its type, in the order given.
    pub fn from_slides(preamble: String, all_slides: Vec<SlideData>) -> (r: BeamerContents)
        requires
            forall|i: int| 0 <= i < all_slides@.len() ==> #[trigger] all_slides@[i].slidetype <= 2,
        ensures
            r@.preamble == preamble@,
            r@.slides == of_type(views(all_slides@), 0),
            r@.appendix == of_type(views(all_slides@), 1),
            r@.unused == of_type(views(all_slides@), 2),
    {
        let ghost all = views(all_slides@);
        let mut slides: Vec<SlideData> = Vec::new();
        let mut appendix: Vec<SlideData> = Vec::new();
        let mut unused: Vec<SlideData> = Vec::new();
        for s in it: all_slides
            invariant
                all == views(it.seq()),
                forall|i: int| 0 <= i < it.seq().len() ==> #[trigger] it.seq()[i].slidetype <= 2,
                views(slides@) == of_type(all.take(it.index() as int), 0),
                views(appendix@) == of_type(all.take(it.index() as int), 1),
                views(unused@) == of_type(all.take(it.index() as int), 2),
        {
            let ghost k = it.index() as int;
            let ghost pre = all.take(k);
            assert(all.take(k + 1).drop_last() =~= pre);
            assert(all.take(k + 1).last() == s@);
            let ghost s_view = s@;
            let ghost (a0, a1, a2) = (views(slides@), views(appendix@), views(unused@));
            match SlideType::from_num(s.slidetype).unwrap() {
                SlideType::Main => slides.push(s),
                SlideType::Appendix => appendix.push(s),
                SlideType::Unused => unused.push(s),
            }
            assert(views(slides@) =~= of_type(all.take(k + 1), 0));
            assert(views(appendix@) =~= of_type(all.take(k + 1), 1));
            assert(views(unused@) =~= of_type(all.take(k + 1), 2));
        }
        assert(all.take(all.len() as int) =~= all);
        proof {
            lemma_of_type_all(all, 0);
            lemma_of_type_all(all, 1);
            lemma_of_type_all(all, 2);
        }
        BeamerContents { preamble, slides, appendix, unused }
    }

    /// Reads a Beamer document: the preamble runs up to and including the
    /// first `\begin{document}`; the main frames come after it and before
    /// the first `\appendix` that follows it (or before the first
    /// `\end{document}` if there is none); the appendix frames come after
    /// that `\appendix`, before `\end{document}`; the unused frames come
    /// after `\end{document}`. The appendix frames are read first, then the
    /// main and then the unused ones: the first of them that cannot be read
    /// gives the error.
    pub fn parse(contents: &str) -> (r: Result<BeamerContents, TexError>)
        ensures
            match spec_parse(contents@) {
                Ok(v) => r matches Ok(b) && b@ == v,
                Err(e) => r matches Err(x) && x == e,
            },
    {
        let s = chars_of(contents);
        let bd = chars_of(BEGIN_DOCUMENT);
        let ed = chars_of(END_DOCUMENT);
        let ap = chars_of(APPENDIX);
        proof {
            reveal_strlit("\\begin{document}");
            reveal_strlit("\\end{document}");
            reveal_strlit("\\appendix");
        }
        let b = match find_chars(&s, &bd, 0) {
            None => {
                return Err(TexError::NoBeginDocument);
            },
            Some(b) => b,
        };
        proof {
            lemma_find_from(s@, bd@, 0);
        }
        let n = s.len();
        let p = b + bd.len();
        let end = match find_chars(&s, &ed, 0) {
            None => {
                return Err(TexError::NoEndDocument);
            },
            Some(e) => e,
        };
        proof {
            lemma_find_from(s@, ed@, 0);
        }
        let a = find_chars(&s, &ap, p);
        proof {
            lemma_find_from(s@, ap@, p as int);
        }
        let (slides, appendix) = match a {
            Some(a) => {
                let appendix = match get_frames(&s, a, end, SlideType::Appendix) {
                    Ok(v) => v,
                    Err(e) => {
                        return Err(TexError::Frame(e));
                    },
                };
                let slides = match get_frames(&s, p, a, SlideType::Main) {
                    Ok(v) => v,
                    Err(e) => {
                        return Err(TexError::Frame(e));
                    },
                };
                (slides, appendix)
            },
            None => {
                let slides = match get_frames(&s, p, end, SlideType::Main) {
                    Ok(v) => v,
                    Err(e) => {
                        return Err(TexError::Frame(e));
                    },
                };
                let appendix: Vec<SlideData> = Vec::new();
                assert(views(appendix@) =~= frames_of(s@, Seq::empty(), SlideType::Appendix));
                (slides, appendix)
            },
        };
        let unused = match get_frames(&s, end, n, SlideType::Unused) {
            Ok(v) => v,
            Err(e) => {
                return Err(TexError::Frame(e));
            },
        };
        let preamble = string_of(&copy_range(&s, 0, p));
        assert(s@.subrange(0, p as int) =~= s@.take(p as int));
        let r = BeamerContents { preamble, slides, appendix, unused };
        assert(r@ == spec_parse(contents@).unwrap());
        Ok(r)
    }

    /// The document written back with only its included frames (see
    /// `document_text`).
    pub fn to_string(&self) -> (r: String)
        ensures
            r@ == document_text(self@),
    {
        proof {
            reveal_strlit("\n\n");
        }
        let mut out = String::new();
        out.append(self.preamble.as_str());
        out.append("\n\n");
        push_section(&mut out, &self.slides);
        out.append(APPENDIX);
        out.append("\n\n");
        push_section(&mut out, &self.appendix);
        out.append(END_DOCUMENT);
        out.append("\n\n");
        push_section(&mut out, &self.unused);
        assert(out@ =~= document_text(self@));
        out
    }

    /// The text up to and including `\begin{document}`.
    pub fn preamble(&self) -> (r: &str)
        ensures
            r@ == self@.preamble,
    {
        self.preamble.as_str()
    }

    /// The main frames; each is of type 0.
    pub fn slides(&self) -> (r: &[SlideData])
        ensures
            views(r@) == self@.slides,
            all_of_type(views(r@), 0),
    {
        proof {
            use_type_invariant(self);
        }
        self.slides.as_slice()
    }

    /// The appendix frames; each is of type 1.
    pub fn appendix(&self) -> (r: &[SlideData])
        ensures
            views(r@) == self@.appendix,
            all_of_type(views(r@), 1),
    {
        proof {
            use_type_invariant(self);
        }
        self.appendix.as_slice()
    }

    /// The unused frames (after `\end{document}`); each is of type 2.
    pub fn unused(&self) -> (r: &[SlideData])
        ensures
            views(r@) == self@.unused,
            all_of_type(views(r@), 2),
    {
        proof {
            use_type_invariant(self);
        }
        self.unused.as_slice()
    }
}

/// Appends the texts of the included frames of `list`, each followed by
/// two newlines.
fn push_section(out: &mut String, list: &Vec<SlideData>)
    ensures
        final(out)@ == old(out)@ + section(views(list@)),
{
    proof {
        reveal_strlit("\n\n");
    }
    let ghost o = out@;
    let ghost ss = views(list@);
    let mut i: usize = 0;
    while i < list.len()
        invariant
            i <= list@.len(),
            ss == views(list@),
            out@ == o + section(ss.take(i as int)),
            "\n\n"@ == blank(),
        decreases list@.len() - i,
    {
        assert(ss.take(i + 1).drop_last() =~= ss.take(i as int));
        assert(ss.take(i + 1).last() == list@[i as int]@);
        if list[i].included {
            out.append(list[i].content.as_str());
            out.append("\n\n");
        }
        i = i + 1;
        assert(out@ =~= o + section(ss.take(i as int)));
    }
    assert(ss.take(list@.len() as int) =~= ss);
}

// ---------------------------------------------------------------------------
// Which page of the PDF shows which frame
// ---------------------------------------------------------------------------

/// The last index of `lines` whose line number lies from `a` to `b`
/// (both included).
pub open spec fn last_within(lines: Seq<i32>, a: i32, b: i32) -> Option<int>
    decreases lines.len(),
{
    if lines.len() == 0 {
        None
    } else if a <= lines.last() && lines.last() <= b {
        Some(lines.len() - 1)
    } else {
        last_within(lines.drop_last(), a, b)
    }
}

/// The page found for a frame is the last page whose line lies from
/// `a` to `b`, both bounds included; when there is none, no page is found.
pub proof fn lemma_last_within(lines: Seq<i32>, a: i32, b: i32)
    ensures
        last_within(lines, a, b) matches Some(i) ==> {
            &&& 0 <= i < lines.len()
            &&& a <= lines[i] <= b
            &&& forall|j: int| i < j < lines.len() ==> !(a <= #[trigger] lines[j] <= b)
        },
        last_within(lines, a, b) is None ==> forall|j: int|
            0 <= j < lines.len() ==> !(a <= #[trigger] lines[j] <= b),
    decreases lines.len(),
{
    if lines.len() > 0 {
        let init = lines.drop_last();
        lemma_last_within(init, a, b);
        assert forall|j: int| 0 <= j < init.len() implies lines[j] == init[j] by {}
    }
}

/// An optional index as a mathematical integer.
pub open spec fn opt_int(o: Option<usize>) -> Option<int> {
    match o {
        Some(i) => Some(i as int),
        None => None,
    }
}

/// The page (an index into `lines`, where `lines[i]` is the source line
/// that page `i` comes from) that shows a frame running from line
/// `linestart` to line `lineend`: the last page whose line lies in that
/// range, if any.
pub fn last_page_within(lines: &Vec<i32>, linestart: i32, lineend: i32) -> (r: Option<usize>)
    ensures
        opt_int(r) == last_within(lines@, linestart, lineend),
        r matches Some(i) ==> {
            &&& i < lines@.len()
            &&& linestart <= lines@[i as int] <= lineend
            &&& forall|j: int|
                i < j < lines@.len() ==> !(linestart <= #[trigger] lines@[j] <= lineend)
        },
        r is None ==> forall|j: int|
            0 <= j < lines@.len() ==> !(linestart <= #[trigger] lines@[j] <= lineend),
{
    proof {
        lemma_last_within(lines@, linestart, lineend);
    }
    let mut j = lines.len();
    assert(lines@.take(j as int) =~= lines@);
    while j > 0
        invariant
            j <= lines@.len(),
            last_within(lines@, linestart, lineend) == last_within(
                lines@.take(j as int),
                linestart,
                lineend,
            ),
        decreases j,
    {
        assert(lines@.take(j as int).drop_last() =~= lines@.take(j - 1));
        if linestart <= lines[j - 1] && lines[j - 1] <= lineend {
            proof {
                lemma_last_within(lines@, linestart, lineend);
            }
            return Some(j - 1);
        }
        j = j - 1;
    }
    None
}

/// How many frames of `ss` are included.
pub open spec fn count_included(ss: Seq<SlideView>) -> nat
    decreases ss.len(),
{
    if ss.len() == 0 {
        0
    } else {
        count_included(ss.drop_last()) + if ss.last().included {
            1nat
        } else {
            0nat
        }
    }
}

/// The page that frame `j` of `ss` gets when the included frames take the
/// pages of `pages` in turn, starting at `pages[k0]`: frames that are not
/// included, or come after the pages have run out, get none.
pub open spec fn frame_page(ss: Seq<SlideView>, pages: Seq<usize>, k0: int, j: int) -> Option<usize> {
    let c = k0 + count_included(ss.take(j));
    if ss[j].included && c < pages.len() {
        Some(pages[c])
    } else {
        None
    }
}

/// The pages that the frames of `ss` get, starting at `pages[k0]`.
pub open spec fn assigned(ss: Seq<SlideView>, pages: Seq<usize>, k0: int) -> Seq<Option<usize>> {
    Seq::new(ss.len(), |j: int| frame_page(ss, pages, k0, j))
}

/// The smaller of two numbers.
pub open spec fn min(a: int, b: int) -> int {
    if a <= b {
        a
    } else {
        b
    }
}

/// The pages of a document's frames when the included main and appendix
/// frames take the pages of `pages` in turn; unused frames get none.
pub open spec fn pages_by_order(v: BeamerView, pages: Seq<usize>) -> Seq<Option<usize>> {
    assigned(v.slides, pages, 0) + assigned(
        v.appendix,
        pages,
        min(count_included(v.slides) as int, pages.len() as int),
    ) + Seq::new(v.unused.len(), |j: int| None::<usize>)
}

/// The pages of a document's frames when page `i` comes from source line
/// `lines[i]`: each frame gets the last page whose line lies within it.
pub open spec fn pages_by_lines(v: BeamerView, lines: Seq<i32>) -> Seq<Option<int>> {
    all_slides(v).map_values(|sv: SlideView| last_within(lines, sv.linestart, sv.lineend))
}

/// Appends the pages that the frames of `list` get, starting at
/// `pages[k0]`; gives back where the next list starts.
fn assign_pages(list: &[SlideData], pages: &Vec<usize>, k0: usize, out: &mut Vec<Option<usize>>) -> (k: usize)
    requires
        k0 <= pages@.len(),
    ensures
        final(out)@ == old(out)@ + assigned(views(list@), pages@, k0 as int),
        k == min(k0 + count_included(views(list@)), pages@.len() as int),
{
    let ghost o = out@;
    let ghost ss = views(list@);
    let mut k = k0;
    let mut j: usize = 0;
    while j < list.len()
        invariant
            j <= list@.len(),
            ss == views(list@),
            k0 <= pages@.len(),
            k == min(k0 + count_included(ss.take(j as int)), pages@.len() as int),
            out@ == o + assigned(ss, pages@, k0 as int).take(j as int),
        decreases list@.len() - j,
    {
        assert(ss.take(j + 1).drop_last() =~= ss.take(j as int));
        assert(ss.take(j + 1).last() == list@[j as int]@);
        if list[j].included && k < pages.len() {
            out.push(Some(pages[k]));
            k = k + 1;
        } else {
            out.push(None);
        }
        j = j + 1;
        assert(out@ =~= o + assigned(ss, pages@, k0 as int).take(j as int));
    }
    assert(ss.take(list@.len() as int) =~= ss);
    assert(assigned(ss, pages@, k0 as int).take(list@.len() as int) =~= assigned(
        ss,
        pages@,
        k0 as int,
    ));
    k
}

impl BeamerContents {
    /// The page of each frame (main, then appendix, then unused frames)
    /// when page `i` comes from source line `lines[i]`: the last page whose
    /// line lies within the frame's lines.
    pub fn pages_from_lines(&self, lines: &Vec<i32>) -> (r: Vec<Option<usize>>)
        ensures
            r@.map_values(|o: Option<usize>| opt_int(o)) == pages_by_lines(self@, lines@),
    {
        let ghost all = all_slides(self@);
        let mut r: Vec<Option<usize>> = Vec::new();
        let mut i: usize = 0;
        while i < self.slides.len()
            invariant
                i <= self.slides@.len(),
                all == all_slides(self@),
                r@.len() == i,
                forall|m: int| 0 <= m < i ==> opt_int(#[trigger] r@[m]) == last_within(lines@, all[m].linestart, all[m].lineend),
            decreases self.slides@.len() - i,
        {
            r.push(last_page_within(lines, self.slides[i].linestart, self.slides[i].lineend));
            i = i + 1;
        }
        let mut i: usize = 0;
        let ghost n0 = self.slides@.len();
        while i < self.appendix.len()
            invariant
                i <= self.appendix@.len(),
                n0 == self.slides@.len(),
                all == all_slides(self@),
                r@.len() == n0 + i,
                forall|m: int| 0 <= m < n0 + i ==> opt_int(#[trigger] r@[m]) == last_within(lines@, all[m].linestart, all[m].lineend),
            decreases self.appendix@.len() - i,
        {
            r.push(last_page_within(lines, self.appendix[i].linestart, self.appendix[i].lineend));
            i = i + 1;
        }
        let mut i: usize = 0;
        let ghost n1 = n0 + self.appendix@.len();
        while i < self.unused.len()
            invariant
                i <= self.unused@.len(),
                n1 == self.slides@.len() + self.appendix@.len(),
                all == all_slides(self@),
                r@.len() == n1 + i,
                forall|m: int| 0 <= m < n1 + i ==> opt_int(#[trigger] r@[m]) == last_within(lines@, all[m].linestart, all[m].lineend),
            decreases self.unused@.len() - i,
        {
            r.push(last_page_within(lines, self.unused[i].linestart, self.unused[i].lineend));
            i = i + 1;
        }
        assert(r@.map_values(|o: Option<usize>| opt_int(o)) =~= pages_by_lines(self@, lines@));
        r
    }

    /// The page of each frame (main, then appendix, then unused frames)
    /// when the included main and appendix frames take the pages of
    /// `pages` in turn; frames that are not included, unused frames and
    /// frames after the pages have run out get none.
    pub fn pages_from_frames(&self, pages: &Vec<usize>) -> (r: Vec<Option<usize>>)
        ensures
            r@ == pages_by_order(self@, pages@),
    {
        let mut r: Vec<Option<usize>> = Vec::new();
        let k = assign_pages(self.slides.as_slice(), pages, 0, &mut r);
        let _ = assign_pages(self.appendix.as_slice(), pages, k, &mut r);
        let mut i: usize = 0;
        let ghost o = r@;
        while i < self.unused.len()
            invariant
                i <= self.unused@.len(),
                r@ == o + Seq::new(i as nat, |j: int| None::<usize>),
            decreases self.unused@.len() - i,
        {
            r.push(None);
            i = i + 1;
            assert(r@ =~= o + Seq::new(i as nat, |j: int| None::<usize>));
        }
        assert(r@ =~= pages_by_order(self@, pages@));
        r
    }
}

/// A frame with its image replaced.
pub open spec fn with_image(sv: SlideView, image: Seq<char>) -> SlideView {
    SlideView {
        included: sv.included,
        linestart: sv.linestart,
        lineend: sv.lineend,
        content: sv.content,
        label: sv.label,
        image,
        slidetype: sv.slidetype,
    }
}

/// A document with the image of frame `index` (counted over main, then
/// appendix, then unused frames) replaced.
pub open spec fn doc_with_image(v: BeamerView, index: int, image: Seq<char>) -> BeamerView {
    let n0 = v.slides.len() as int;
    let n1 = n0 + v.appendix.len();
    if index < n0 {
        BeamerView { slides: v.slides.update(index, with_image(v.slides[index], image)), ..v }
    } else if index < n1 {
        BeamerView {
            appendix: v.appendix.update(index - n0, with_image(v.appendix[index - n0], image)),
            ..v
        }
    } else {
        BeamerView {
            unused: v.unused.update(index - n1, with_image(v.unused[index - n1], image)),
            ..v
        }
    }
}

/// Replaces the image of the frame at `i` in `list`.
fn set_image_in(list: &mut Vec<SlideData>, i: usize, image: String)
    requires
        i < old(list)@.len(),
    ensures
        views(final(list)@) == views(old(list)@).update(
            i as int,
            with_image(views(old(list)@)[i as int], image@),
        ),
{
    let mut d = list.remove(i);
    d.image = image;
    list.insert(i, d);
    assert(views(list@) =~= views(old(list)@).update(
        i as int,
        with_image(views(old(list)@)[i as int], image@),
    ));
}

impl BeamerContents {
    /// Replaces the image of frame `index`, counted over the main, then the
    /// appendix, then the unused frames; nothing else changes.
    pub fn set_image(&mut self, index: usize, image: String)
        requires
            index < all_slides(old(self)@).len(),
        ensures
            final(self)@ == doc_with_image(old(self)@, index as int, image@),
    {
        proof {
            use_type_invariant(&*self);
        }
        let n0 = self.slides.len();
        let n1 = self.appendix.len();
        let mut list: Vec<SlideData> = Vec::new();
        if index < n0 {
            std::mem::swap(&mut list, &mut self.slides);
            set_image_in(&mut list, index, image);
            std::mem::swap(&mut list, &mut self.slides);
        } else if index - n0 < n1 {
            std::mem::swap(&mut list, &mut self.appendix);
            set_image_in(&mut list, index - n0, image);
            std::mem::swap(&mut list, &mut self.appendix);
        } else {
            std::mem::swap(&mut list, &mut self.unused);
            set_image_in(&mut list, index - n0 - n1, image);
            std::mem::swap(&mut list, &mut self.unused);
        }
    }
}

} // verus!
