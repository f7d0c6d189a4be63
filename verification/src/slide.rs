use vstd::prelude::*;
use vstd::string::StringExecFns;

use crate::text::{
    chars_of, count_char, count_char_before, join, lemma_join_split_lines, lemma_split_join,
    lemma_split_lines, split_lines, string_of,
};

verus! {

/// The longest line, in characters, that a label keeps whole.
pub const LABEL_MAX_LEN: usize = 40;

/// Above this many line breaks, a label shows only the head and the last
/// line of a frame.
pub const LABEL_MAX_LINES: usize = 5;

/// The image shown for a frame that has no thumbnail.
pub const DEFAULT_IMAGE: &'static str = "resources/icons/slide.svg";

/// Where a frame stands in a Beamer document.
#[derive(Debug, Copy, Clone)]
pub enum SlideType {
    /// A frame between `\begin{document}` and `\appendix` (or the end).
    Main,
    /// A frame after `\appendix`.
    Appendix,
    /// A frame after `\end{document}`.
    Unused,
}

/// The number that stands for a slide type.
pub open spec fn spec_type_num(t: SlideType) -> u8 {
    match t {
        SlideType::Main => 0,
        SlideType::Appendix => 1,
        SlideType::Unused => 2,
    }
}

/// The name of a slide type.
pub open spec fn spec_type_name(t: SlideType) -> Seq<char> {
    match t {
        SlideType::Main => "Main"@,
        SlideType::Appendix => "Appendix"@,
        SlideType::Unused => "Unused"@,
    }
}

impl Default for SlideType {
    /// A frame is a main frame unless said otherwise.
    fn default() -> (r: SlideType)
        ensures
            r == SlideType::Main,
    {
        SlideType::Main
    }
}

impl SlideType {
    /// The slide type a number stands for: 0, 1 and 2 name the three
    /// types, every other number is refused.
    pub fn from_num(n: u8) -> (r: Result<SlideType, ()>)
        ensures
            n <= 2 <==> r is Ok,
            r matches Ok(t) ==> spec_type_num(t) == n,
    {
        match n {
            0 => Ok(SlideType::Main),
            1 => Ok(SlideType::Appendix),
            2 => Ok(SlideType::Unused),
            _ => Err(()),
        }
    }

    /// The number that stands for this slide type.
    pub fn to_num(&self) -> (r: u8)
        ensures
            r == spec_type_num(*self),
    {
        match self {
            SlideType::Main => 0,
            SlideType::Appendix => 1,
            SlideType::Unused => 2,
        }
    }

    /// The name of this slide type: `Main`, `Appendix` or `Unused`.
    pub fn to_string(&self) -> (r: String)
        ensures
            r@ == spec_type_name(*self),
    {
        match self {
            SlideType::Main => String::from_str("Main"),
            SlideType::Appendix => String::from_str("Appendix"),
            SlideType::Unused => String::from_str("Unused"),
        }
    }
}

/// Reading back the number of a slide type gives the same type.
pub proof fn lemma_type_num_roundtrip(t: SlideType)
    ensures
        spec_type_num(t) <= 2,
        forall|u: SlideType| spec_type_num(u) == spec_type_num(t) ==> u == t,
{
}

/// The number that a slide type is read from is the number it gives back.
pub proof fn lemma_num_type_roundtrip(n: u8)
    requires
        n <= 2,
    ensures
        exists|t: SlideType| spec_type_num(t) == n,
{
    if n == 0 {
        assert(spec_type_num(SlideType::Main) == n);
    } else if n == 1 {
        assert(spec_type_num(SlideType::Appendix) == n);
    } else {
        assert(spec_type_num(SlideType::Unused) == n);
    }
}

// ---------------------------------------------------------------------------
// Labels
// ---------------------------------------------------------------------------

/// The horizontal ellipsis that ends a shortened line.
pub open spec fn ellipsis() -> char {
    '\u{2026}'
}

/// The vertical ellipsis that stands for left-out lines.
pub open spec fn vertical_ellipsis() -> char {
    '\u{22ee}'
}

/// A line as a label shows it: lines longer than `LABEL_MAX_LEN` keep their
/// first `LABEL_MAX_LEN - 1` characters and end in an ellipsis.
pub open spec fn truncated(line: Seq<char>) -> Seq<char> {
    if line.len() > LABEL_MAX_LEN {
        line.take(LABEL_MAX_LEN - 1).push(ellipsis())
    } else {
        line
    }
}

/// The lines of a frame that its label shows: all of them, or, when the
/// frame has more than `LABEL_MAX_LINES` line breaks, the first
/// `LABEL_MAX_LINES - 2` lines, a vertical ellipsis and the last line.
pub open spec fn label_lines(content: Seq<char>) -> Seq<Seq<char>> {
    let l = split_lines(content);
    if count_char(content, '\n') > LABEL_MAX_LINES {
        l.take(LABEL_MAX_LINES - 2).push(seq![vertical_ellipsis()]).push(l.last())
    } else {
        l
    }
}

/// The label of a frame: its shown lines, each shortened, joined by newlines.
pub open spec fn label_of(content: Seq<char>) -> Seq<char> {
    join(label_lines(content).map_values(|l: Seq<char>| truncated(l)), seq!['\n'])
}

/// A line as a label shows it.
pub fn truncate_line(line: &str) -> (r: String)
    ensures
        r@ == truncated(line@),
{
    let cs = chars_of(line);
    if cs.len() > LABEL_MAX_LEN {
        let mut out: Vec<char> = Vec::new();
        let mut i: usize = 0;
        while i < LABEL_MAX_LEN - 1
            invariant
                i <= LABEL_MAX_LEN - 1,
                cs@.len() > LABEL_MAX_LEN,
                out@ == cs@.take(i as int),
            decreases LABEL_MAX_LEN - 1 - i,
        {
            out.push(cs[i]);
            i = i + 1;
            assert(out@ =~= cs@.take(i as int));
        }
        out.push('\u{2026}');
        string_of(&out)
    } else {
        string_of(&cs)
    }
}

/// The lines of `s`, cut at every newline.
fn split_lines_exec(s: &Vec<char>) -> (r: Vec<Vec<char>>)
    ensures
        r@.len() == split_lines(s@).len(),
        forall|i: int| 0 <= i < r@.len() ==> #[trigger] r@[i]@ == split_lines(s@)[i],
{
    let mut lines: Vec<Vec<char>> = Vec::new();
    let mut cur: Vec<char> = Vec::new();
    let mut i: usize = 0;
    assert(s@.take(0) =~= Seq::<char>::empty());
    while i < s.len()
        invariant
            i <= s@.len(),
            lines@.len() + 1 == split_lines(s@.take(i as int)).len(),
            forall|j: int|
                0 <= j < lines@.len() ==> #[trigger] lines@[j]@ == split_lines(
                    s@.take(i as int),
                )[j],
            cur@ == split_lines(s@.take(i as int)).last(),
        decreases s@.len() - i,
    {
        let ghost pre = s@.take(i as int);
        assert(s@.take(i + 1).drop_last() =~= pre);
        assert(s@.take(i + 1).last() == s@[i as int]);
        if s[i] == '\n' {
            lines.push(cur);
            cur = Vec::new();
            assert(cur@ =~= Seq::<char>::empty());
        } else {
            cur.push(s[i]);
        }
        i = i + 1;
    }
    assert(s@.take(s@.len() as int) =~= s@);
    lines.push(cur);
    lines
}

/// The label shown for a frame: its shown lines (see `label_lines`), each
/// shortened (see `truncated`), joined by newlines.
pub fn create_label(content: &str) -> (r: String)
    ensures
        r@ == label_of(content@),
{
    let cs = chars_of(content);
    let n = count_char_before(&cs, '\n', cs.len());
    assert(cs@.take(cs@.len() as int) =~= cs@);
    let all = split_lines_exec(&cs);
    proof {
        lemma_split_lines(cs@);
    }
    let ghost shown = label_lines(cs@);
    let mut lines: Vec<String> = Vec::new();
    if n > LABEL_MAX_LINES {
        let mut i: usize = 0;
        while i < LABEL_MAX_LINES - 2
            invariant
                i <= LABEL_MAX_LINES - 2,
                all@.len() == split_lines(cs@).len(),
                all@.len() > LABEL_MAX_LINES + 1,
                forall|k: int| 0 <= k < all@.len() ==> #[trigger] all@[k]@ == split_lines(cs@)[k],
                lines@.len() == i,
                forall|k: int| 0 <= k < i ==> #[trigger] lines@[k]@ == split_lines(cs@)[k],
            decreases LABEL_MAX_LINES - 2 - i,
        {
            lines.push(string_of(&all[i]));
            i = i + 1;
        }
        lines.push(String::from_str("\u{22ee}"));
        proof {
            reveal_strlit("\u{22ee}");
        }
        lines.push(string_of(&all[all.len() - 1]));
        assert(lines@.len() == shown.len());
        assert forall|k: int| 0 <= k < shown.len() implies #[trigger] lines@[k]@ == shown[k] by {
            if k < LABEL_MAX_LINES - 2 {
            } else if k == LABEL_MAX_LINES - 2 {
                assert(lines@[k]@ =~= seq![vertical_ellipsis()]);
            } else {
            }
        }
    } else {
        let mut i: usize = 0;
        while i < all.len()
            invariant
                i <= all@.len(),
                all@.len() == split_lines(cs@).len(),
                forall|k: int| 0 <= k < all@.len() ==> #[trigger] all@[k]@ == split_lines(cs@)[k],
                lines@.len() == i,
                forall|k: int| 0 <= k < i ==> #[trigger] lines@[k]@ == split_lines(cs@)[k],
            decreases all@.len() - i,
        {
            lines.push(string_of(&all[i]));
            i = i + 1;
        }
    }
    // Shorten every shown line and join them with newlines.
    let ghost target = shown.map_values(|l: Seq<char>| truncated(l));
    let mut out = String::new();
    let mut k: usize = 0;
    proof {
        reveal_strlit("\n");
    }
    while k < lines.len()
        invariant
            k <= lines@.len(),
            lines@.len() == shown.len(),
            target == shown.map_values(|l: Seq<char>| truncated(l)),
            forall|m: int| 0 <= m < shown.len() ==> #[trigger] lines@[m]@ == shown[m],
            out@ == join(target.take(k as int), seq!['\n']),
            "\n"@ == seq!['\n'],
        decreases lines@.len() - k,
    {
        let t = truncate_line(lines[k].as_str());
        let ghost pre = target.take(k as int);
        assert(target.take(k + 1).drop_last() =~= pre);
        if k > 0 {
            out.append("\n");
        }
        out.append(t.as_str());
        k = k + 1;
        proof {
            if k == 1 {
                assert(target.take(1).len() == 1);
                assert(out@ =~= join(target.take(k as int), seq!['\n']));
            } else {
                assert(out@ =~= join(target.take(k as int), seq!['\n']));
            }
        }
    }
    assert(target.take(lines@.len() as int) =~= target);
    out
}

// ---------------------------------------------------------------------------
// Frames
// ---------------------------------------------------------------------------

/// A frame of a Beamer document, as the library sees it.
#[derive(Debug)]
pub struct SlideData {
    /// Whether the frame goes into what is written back.
    pub included: bool,
    /// The line (from 1) on which the frame starts.
    pub linestart: i32,
    /// The line (from 1) on which the frame ends.
    pub lineend: i32,
    /// The frame's source text.
    pub content: String,
    /// A short text that stands for the frame (see `create_label`).
    pub label: String,
    /// The image shown for the frame.
    pub image: String,
    /// The number of the frame's slide type (see `SlideType::to_num`).
    pub slidetype: u8,
}

/// The model of a frame: its fields, with texts as character sequences.
pub struct SlideView {
    pub included: bool,
    pub linestart: i32,
    pub lineend: i32,
    pub content: Seq<char>,
    pub label: Seq<char>,
    pub image: Seq<char>,
    pub slidetype: u8,
}

impl View for SlideData {
    type V = SlideView;

    open spec fn view(&self) -> SlideView {
        SlideView {
            included: self.included,
            linestart: self.linestart,
            lineend: self.lineend,
            content: self.content@,
            label: self.label@,
            image: self.image@,
            slidetype: self.slidetype,
        }
    }
}

/// The frame that `SlideData::new` builds.
pub open spec fn spec_new_slide(
    included: bool,
    linestart: i32,
    lineend: i32,
    content: Seq<char>,
    image: Option<Seq<char>>,
    slidetype: u8,
) -> SlideView {
    SlideView {
        included,
        linestart,
        lineend,
        content,
        label: label_of(content),
        image: match image {
            Some(i) => i,
            None => DEFAULT_IMAGE@,
        },
        slidetype,
    }
}

impl Default for SlideData {
    /// An empty frame: not included, on line 0, with no text, label or image.
    fn default() -> (r: SlideData)
        ensures
            r@ == (SlideView {
                included: false,
                linestart: 0,
                lineend: 0,
                content: Seq::<char>::empty(),
                label: Seq::<char>::empty(),
                image: Seq::<char>::empty(),
                slidetype: 0,
            }),
    {
        SlideData {
            included: false,
            linestart: 0,
            lineend: 0,
            content: String::new(),
            label: String::new(),
            image: String::new(),
            slidetype: 0,
        }
    }
}

impl SlideData {
    /// A frame with the given fields; its label is made from its text, and
    /// its image is the default image when none is given.
    pub fn new(
        included: bool,
        linestart: i32,
        lineend: i32,
        content: String,
        image: Option<String>,
        slidetype: u8,
    ) -> (r: SlideData)
        ensures
            r@ == spec_new_slide(
                included,
                linestart,
                lineend,
                content@,
                match image {
                    Some(i) => Some(i@),
                    None => None,
                },
                slidetype,
            ),
    {
        let label = create_label(content.as_str());
        let image = match image {
            Some(i) => i,
            None => String::from_str(DEFAULT_IMAGE),
        };
        SlideData { included, linestart, lineend, label, content, image, slidetype }
    }
}


/// A shown line is never longer than `LABEL_MAX_LEN`, and shortening it
/// again changes nothing.
pub proof fn lemma_truncated(line: Seq<char>)
    ensures
        truncated(line).len() <= LABEL_MAX_LEN,
        truncated(truncated(line)) == truncated(line),
{
}

/// The lines of a label are the shown lines of the frame, each shortened.
proof fn lemma_label_split(content: Seq<char>)
    ensures
        split_lines(label_of(content)) == label_lines(content).map_values(
            |l: Seq<char>| truncated(l),
        ),
{
    lemma_split_lines(content);
    let shown = label_lines(content);
    let ls = shown.map_values(|l: Seq<char>| truncated(l));
    assert forall|i: int, k: int| 0 <= i < shown.len() && 0 <= k < shown[i].len() implies shown[i][k]
        != '\n' by {
        let l = split_lines(content);
        if count_char(content, '\n') > LABEL_MAX_LINES {
            if i < LABEL_MAX_LINES - 2 {
                assert(shown[i] == l[i]);
            } else if i == LABEL_MAX_LINES - 2 {
            } else {
                assert(shown[i] == l[l.len() - 1]);
            }
        }
    }
    assert forall|i: int, k: int| 0 <= i < ls.len() && 0 <= k < ls[i].len() implies ls[i][k]
        != '\n' by {
        assert(ls[i] == truncated(shown[i]));
        if shown[i].len() > LABEL_MAX_LEN && k < LABEL_MAX_LEN - 1 {
            assert(ls[i][k] == shown[i][k]);
        }
    }
    lemma_split_join(ls);
}

/// Every line of a label is at most `LABEL_MAX_LEN` characters long, and a
/// label has at most `LABEL_MAX_LINES + 1` lines.
pub proof fn lemma_label_bounded(content: Seq<char>)
    ensures
        split_lines(label_of(content)).len() <= LABEL_MAX_LINES + 1,
        forall|i: int|
            0 <= i < split_lines(label_of(content)).len() ==> #[trigger] split_lines(
                label_of(content),
            )[i].len() <= LABEL_MAX_LEN,
{
    lemma_split_lines(content);
    lemma_label_split(content);
}

/// What a label shows, line by line. A frame with at most
/// `LABEL_MAX_LINES` line breaks shows each of its lines, shortened. A
/// longer frame shows exactly five lines: its first three lines, a line
/// holding only the vertical ellipsis, and its last line, each shortened.
pub proof fn lemma_label_shape(content: Seq<char>)
    ensures
        ({
            let shown = split_lines(label_of(content));
            let lines = split_lines(content);
            if count_char(content, '\n') > LABEL_MAX_LINES {
                &&& shown.len() == 5
                &&& shown[0] == truncated(lines[0])
                &&& shown[1] == truncated(lines[1])
                &&& shown[2] == truncated(lines[2])
                &&& shown[3] == seq!['\u{22ee}']
                &&& shown[4] == truncated(lines[lines.len() - 1])
            } else {
                &&& shown.len() == lines.len()
                &&& forall|k: int| 0 <= k < lines.len() ==> #[trigger] shown[k] == truncated(lines[k])
            }
        }),
{
    lemma_split_lines(content);
    lemma_label_split(content);
}

/// A shown line keeps its first `LABEL_MAX_LEN - 1` characters; a line no
/// longer than `LABEL_MAX_LEN` is shown whole, and a longer one ends in the
/// ellipsis.
pub proof fn lemma_truncated_keeps(line: Seq<char>)
    ensures
        line.len() <= LABEL_MAX_LEN ==> truncated(line) == line,
        line.len() > LABEL_MAX_LEN ==> truncated(line).len() == LABEL_MAX_LEN && truncated(
            line,
        ).last() == '\u{2026}',
        forall|k: int|
            0 <= k < LABEL_MAX_LEN - 1 && k < line.len() ==> #[trigger] truncated(line)[k]
                == line[k],
{
}

/// A frame of at most `LABEL_MAX_LINES` line breaks whose lines are all at
/// most `LABEL_MAX_LEN` characters long is its own label.
pub proof fn lemma_short_label(content: Seq<char>)
    requires
        count_char(content, '\n') <= LABEL_MAX_LINES,
        forall|i: int|
            0 <= i < split_lines(content).len() ==> #[trigger] split_lines(content)[i].len()
                <= LABEL_MAX_LEN,
    ensures
        label_of(content) == content,
{
    let l = split_lines(content);
    assert(l.map_values(|x: Seq<char>| truncated(x)) =~= l);
    lemma_join_split_lines(content);
}

} // verus!
