use vstd::prelude::*;
use vstd::string::StringExecFns;

use crate::slide::{spec_new_slide, SlideData, SlideView};
use crate::texparse::{document_text, of_type, views, BeamerContents, BeamerView};
use crate::text::{chars_of, join, matches_at, matches_at_exec};

verus! {

// ---------------------------------------------------------------------------
// What the editor is given to show
// ---------------------------------------------------------------------------

/// The frames that the list hands over: those that are ticked, each as a
/// new included frame on line 0 with the given text and slide type.
pub open spec fn chosen_slides(items: Seq<(bool, Seq<char>, u8)>) -> Seq<SlideView>
    decreases items.len(),
{
    if items.len() == 0 {
        Seq::empty()
    } else {
        let last = items.last();
        chosen_slides(items.drop_last()) + if last.0 {
            seq![spec_new_slide(true, 0, 0, last.1, None, last.2)]
        } else {
            Seq::empty()
        }
    }
}

/// The model of the list's items: whether each is ticked, its text and its
/// slide type number.
pub open spec fn item_views(items: Seq<(bool, String, u8)>) -> Seq<(bool, Seq<char>, u8)> {
    items.map_values(|x: (bool, String, u8)| (x.0, x.1@, x.2))
}

/// The frames of the ticked items (see `chosen_slides`).
pub fn get_slidedatas(items: Vec<(bool, String, u8)>) -> (r: Vec<SlideData>)
    ensures
        views(r@) == chosen_slides(item_views(items@)),
{
    let ghost all = item_views(items@);
    let mut r: Vec<SlideData> = Vec::new();
    for item in it: items
        invariant
            all == item_views(it.seq()),
            views(r@) == chosen_slides(all.take(it.index() as int)),
    {
        let ghost k = it.index() as int;
        assert(all.take(k + 1).drop_last() =~= all.take(k));
        assert(all.take(k + 1).last() == (item.0, item.1@, item.2));
        let (ticked, content, slidetype) = item;
        if ticked {
            let d = SlideData::new(true, 0, 0, content, None, slidetype);
            r.push(d);
        }
        assert(views(r@) =~= chosen_slides(all.take(k + 1)));
    }
    assert(all.take(all.len() as int) =~= all);
    r
}

/// The texts of frames.
pub open spec fn contents_of(ss: Seq<SlideView>) -> Seq<Seq<char>> {
    ss.map_values(|sv: SlideView| sv.content)
}

/// What the editor shows for chosen frames: only their texts, separated
/// by blank lines, or the whole document made of the preamble and them.
pub open spec fn spec_contents(preamble: Seq<char>, slides_only: bool, ss: Seq<SlideView>) -> Seq<
    char,
> {
    if slides_only {
        join(contents_of(ss), seq!['\n', '\n'])
    } else {
        document_text(
            BeamerView {
                preamble,
                slides: of_type(ss, 0),
                appendix: of_type(ss, 1),
                unused: of_type(ss, 2),
            },
        )
    }
}

/// In slides-only mode the editor shows the chosen frames' own texts, in
/// order, with a blank line between each two: nothing for no frame, the
/// frame's text for one frame, and one more frame adds a blank line and
/// its text at the end.
pub proof fn lemma_slides_only_texts(preamble: Seq<char>, ss: Seq<SlideView>, sv: SlideView)
    ensures
        spec_contents(preamble, true, Seq::empty()) == Seq::<char>::empty(),
        spec_contents(preamble, true, seq![sv]) == sv.content,
        ss.len() > 0 ==> spec_contents(preamble, true, ss.push(sv)) == spec_contents(
            preamble,
            true,
            ss,
        ) + seq!['\n', '\n'] + sv.content,
{
    assert(contents_of(Seq::<SlideView>::empty()) =~= Seq::<Seq<char>>::empty());
    assert(contents_of(seq![sv]) =~= seq![sv.content]);
    assert(contents_of(ss.push(sv)) =~= contents_of(ss).push(sv.content));
    assert(contents_of(ss.push(sv)).drop_last() =~= contents_of(ss));
}

/// What the editor shows for the chosen frames (see `spec_contents`).
pub fn get_contents(preamble: String, slides_only: bool, slides: Vec<SlideData>) -> (r: String)
    requires
        !slides_only ==> forall|i: int|
            0 <= i < slides@.len() ==> #[trigger] slides@[i].slidetype <= 2,
    ensures
        r@ == spec_contents(preamble@, slides_only, views(slides@)),
{
    if slides_only {
        let ghost target = contents_of(views(slides@));
        let mut out = String::new();
        let mut k: usize = 0;
        proof {
            reveal_strlit("\n\n");
        }
        while k < slides.len()
            invariant
                k <= slides@.len(),
                target == contents_of(views(slides@)),
                out@ == join(target.take(k as int), seq!['\n', '\n']),
                "\n\n"@ == seq!['\n', '\n'],
            decreases slides@.len() - k,
        {
            assert(target.take(k + 1).drop_last() =~= target.take(k as int));
            assert(target[k as int] == slides@[k as int].content@);
            if k > 0 {
                out.append("\n\n");
            }
            out.append(slides[k].content.as_str());
            k = k + 1;
            proof {
                if k == 1 {
                    assert(out@ =~= join(target.take(k as int), seq!['\n', '\n']));
                } else {
                    assert(out@ =~= join(target.take(k as int), seq!['\n', '\n']));
                }
            }
        }
        assert(target.take(slides@.len() as int) =~= target);
        out
    } else {
        BeamerContents::from_slides(preamble, slides).to_string()
    }
}

// ---------------------------------------------------------------------------
// Marking frame titles in the editor
// ---------------------------------------------------------------------------
//
// A position runs from 0 to the length of the text; the character at the
// length is '\0'. Moving forward stops at the length, and tells whether
// the new position still holds a character.

/// The character at position `p`, or `'\0'` at the end.
pub open spec fn char_at(s: Seq<char>, p: int) -> char {
    if 0 <= p < s.len() {
        s[p]
    } else {
        '\0'
    }
}

/// The position after moving forward by one character from `p`.
pub open spec fn forward(s: Seq<char>, p: int) -> int {
    if p < s.len() {
        p + 1
    } else {
        p
    }
}

/// An ASCII letter.
pub open spec fn is_letter(c: char) -> bool {
    ('a' <= c && c <= 'z') || ('A' <= c && c <= 'Z')
}

/// Moves forward while the new position holds a letter.
pub open spec fn skip_letters(s: Seq<char>, p: int) -> int
    decreases s.len() - p,
{
    let q = forward(s, p);
    if q < s.len() && is_letter(s[q]) {
        skip_letters(s, q)
    } else {
        q
    }
}

/// Moves forward while the new position holds a character other than `c`.
pub open spec fn skip_until(s: Seq<char>, p: int, c: char) -> int
    decreases s.len() - p,
{
    let q = forward(s, p);
    if q < s.len() && s[q] != c {
        skip_until(s, q, c)
    } else {
        q
    }
}

/// Skips an optional `[...]`: unless the position holds `{`, moves to the
/// next `]` and one past it.
pub open spec fn skip_options(s: Seq<char>, p: int) -> int {
    if char_at(s, p) != '{' {
        forward(s, skip_until(s, p, ']'))
    } else {
        p
    }
}

/// Moves forward up to the first `%` or newline, or to the last character
/// of the text.
pub open spec fn line_end(s: Seq<char>, p: int) -> int
    decreases s.len() - p,
{
    if char_at(s, p) == '%' || char_at(s, p) == '\n' {
        p
    } else {
        let q = forward(s, p);
        if q < s.len() {
            line_end(s, q)
        } else {
            q
        }
    }
}

/// What one command after a backslash at `p - 1` marks: for `\frametitle`,
/// the rest of its line after the options; for `\begin{frame}` that is not
/// at the end of its line, the rest of that line after the options. Gives
/// the position where the scan goes on and the marked range, if any.
pub open spec fn title_step(s: Seq<char>, p: int) -> (int, Option<(int, int)>) {
    let c = char_at(s, p);
    if c == '%' || c == '\\' {
        (p, None)
    } else {
        let p1 = skip_letters(s, p);
        let cmd = s.subrange(p, p1);
        if cmd == "begin"@ {
            let p3 = forward(s, skip_until(s, p1, '}'));
            if s.subrange(p1, p3) == "{frame}"@ && char_at(s, p3) != '\n' {
                let p4 = skip_options(s, p3);
                (p1, Some((p4, line_end(s, p4))))
            } else {
                (p1, None)
            }
        } else if cmd == "frametitle"@ {
            let p4 = skip_options(s, p1);
            let p5 = line_end(s, p4);
            (p5, Some((p4, p5)))
        } else {
            (p1, None)
        }
    }
}

/// The moves above never go back and never pass the end.
pub proof fn lemma_moves(s: Seq<char>, p: int, c: char)
    requires
        0 <= p <= s.len(),
    ensures
        p <= forward(s, p) <= s.len(),
        p <= skip_letters(s, p) <= s.len(),
        p <= skip_until(s, p, c) <= s.len(),
        p <= line_end(s, p) <= s.len(),
        p <= skip_options(s, p) <= s.len(),
        p < s.len() ==> p < skip_letters(s, p),
    decreases s.len() - p,
{
    let q = forward(s, p);
    if q < s.len() {
        lemma_moves(s, q, c);
        lemma_moves(s, q, ']');
    }
    if p < s.len() {
        lemma_moves(s, p + 1, ']');
    }
    lemma_skip_until(s, p, ']');
}

/// `skip_until` never goes back and never passes the end.
pub proof fn lemma_skip_until(s: Seq<char>, p: int, c: char)
    requires
        0 <= p <= s.len(),
    ensures
        p <= skip_until(s, p, c) <= s.len(),
    decreases s.len() - p,
{
    let q = forward(s, p);
    if q < s.len() {
        lemma_skip_until(s, q, c);
    }
}

/// The scan goes on no earlier than where the command started, and its
/// marked range lies within the text, in order.
pub proof fn lemma_title_step(s: Seq<char>, p: int)
    requires
        0 <= p <= s.len(),
    ensures
        p <= title_step(s, p).0 <= s.len(),
        title_step(s, p).1 matches Some(r) ==> 0 <= r.0 <= r.1 <= s.len(),
{
    lemma_moves(s, p, ']');
    let p1 = skip_letters(s, p);
    lemma_moves(s, p1, '}');
    let p2 = skip_until(s, p1, '}');
    lemma_moves(s, p2, '}');
    let p3 = forward(s, p2);
    lemma_moves(s, p3, '}');
    let p4 = skip_options(s, p3);
    lemma_moves(s, p4, '}');
    let q4 = skip_options(s, p1);
    lemma_moves(s, q4, '}');
}

/// The ranges the editor marks as frame titles, scanning from position
/// `p`: after each backslash, the command that follows it is looked at
/// (see `title_step`).
pub open spec fn title_ranges(s: Seq<char>, p: int) -> Seq<(int, int)>
    decreases s.len() - p,
{
    if p < 0 || p > s.len() {
        Seq::empty()
    } else {
        let q = forward(s, p);
        if q >= s.len() {
            Seq::empty()
        } else if char_at(s, p) == '\\' {
            proof {
                lemma_title_step(s, q);
            }
            let (p2, tag) = title_step(s, q);
            match tag {
                Some(t) => seq![t] + title_ranges(s, p2),
                None => title_ranges(s, p2),
            }
        } else {
            title_ranges(s, q)
        }
    }
}

/// Every range marked as a frame title lies within the text, its start
/// not after its end.
pub proof fn lemma_title_ranges_within(s: Seq<char>, p: int)
    requires
        0 <= p <= s.len(),
    ensures
        forall|k: int|
            0 <= k < title_ranges(s, p).len() ==> 0 <= (#[trigger] title_ranges(s, p)[k]).0
                <= title_ranges(s, p)[k].1 <= s.len(),
    decreases s.len() - p,
{
    let q = forward(s, p);
    if q < s.len() {
        if char_at(s, p) == '\\' {
            lemma_title_step(s, q);
            let (p2, tag) = title_step(s, q);
            lemma_title_ranges_within(s, p2);
            match tag {
                Some(t) => {
                    assert(title_ranges(s, p) == seq![t] + title_ranges(s, p2));
                    assert forall|k: int| 0 <= k < title_ranges(s, p).len() implies 0 <= (
                    #[trigger] title_ranges(s, p)[k]).0 <= title_ranges(s, p)[k].1
                        <= s.len() by {
                        if k > 0 {
                            assert(title_ranges(s, p)[k] == title_ranges(s, p2)[k - 1]);
                        }
                    }
                },
                None => {
                    assert(title_ranges(s, p) == title_ranges(s, p2));
                },
            }
        } else {
            lemma_title_ranges_within(s, q);
            assert(title_ranges(s, p) == title_ranges(s, q));
        }
    }
}

/// `line_end` stops at the first `%` or newline from `p` on, or at the end
/// of the text, and passes over neither.
pub proof fn lemma_line_end(s: Seq<char>, p: int)
    requires
        0 <= p <= s.len(),
    ensures
        line_end(s, p) == s.len() || s[line_end(s, p)] == '%' || s[line_end(s, p)] == '\n',
        forall|k: int| p <= k < line_end(s, p) ==> #[trigger] s[k] != '%' && s[k] != '\n',
    decreases s.len() - p,
{
    if !(char_at(s, p) == '%' || char_at(s, p) == '\n') {
        let q = forward(s, p);
        if q < s.len() {
            lemma_line_end(s, q);
        }
    }
}

/// A marked title runs to the end of its line, or to a comment, or to the
/// end of the text: it holds no `%` and no newline, and what follows it is
/// one of them or nothing.
pub proof fn lemma_title_ranges_to_line_end(s: Seq<char>, p: int)
    requires
        0 <= p <= s.len(),
    ensures
        forall|k: int|
            0 <= k < title_ranges(s, p).len() ==> {
                let r = #[trigger] title_ranges(s, p)[k];
                &&& r.1 == s.len() || s[r.1] == '%' || s[r.1] == '\n'
                &&& forall|m: int| r.0 <= m < r.1 ==> s[m] != '%' && s[m] != '\n'
            },
    decreases s.len() - p,
{
    let q = forward(s, p);
    if q >= s.len() {
        assert(title_ranges(s, p).len() == 0);
    } else if char_at(s, p) == '\\' {
        lemma_title_step(s, q);
        let (p2, tag) = title_step(s, q);
        lemma_title_ranges_to_line_end(s, p2);
        let rest = title_ranges(s, p2);
        match tag {
            Some(t) => {
                // The range is `(p4, line_end(s, p4))` for some `p4` within the text.
                let c = char_at(s, q);
                let p1 = skip_letters(s, q);
                lemma_moves(s, q, ']');
                lemma_moves(s, p1, '}');
                if s.subrange(q, p1) == "begin"@ {
                    let p2b = skip_until(s, p1, '}');
                    lemma_moves(s, p2b, '}');
                    let p3 = forward(s, p2b);
                    lemma_moves(s, p3, '}');
                    lemma_line_end(s, skip_options(s, p3));
                } else {
                    lemma_line_end(s, skip_options(s, p1));
                }
                assert(title_ranges(s, p) == seq![t] + rest);
                assert forall|k: int| 0 <= k < title_ranges(s, p).len() implies {
                    let r = #[trigger] title_ranges(s, p)[k];
                    &&& r.1 == s.len() || s[r.1] == '%' || s[r.1] == '\n'
                    &&& forall|m: int| r.0 <= m < r.1 ==> s[m] != '%' && s[m] != '\n'
                } by {
                    if k > 0 {
                        assert(title_ranges(s, p)[k] == rest[k - 1]);
                    }
                }
            },
            None => {
                assert(title_ranges(s, p) == rest);
            },
        }
    } else {
        lemma_title_ranges_to_line_end(s, q);
        assert(title_ranges(s, p) == title_ranges(s, q));
    }
}

/// A `\frametitle` or a `\begin{frame}` command starts at index `i`.
pub open spec fn title_command_at(s: Seq<char>, i: int) -> bool {
    matches_at(s, "\\frametitle"@, i) || matches_at(s, "\\begin{frame}"@, i)
}

/// A step that starts just after a backslash marks a range only when the
/// backslash starts `\frametitle` or `\begin{frame}`, and the range starts
/// after that command.
pub proof fn lemma_title_step_command(s: Seq<char>, q: int)
    requires
        1 <= q <= s.len(),
        s[q - 1] == '\\',
    ensures
        title_step(s, q).1 matches Some(r) ==> title_command_at(s, q - 1) && q - 1 + 11 <= r.0,
{
    reveal_strlit("\\frametitle");
    reveal_strlit("\\begin{frame}");
    reveal_strlit("frametitle");
    reveal_strlit("begin");
    reveal_strlit("{frame}");
    lemma_moves(s, q, ']');
    let c = char_at(s, q);
    if !(c == '%' || c == '\\') {
        let p1 = skip_letters(s, q);
        lemma_moves(s, p1, '}');
        let cmd = s.subrange(q, p1);
        if cmd == "begin"@ {
            let p2 = skip_until(s, p1, '}');
            lemma_moves(s, p2, '}');
            let p3 = forward(s, p2);
            lemma_moves(s, p3, '}');
            if s.subrange(p1, p3) == "{frame}"@ && char_at(s, p3) != '\n' {
                assert("begin"@.len() == 5);
                assert("{frame}"@.len() == 7);
                assert(cmd.len() == 5);
                assert(p1 == q + 5);
                assert(s.subrange(p1, p3).len() == 7);
                assert(p3 == p1 + 7);
                assert forall|k: int| 0 <= k < 13 implies s.subrange(q - 1, q + 12)[k]
                    == "\\begin{frame}"@[k] by {
                    if k == 0 {
                    } else if k < 6 {
                        assert(s.subrange(q - 1, q + 12)[k] == cmd[k - 1]);
                    } else {
                        assert(s.subrange(q - 1, q + 12)[k] == s.subrange(p1, p3)[k - 6]);
                    }
                }
                assert(s.subrange(q - 1, q + 12) =~= "\\begin{frame}"@);
                lemma_moves(s, skip_options(s, p3), '}');
            }
        } else if cmd == "frametitle"@ {
            assert("frametitle"@.len() == 10);
            assert(cmd.len() == 10);
            assert(p1 == q + 10);
            assert forall|k: int| 0 <= k < 11 implies s.subrange(q - 1, q + 10)[k]
                == "\\frametitle"@[k] by {
                if k > 0 {
                    assert(s.subrange(q - 1, q + 10)[k] == cmd[k - 1]);
                }
            }
            assert(s.subrange(q - 1, q + 10) =~= "\\frametitle"@);
        }
    }
}

/// A `\frametitle` or `\begin{frame}` command starts at or after `p` and
/// ends no later than `a`.
pub open spec fn command_between(s: Seq<char>, p: int, a: int) -> bool {
    exists|i: int| #![trigger title_command_at(s, i)] p <= i && i + 11 <= a && title_command_at(s, i)
}

/// Only frame titles are marked: every marked range starts after a
/// `\frametitle` or a `\begin{frame}` command that the scan passed over.
/// Titles of other environments, such as `\begin{block}{...}`, are never
/// marked.
pub proof fn lemma_title_ranges_follow_command(s: Seq<char>, p: int)
    requires
        0 <= p <= s.len(),
    ensures
        forall|k: int|
            0 <= k < title_ranges(s, p).len() ==> command_between(
                s,
                p,
                (#[trigger] title_ranges(s, p)[k]).0,
            ),
    decreases s.len() - p,
{
    let q = forward(s, p);
    if q >= s.len() {
        assert(title_ranges(s, p).len() == 0);
    } else if char_at(s, p) == '\\' {
        lemma_title_step(s, q);
        lemma_title_step_command(s, q);
        let (p2, tag) = title_step(s, q);
        lemma_title_ranges_follow_command(s, p2);
        let rest = title_ranges(s, p2);
        assert forall|k: int| 0 <= k < rest.len() implies command_between(s, p, (#[trigger] rest[k]).0) by {
            let i = choose|i: int| #![trigger title_command_at(s, i)] p2 <= i && i + 11 <= rest[k].0
                && title_command_at(s, i);
            assert(title_command_at(s, i));
        }
        match tag {
            Some(t) => {
                assert(title_ranges(s, p) == seq![t] + rest);
                assert(title_command_at(s, p));
                assert(command_between(s, p, t.0));
                assert forall|k: int| 0 <= k < title_ranges(s, p).len() implies command_between(
                    s,
                    p,
                    (#[trigger] title_ranges(s, p)[k]).0,
                ) by {
                    if k > 0 {
                        assert(title_ranges(s, p)[k] == rest[k - 1]);
                    }
                }
            },
            None => {
                assert(title_ranges(s, p) == rest);
            },
        }
    } else {
        lemma_title_ranges_follow_command(s, q);
        let rest = title_ranges(s, q);
        assert(title_ranges(s, p) == rest);
        assert forall|k: int| 0 <= k < rest.len() implies command_between(s, p, (#[trigger] rest[k]).0) by {
            let i = choose|i: int| #![trigger title_command_at(s, i)] q <= i && i + 11 <= rest[k].0
                && title_command_at(s, i);
            assert(title_command_at(s, i));
        }
    }
}

/// The character at `p`, or `'\0'` at the end.
fn char_at_exec(s: &Vec<char>, p: usize) -> (c: char)
    ensures
        c == char_at(s@, p as int),
{
    if p < s.len() {
        s[p]
    } else {
        '\0'
    }
}

/// Moves forward by one character (not past the end).
fn forward_exec(s: &Vec<char>, p: usize) -> (q: usize)
    ensures
        q == forward(s@, p as int),
{
    if p < s.len() {
        p + 1
    } else {
        p
    }
}

fn skip_letters_exec(s: &Vec<char>, p: usize) -> (q: usize)
    requires
        p <= s@.len(),
    ensures
        q == skip_letters(s@, p as int),
{
    let mut q = forward_exec(s, p);
    while q < s.len() && (('a' <= s[q] && s[q] <= 'z') || ('A' <= s[q] && s[q] <= 'Z'))
        invariant
            p <= q <= s@.len(),
            skip_letters(s@, p as int) == if q < s@.len() && is_letter(s@[q as int]) {
                skip_letters(s@, q as int)
            } else {
                q as int
            },
        decreases s@.len() - q,
    {
        q = forward_exec(s, q);
    }
    q
}

fn skip_until_exec(s: &Vec<char>, p: usize, c: char) -> (q: usize)
    requires
        p <= s@.len(),
    ensures
        q == skip_until(s@, p as int, c),
{
    let mut q = forward_exec(s, p);
    while q < s.len() && s[q] != c
        invariant
            p <= q <= s@.len(),
            skip_until(s@, p as int, c) == if q < s@.len() && s@[q as int] != c {
                skip_until(s@, q as int, c)
            } else {
                q as int
            },
        decreases s@.len() - q,
    {
        q = forward_exec(s, q);
    }
    q
}

fn skip_options_exec(s: &Vec<char>, p: usize) -> (q: usize)
    requires
        p <= s@.len(),
    ensures
        q == skip_options(s@, p as int),
{
    if char_at_exec(s, p) != '{' {
        let r = skip_until_exec(s, p, ']');
        proof {
            lemma_skip_until(s@, p as int, ']');
        }
        forward_exec(s, r)
    } else {
        p
    }
}

fn line_end_exec(s: &Vec<char>, p: usize) -> (q: usize)
    requires
        p <= s@.len(),
    ensures
        q == line_end(s@, p as int),
{
    let mut q = p;
    loop
        invariant
            p <= q <= s@.len(),
            line_end(s@, p as int) == line_end(s@, q as int),
        decreases s@.len() - q,
    {
        let c = char_at_exec(s, q);
        if c == '%' || c == '\n' {
            return q;
        }
        let r = forward_exec(s, q);
        if r < s.len() {
            q = r;
        } else {
            return r;
        }
    }
}

/// The characters of `s` from `a` to `b` are those of `pat`.
fn span_is(s: &Vec<char>, a: usize, b: usize, pat: &Vec<char>) -> (r: bool)
    requires
        a <= b <= s@.len(),
    ensures
        r == (s@.subrange(a as int, b as int) == pat@),
{
    if b - a != pat.len() {
        assert(s@.subrange(a as int, b as int).len() != pat@.len());
        false
    } else {
        let m = matches_at_exec(s, pat, a);
        m
    }
}

fn format_frametitle(
    s: &Vec<char>,
    p: usize,
    begin: &Vec<char>,
    frametitle: &Vec<char>,
    frame: &Vec<char>,
) -> (r: (usize, Option<(usize, usize)>))
    requires
        p <= s@.len(),
        begin@ == "begin"@,
        frametitle@ == "frametitle"@,
        frame@ == "{frame}"@,
    ensures
        r.0 == title_step(s@, p as int).0,
        match r.1 {
            Some(t) => title_step(s@, p as int).1 == Some((t.0 as int, t.1 as int)),
            None => title_step(s@, p as int).1 is None,
        },
{
    proof {
        lemma_moves(s@, p as int, ']');
    }
    let c = char_at_exec(s, p);
    if c == '%' || c == '\\' {
        return (p, None);
    }
    let p1 = skip_letters_exec(s, p);
    proof {
        lemma_moves(s@, p1 as int, '}');
    }
    if span_is(s, p, p1, begin) {
        let p2 = skip_until_exec(s, p1, '}');
        proof {
            lemma_moves(s@, p2 as int, '}');
        }
        let p3 = forward_exec(s, p2);
        if span_is(s, p1, p3, frame) && char_at_exec(s, p3) != '\n' {
            proof {
                lemma_moves(s@, p3 as int, '}');
            }
            let p4 = skip_options_exec(s, p3);
            proof {
                lemma_moves(s@, p4 as int, '}');
            }
            let p5 = line_end_exec(s, p4);
            (p1, Some((p4, p5)))
        } else {
            (p1, None)
        }
    } else if span_is(s, p, p1, frametitle) {
        let p4 = skip_options_exec(s, p1);
        proof {
            lemma_moves(s@, p4 as int, '}');
        }
        let p5 = line_end_exec(s, p4);
        (p5, Some((p4, p5)))
    } else {
        (p1, None)
    }
}

/// A list of ranges, as mathematical integers.
pub open spec fn ranges_int(v: Seq<(usize, usize)>) -> Seq<(int, int)> {
    v.map_values(|t: (usize, usize)| (t.0 as int, t.1 as int))
}

/// The ranges of `text` (character positions, start included, end not)
/// that the editor marks as frame titles (see `title_ranges`).
pub fn frametitle_ranges(text: &Vec<char>) -> (r: Vec<(usize, usize)>)
    ensures
        ranges_int(r@) == title_ranges(text@, 0),
{
    let begin = chars_of("begin");
    let frametitle = chars_of("frametitle");
    let frame = chars_of("{frame}");
    let mut r: Vec<(usize, usize)> = Vec::new();
    let mut point: usize = 0;
    let ghost s = text@;
    loop
        invariant
            s == text@,
            point <= s.len(),
            begin@ == "begin"@,
            frametitle@ == "frametitle"@,
            frame@ == "{frame}"@,
            title_ranges(s, 0) == ranges_int(r@) + title_ranges(s, point as int),
        decreases s.len() - point,
    {
        let prev = point;
        let q = forward_exec(text, point);
        if q >= text.len() {
            assert(ranges_int(r@) + Seq::<(int, int)>::empty() =~= ranges_int(r@));
            return r;
        }
        if char_at_exec(text, prev) == '\\' {
            proof {
                lemma_title_step(s, q as int);
            }
            let (p2, tag) = format_frametitle(text, q, &begin, &frametitle, &frame);
            match tag {
                Some(t) => {
                    let ghost old_r = r@;
                    r.push(t);
                    assert(ranges_int(r@) =~= ranges_int(old_r).push((t.0 as int, t.1 as int)));
                    assert(ranges_int(old_r) + (seq![(t.0 as int, t.1 as int)] + title_ranges(
                        s,
                        p2 as int,
                    )) =~= ranges_int(r@) + title_ranges(s, p2 as int));
                },
                None => {},
            }
            point = p2;
        } else {
            point = q;
        }
    }
}

} // verus!
