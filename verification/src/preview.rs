//! The preview pane's scroll state and content measurements.
use vstd::prelude::*;
use vstd::string::StrSliceExecFns;

use crate::util::dec_str;

verus! {

/// Height of one scroll step, in rows.
pub const SCROLL_SIZE: u16 = 5;

/// Scroll offsets of the preview pane, kept snapped to whole steps.
#[derive(Debug)]
pub struct PreviewState {
    x_offset: u16,
    y_offset: u16,
}

/// The offset one step before `v`, snapped to whole steps.
pub open spec fn step_down(v: u16) -> int {
    if v / (SCROLL_SIZE as u16) >= 1 {
        (v / (SCROLL_SIZE as u16) - 1) * (SCROLL_SIZE as int)
    } else {
        0
    }
}

/// The offset one step after `v`, snapped to whole steps.
pub open spec fn step_up(v: u16) -> int {
    (v / (SCROLL_SIZE as u16) + 1) * (SCROLL_SIZE as int)
}

impl PreviewState {
    /// The origin: no scrolling in either direction.
    pub fn new() -> (r: PreviewState)
        ensures
            r.spec_x() == 0,
            r.spec_y() == 0,
    {
        PreviewState { x_offset: 0, y_offset: 0 }
    }

    pub closed spec fn spec_x(self) -> u16 {
        self.x_offset
    }

    pub closed spec fn spec_y(self) -> u16 {
        self.y_offset
    }

    /// The horizontal scroll offset.
    pub fn x(&self) -> (r: u16)
        ensures
            r == self.spec_x(),
    {
        self.x_offset
    }

    /// The vertical scroll offset.
    pub fn y(&self) -> (r: u16)
        ensures
            r == self.spec_y(),
    {
        self.y_offset
    }

    /// Scrolls one step towards the top.
    pub fn scroll_up(&mut self)
        ensures
            final(self).spec_y() == step_down(old(self).spec_y()),
            final(self).spec_x() == old(self).spec_x(),
    {
        let q = self.y_offset / SCROLL_SIZE;
        self.y_offset = if q >= 1 {
            (q - 1) * SCROLL_SIZE
        } else {
            0
        };
    }

    /// Scrolls one step towards the bottom.
    pub fn scroll_down(&mut self)
        requires
            step_up(old(self).spec_y()) <= u16::MAX,
        ensures
            final(self).spec_y() == step_up(old(self).spec_y()),
            final(self).spec_x() == old(self).spec_x(),
    {
        self.y_offset = (self.y_offset / SCROLL_SIZE + 1) * SCROLL_SIZE;
    }

    /// Scrolls one step towards the left edge.
    pub fn scroll_left(&mut self)
        ensures
            final(self).spec_x() == step_down(old(self).spec_x()),
            final(self).spec_y() == old(self).spec_y(),
    {
        let q = self.x_offset / SCROLL_SIZE;
        self.x_offset = if q >= 1 {
            (q - 1) * SCROLL_SIZE
        } else {
            0
        };
    }

    /// Scrolls one step towards the right.
    pub fn scroll_right(&mut self)
        requires
            step_up(old(self).spec_x()) <= u16::MAX,
        ensures
            final(self).spec_x() == step_up(old(self).spec_x()),
            final(self).spec_y() == old(self).spec_y(),
    {
        self.x_offset = (self.x_offset / SCROLL_SIZE + 1) * SCROLL_SIZE;
    }
}

/// How many newline characters the text holds.
pub open spec fn newline_count(s: Seq<char>) -> nat
    decreases s,
{
    if s.len() == 0 {
        0
    } else if s.last() == '\n' {
        1 + newline_count(s.drop_last())
    } else {
        newline_count(s.drop_last())
    }
}

proof fn lemma_newline_count_le(s: Seq<char>)
    ensures
        newline_count(s) <= s.len(),
    decreases s,
{
    if s.len() > 0 {
        lemma_newline_count_le(s.drop_last());
    }
}

/// How many lines the text splits into: every newline ends a line, and a
/// trailing piece without a newline still counts.
pub open spec fn line_count(s: Seq<char>) -> nat {
    if s.len() == 0 {
        0
    } else if s.last() == '\n' {
        newline_count(s)
    } else {
        newline_count(s) + 1
    }
}

/// The length in characters of the longest line of the text.
pub open spec fn max_line_width(s: Seq<char>, cur: nat) -> nat
    decreases s,
{
    if s.len() == 0 {
        cur
    } else if s[0] == '\n' {
        let rest = max_line_width(s.drop_first(), 0);
        if cur >= rest {
            cur
        } else {
            rest
        }
    } else {
        max_line_width(s.drop_first(), cur + 1)
    }
}

/// Preview text with its measured height and width.
pub struct Content {
    text: String,
    n_lines: usize,
    width: usize,
}

impl Content {
    pub closed spec fn spec_text(self) -> Seq<char> {
        self.text@
    }

    pub closed spec fn spec_n_lines(self) -> usize {
        self.n_lines
    }

    pub closed spec fn spec_width(self) -> usize {
        self.width
    }

    /// Measures a text once, so the pane can clamp its scrolling.
    #[verifier::loop_isolation(false)]
    pub fn new(text: String) -> (r: Content)
        ensures
            r.spec_text() == text@,
            r.spec_n_lines() == line_count(text@),
            r.spec_width() == max_line_width(text@, 0),
    {
        let n = text.as_str().unicode_len();
        let mut nl: usize = 0;
        let mut i: usize = 0;
        while i < n
            invariant
                0 <= i <= n,
                n == text@.len(),
                nl == newline_count(text@.take(i as int)),
                nl <= i,
            decreases n - i,
        {
            let c = text.as_str().get_char(i);
            proof {
                assert(text@.take(i + 1).drop_last() =~= text@.take(i as int));
                assert(text@.take(i + 1).last() == text@[i as int]);
            }
            if c == '\n' {
                nl = nl + 1;
            }
            i = i + 1;
        }
        proof {
            assert(text@.take(n as int) =~= text@);
        }
        let n_lines: usize = if n == 0 {
            0
        } else {
            let last = text.as_str().get_char(n - 1);
            proof {
                assert(text@.last() == text@[n - 1]);
            }
            if last == '\n' {
                nl
            } else {
                proof {
                    lemma_newline_count_le(text@.drop_last());
                    assert(newline_count(text@) == newline_count(text@.drop_last()));
                    assert(nl < n);
                }
                nl + 1
            }
        };
        let width = Self::measure_width(&text, 0, 0);
        Content { text, n_lines, width }
    }

    fn measure_width(text: &String, from: usize, cur: usize) -> (r: usize)
        requires
            from <= text@.len(),
            cur <= from,
            text@.len() <= usize::MAX,
        ensures
            r == max_line_width(text@.skip(from as int), cur as nat),
        decreases text@.len() - from,
    {
        let n = text.as_str().unicode_len();
        if from == n {
            proof {
                assert(text@.skip(from as int) =~= Seq::<char>::empty());
            }
            return cur;
        }
        let c = text.as_str().get_char(from);
        proof {
            assert(text@.skip(from as int)[0] == text@[from as int]);
            assert(text@.skip(from as int).drop_first() =~= text@.skip(from + 1));
        }
        if c == '\n' {
            let rest = Self::measure_width(text, from + 1, 0);
            if cur >= rest {
                cur
            } else {
                rest
            }
        } else {
            Self::measure_width(text, from + 1, cur + 1)
        }
    }

    /// The measured text.
    pub fn text(&self) -> (r: &str)
        ensures
            r@ == self.spec_text(),
    {
        self.text.as_str()
    }

    /// The measured number of lines.
    pub fn n_lines(&self) -> (r: usize)
        ensures
            r == self.spec_n_lines(),
    {
        self.n_lines
    }

    /// The measured width of the longest line.
    pub fn width(&self) -> (r: usize)
        ensures
            r == self.spec_width(),
    {
        self.width
    }
}

/// The preview pane's content: measured text, or nothing to show.
pub struct Preview {
    content: Option<Content>,
}

impl Preview {
    pub closed spec fn spec_content(self) -> Option<Content> {
        self.content
    }

    /// Wraps a text for the pane, measuring it once.
    pub fn new(content: Option<String>) -> (r: Preview)
        ensures
            match content {
                Some(s) => r.spec_content() matches Some(c) && c.spec_text() == s@
                    && c.spec_n_lines() == line_count(s@) && c.spec_width() == max_line_width(
                    s@,
                    0,
                ),
                None => r.spec_content() is None,
            },
    {
        Preview {
            content: match content {
                Some(s) => Some(Content::new(s)),
                None => None,
            },
        }
    }

    /// The measured content, if there is any.
    pub fn content(&self) -> (r: &Option<Content>)
        ensures
            *r == self.spec_content(),
    {
        &self.content
    }
}

/// A number right-aligned in a field of at least `n_digits` characters,
/// as shown in the preview gutter.
pub open spec fn padded_number(index: u16, n_digits: nat) -> Seq<char> {
    let digits = dec_str(index as int);
    if digits.len() >= n_digits {
        digits
    } else {
        Seq::new((n_digits - digits.len()) as nat, |i: int| ' ') + digits
    }
}

/// Formats a line number for the preview gutter.
#[verifier::loop_isolation(false)]
pub fn number_format(index: u16, n_digits: usize) -> (r: String)
    ensures
        r@ == padded_number(index, n_digits as nat),
{
    let num = crate::util::usize_to_string(index as usize);
    let len = num.as_str().unicode_len();
    let mut s = String::new();
    let mut i: usize = 0;
    proof {
        assert(s@ =~= Seq::new(0, |k: int| ' '));
    }
    if len >= n_digits {
        proof {
            assert(padded_number(index, n_digits as nat) == num@);
        }
        return num;
    }
    while i < n_digits - len
        invariant
            0 <= i <= n_digits - len,
            len < n_digits,
            s@ =~= Seq::new(i as nat, |k: int| ' '),
        decreases n_digits - len - i,
    {
        s.append(" ");
        proof {
            reveal_strlit(" ");
            assert(s@ =~= Seq::new((i + 1) as nat, |k: int| ' '));
        }
        i = i + 1;
    }
    s.append(num.as_str());
    proof {
        assert(s@ =~= padded_number(index, n_digits as nat));
    }
    s
}

} // verus!
