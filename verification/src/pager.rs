//! The pager: lays a list of strings out in columns sized to the
//! terminal, renders one screenful at a time, and decides how each
//! navigation key moves the view.  Printing and key reading stay with the
//! caller; everything decided here is pure and proved.

use vstd::prelude::*;

verus! {

/// A navigation key, as the terminal reports it.
pub enum PagerKey {
    Home,
    End,
    PageUp,
    PageDown,
    ArrowUp,
    ArrowDown,
    Enter,
    Escape,
    Interrupt,
    Char(char),
    Other,
}

/// What the pager does with a key: ignore it and wait for another,
/// repaint with a new top row, or stop paginating at once.
#[derive(PartialEq, Eq, Structural)]
pub enum PagerAction {
    Ignore,
    Scroll(usize),
    Abort,
}

/// The column layout of one pager invocation.
pub struct PageLayout {
    /// Number of columns.
    pub cols: usize,
    /// Width of every column but the last of a row.
    pub cwidth: usize,
    /// Total number of rows.
    pub end_row: usize,
    /// Rows visible on one screen.
    pub page_size: usize,
    /// True iff the rows do not all fit on one screen.
    pub is_paged: bool,
}

impl PageLayout {
    /// The layout a terminal of `term_w` by `term_h` cells gives to
    /// `num_lines` items of at most `max_line` characters.
    pub open spec fn wf(self, num_lines: int) -> bool {
        &&& self.cols >= 1
        &&& self.end_row == (num_lines + self.cols - 1) / self.cols as int
        &&& self.is_paged == (self.end_row > self.page_size)
        &&& num_lines + self.cols <= usize::MAX
    }

    /// Compute the layout: column slots are two cells wider than the
    /// longest item and every non-final column of a row is padded to
    /// exactly that slot width, columns fill the terminal width, and one
    /// screen keeps a row for the prompt.
    pub fn new(term_w: usize, term_h: usize, num_lines: usize, max_line: usize) -> (r:
        PageLayout)
        requires
            max_line + 2 <= term_w,
            term_h >= 1,
            num_lines + term_w <= usize::MAX,
        ensures
            r.wf(num_lines as int),
            r.cols == term_w as int / (max_line + 2),
            r.cwidth == max_line + 2,
            r.page_size == term_h - 1,
    {
        let cols = term_w / (max_line + 2);
        assert(cols >= 1) by (nonlinear_arith)
            requires
                max_line + 2 <= term_w,
                cols == term_w as int / (max_line + 2),
        ;
        assert(cols <= term_w) by (nonlinear_arith)
            requires
                cols == term_w as int / (max_line + 2),
                max_line + 2 >= 2,
                term_w >= 2,
        ;
        let cwidth = max_line + 2;
        let end_row = (num_lines + cols - 1) / cols;
        let page_size = term_h - 1;
        PageLayout { cols, cwidth, end_row, page_size, is_paged: end_row > page_size }
    }

    /// The range of items shown when the screen's top row is `position`:
    /// row-major, `page_size` rows of `cols` items, clipped to the item
    /// count.  The first screen is always admitted, so a single-screen
    /// layout (whose `end_row` may fall short of `page_size`) shows
    /// everything in one pass.
    pub fn span(&self, position: usize, num_lines: usize) -> (r: (usize, usize))
        requires
            self.wf(num_lines as int),
            position == 0 || (position < self.end_row && position + self.page_size
                <= self.end_row),
        ensures
            r.0 == position * self.cols,
            r.1 == min_int((position + self.page_size) * self.cols as int, num_lines as int),
            r.0 <= r.1 <= num_lines,
    {
        proof {
            lemma_row_bounds(self.cols as int, self.end_row as int, num_lines as int);
            if position > 0 {
                assert((position + 1) * self.cols as int <= self.end_row * self.cols as int
                    && position * self.cols as int + self.cols as int == (position + 1)
                    * self.cols as int) by (nonlinear_arith)
                    requires
                        position < self.end_row,
                        self.cols >= 1,
                ;
            }
        }
        let lstart = position * self.cols;
        if position + self.page_size >= self.end_row {
            // The last (or only) screen: everything that remains fits.
            proof {
                assert(self.end_row * self.cols as int <= (position + self.page_size)
                    * self.cols as int) by (nonlinear_arith)
                    requires
                        position + self.page_size >= self.end_row,
                        self.end_row >= 0,
                        self.cols >= 1,
                ;
            }
            return (lstart, num_lines);
        }
        proof {
            assert(position * self.cols as int <= (position + self.page_size) * self.cols as int
                <= self.end_row * self.cols as int) by (nonlinear_arith)
                requires
                    position + self.page_size <= self.end_row,
                    self.cols >= 1,
            ;
        }
        let lend_full = (position + self.page_size) * self.cols;
        let lend = if lend_full < num_lines {
            lend_full
        } else {
            num_lines
        };
        (lstart, lend)
    }
}

pub open spec fn min_int(a: int, b: int) -> int {
    if a < b {
        a
    } else {
        b
    }
}

/// `end_row` rows of `cols` items each hold all `num_lines` items.
proof fn lemma_row_bounds(cols: int, end_row: int, num_lines: int)
    requires
        cols >= 1,
        end_row == (num_lines + cols - 1) / cols,
        num_lines >= 0,
    ensures
        end_row * cols >= num_lines,
        end_row * cols < num_lines + cols,
{
    assert(end_row * cols >= num_lines && end_row * cols < num_lines + cols)
        by (nonlinear_arith)
        requires
            cols >= 1,
            end_row == (num_lines + cols - 1) / cols,
            num_lines >= 0,
    ;
}

/// `s` padded with spaces on the right to width `w`; text wider than the
/// slot is kept whole.
pub open spec fn pad_to(s: Seq<char>, w: int) -> Seq<char> {
    if s.len() >= w {
        s
    } else {
        s + Seq::new((w - s.len()) as nat, |i: int| ' ')
    }
}

/// The text of the items `[k, items.len())` of one screen: every item
/// that ends a row of `cols` is followed by a line break, every other
/// item is padded to `cwidth`.
pub open spec fn render_items(items: Seq<Seq<char>>, k: int, cols: int, cwidth: int) -> Seq<
    char,
>
    decreases items.len() - k when 0 <= k <= items.len()
{
    if k >= items.len() {
        Seq::empty()
    } else {
        let cell = if (k + 1) % cols == 0 {
            items[k] + seq!['\n']
        } else {
            pad_to(items[k], cwidth)
        };
        cell + render_items(items, k + 1, cols, cwidth)
    }
}

/// The full text of one screen: its cells, and a final line break when
/// the last row is left incomplete.
pub open spec fn render_page_spec(items: Seq<Seq<char>>, cols: int, cwidth: int) -> Seq<char> {
    render_items(items, 0, cols, cwidth) + if items.len() as int % cols != 0 {
        seq!['\n']
    } else {
        Seq::empty()
    }
}

/// Append `s` left-justified to width `w`.
fn push_padded(out: &mut String, s: &str, w: usize)
    ensures
        final(out)@ == old(out)@ + pad_to(s@, w as int),
{
    let ghost start = out@;
    out.append(s);
    let len = s.unicode_len();
    if len >= w {
        return ;
    }
    let mut n: usize = len;
    while n < w
        invariant
            s@.len() <= n <= w,
            out@ == start + s@ + Seq::new((n - s@.len()) as nat, |i: int| ' '),
        decreases w - n,
    {
        let ghost before = out@;
        out.append(" ");
        proof {
            reveal_strlit(" ");
            assert(" "@ =~= seq![' ']);
            assert(before + " "@ =~= start + s@ + Seq::new(
                (n + 1 - s@.len()) as nat,
                |i: int| ' ',
            ));
        }
        n += 1;
    }
    proof {
        assert(start + s@ + Seq::new((w - s@.len()) as nat, |i: int| ' ') =~= start + pad_to(
            s@,
            w as int,
        ));
    }
}

/// Render the items `[lstart, lend)` as one screen of text.
pub fn render_page(lines: &Vec<String>, lstart: usize, lend: usize, cols: usize, cwidth: usize)
    -> (r: String)
    requires
        cols >= 1,
        lstart <= lend <= lines@.len(),
    ensures
        r@ == render_page_spec(
            crate::strutil::views(lines@).subrange(lstart as int, lend as int),
            cols as int,
            cwidth as int,
        ),
{
    let ghost items = crate::strutil::views(lines@).subrange(lstart as int, lend as int);
    let mut out = String::new();
    let mut k: usize = 0;
    let mut i: usize = 0;
    let n = lend - lstart;
    proof {
        assert(out@ + render_items(items, 0, cols as int, cwidth as int) =~= render_items(
            items,
            0,
            cols as int,
            cwidth as int,
        ));
    }
    while k < n
        invariant
            cols >= 1,
            n == lend - lstart,
            lstart <= lend <= lines@.len(),
            items == crate::strutil::views(lines@).subrange(lstart as int, lend as int),
            k <= n == items.len(),
            i == k % cols,
            out@ + render_items(items, k as int, cols as int, cwidth as int) == render_items(
                items,
                0,
                cols as int,
                cwidth as int,
            ),
        decreases n - k,
    {
        let ghost before = out@;
        proof {
            assert(items[k as int] == lines@[lstart + k]@);
        }
        proof {
            assert((((k as int) % (cols as int)) + 1) % (cols as int) == ((k as int) + 1) % (
            cols as int)) by (nonlinear_arith)
                requires
                    cols >= 1,
                    k >= 0,
            ;
        }
        i = (i + 1) % cols;
        let l = lines[lstart + k].as_str();
        if i == 0 {
            out.append(l);
            out.append("\n");
            proof {
                reveal_strlit("\n");
                assert("\n"@ =~= seq!['\n']);
                assert((k + 1) % cols as int == 0);
                assert(before + (items[k as int] + seq!['\n']) =~= before + items[k as int]
                    + "\n"@);
            }
        } else {
            proof {
                assert((k + 1) % cols as int != 0);
            }
            push_padded(&mut out, l, cwidth);
        }
        proof {
            assert(before + (if (k + 1) % cols as int == 0 {
                items[k as int] + seq!['\n']
            } else {
                pad_to(items[k as int], cwidth as int)
            }) + render_items(items, k + 1, cols as int, cwidth as int) =~= before
                + render_items(items, k as int, cols as int, cwidth as int));
        }
        k += 1;
    }
    if i != 0 {
        out.append("\n");
        proof {
            reveal_strlit("\n");
            assert("\n"@ =~= seq!['\n']);
            assert(items.len() as int % (cols as int) != 0);
            assert(render_items(items, n as int, cols as int, cwidth as int) =~= Seq::<
                char,
            >::empty());
            assert(out@ =~= render_page_spec(items, cols as int, cwidth as int));
        }
    } else {
        proof {
            assert(items.len() as int % (cols as int) == 0);
            assert(render_items(items, n as int, cols as int, cwidth as int) =~= Seq::<
                char,
            >::empty());
            assert(out@ + Seq::<char>::empty() =~= out@);
        }
    }
    out
}

/// What the pager does with `key` when the top row is `position`:
/// exactly the navigation rules of the `--More--` prompt.
pub open spec fn navigate_spec(position: int, key: PagerKey, end_row: int, page_size: int)
    -> PagerAction {
    match key {
        PagerKey::Home => if position > 0 {
            PagerAction::Scroll(0)
        } else {
            PagerAction::Ignore
        },
        PagerKey::End => if position + page_size < end_row {
            PagerAction::Scroll((end_row - page_size) as usize)
        } else {
            PagerAction::Ignore
        },
        PagerKey::PageUp | PagerKey::Char('b') => if position > page_size {
            PagerAction::Scroll((position - page_size) as usize)
        } else if position > 0 {
            PagerAction::Scroll(0)
        } else {
            PagerAction::Ignore
        },
        PagerKey::Char(' ') | PagerKey::PageDown => if position + page_size * 2 < end_row {
            PagerAction::Scroll((position + page_size) as usize)
        } else if position + page_size < end_row {
            PagerAction::Scroll((end_row - page_size) as usize)
        } else {
            PagerAction::Ignore
        },
        PagerKey::ArrowUp => if position > 0 {
            PagerAction::Scroll((position - 1) as usize)
        } else {
            PagerAction::Ignore
        },
        PagerKey::Enter | PagerKey::ArrowDown => if position + page_size < end_row {
            PagerAction::Scroll((position + 1) as usize)
        } else {
            PagerAction::Ignore
        },
        PagerKey::Char('q') | PagerKey::Interrupt | PagerKey::Escape => PagerAction::Abort,
        _ => PagerAction::Ignore,
    }
}

impl PageLayout {
    /// Decide one navigation key.  A scroll target always leaves a full
    /// screen of rows visible below it.
    pub fn navigate(&self, position: usize, key: PagerKey) -> (r: PagerAction)
        requires
            position + self.page_size <= self.end_row,
        ensures
            r == navigate_spec(
                position as int,
                key,
                self.end_row as int,
                self.page_size as int,
            ),
            r matches PagerAction::Scroll(p) ==> p + self.page_size <= self.end_row,
    {
        match key {
            PagerKey::Home => if position > 0 {
                PagerAction::Scroll(0)
            } else {
                PagerAction::Ignore
            },
            PagerKey::End => if position + self.page_size < self.end_row {
                PagerAction::Scroll(self.end_row - self.page_size)
            } else {
                PagerAction::Ignore
            },
            PagerKey::PageUp => self.scroll_back(position),
            PagerKey::Char(c) => {
                if c == 'b' {
                    self.scroll_back(position)
                } else if c == ' ' {
                    self.scroll_forward(position)
                } else if c == 'q' {
                    PagerAction::Abort
                } else {
                    PagerAction::Ignore
                }
            },
            PagerKey::PageDown => self.scroll_forward(position),
            PagerKey::ArrowUp => if position > 0 {
                PagerAction::Scroll(position - 1)
            } else {
                PagerAction::Ignore
            },
            PagerKey::Enter | PagerKey::ArrowDown => if position + self.page_size
                < self.end_row {
                PagerAction::Scroll(position + 1)
            } else {
                PagerAction::Ignore
            },
            PagerKey::Interrupt | PagerKey::Escape => PagerAction::Abort,
            PagerKey::Other => PagerAction::Ignore,
        }
    }

    /// Scroll back one screenful, clamped at the first row.
    fn scroll_back(&self, position: usize) -> (r: PagerAction)
        ensures
            r == (if position > self.page_size {
                PagerAction::Scroll((position - self.page_size) as usize)
            } else if position > 0 {
                PagerAction::Scroll(0usize)
            } else {
                PagerAction::Ignore
            }),
    {
        if position > self.page_size {
            PagerAction::Scroll(position - self.page_size)
        } else if position > 0 {
            PagerAction::Scroll(0)
        } else {
            PagerAction::Ignore
        }
    }

    /// Scroll forward one screenful, clamped so the last screen stays
    /// fully visible.
    fn scroll_forward(&self, position: usize) -> (r: PagerAction)
        requires
            position + self.page_size <= self.end_row,
        ensures
            r == (if position + self.page_size * 2 < self.end_row {
                PagerAction::Scroll((position + self.page_size) as usize)
            } else if position + self.page_size < self.end_row {
                PagerAction::Scroll((self.end_row - self.page_size) as usize)
            } else {
                PagerAction::Ignore
            }),
    {
        if position + self.page_size < self.end_row && self.page_size < self.end_row - position
            - self.page_size {
            PagerAction::Scroll(position + self.page_size)
        } else if position + self.page_size < self.end_row {
            PagerAction::Scroll(self.end_row - self.page_size)
        } else {
            PagerAction::Ignore
        }
    }
}

/// When everything fits on one screen, the very first span already shows
/// every item: output is a single pass and no prompt follows.
pub proof fn lemma_single_pass(layout: PageLayout, num_lines: int)
    requires
        layout.wf(num_lines),
        num_lines >= 0,
        !layout.is_paged,
    ensures
        min_int((0 + layout.page_size) * layout.cols as int, num_lines) == num_lines,
{
    lemma_row_bounds(layout.cols as int, layout.end_row as int, num_lines);
    assert(layout.page_size * layout.cols as int >= layout.end_row * layout.cols as int)
        by (nonlinear_arith)
        requires
            layout.page_size >= layout.end_row,
            layout.cols >= 1,
    ;
}

/// An abort key always halts pagination at once, whatever the position
/// and layout.
pub proof fn lemma_abort_keys(position: int, end_row: int, page_size: int)
    ensures
        navigate_spec(position, PagerKey::Char('q'), end_row, page_size) == PagerAction::Abort,
        navigate_spec(position, PagerKey::Interrupt, end_row, page_size) == PagerAction::Abort,
        navigate_spec(position, PagerKey::Escape, end_row, page_size) == PagerAction::Abort,
{
}

} // verus!
