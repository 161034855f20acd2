//! The textual renderer: a matrix as a grid of right-aligned labels.
//!
//! A rendering starts with a line break. Each row slice follows on a line of
//! its own, between `"[ "` and `"]"`, with one space after every label. All
//! labels of the grid are padded on the left to one common width.

use crate::layout::{
    chunk, chunk_count, chunk_end, chunk_start, lemma_chunk_bounds, lemma_chunk_exists,
};
use crate::storage::{Matrix, MatrixView};
use core::fmt::Display;
use vstd::prelude::*;
use vstd::string::{to_string_from_display_ensures, StrSliceExecFns, StringExecFns};
use vstd::utf8::encode_utf8;

verus! {

/// The text of each label, in order.
pub open spec fn label_views(labels: Seq<String>) -> Seq<Seq<char>> {
    labels.map_values(|label: String| label@)
}

/// The width a label asks for: the number of bytes of its UTF-8 encoding.
/// For a label of ASCII characters that is the number of its characters.
pub open spec fn text_width(label: Seq<char>) -> nat {
    encode_utf8(label).len()
}

/// The largest width that any of the labels asks for; 0 if there is none.
pub open spec fn widest(labels: Seq<Seq<char>>) -> nat
    decreases labels.len(),
{
    if labels.len() == 0 {
        0
    } else if widest(labels.drop_last()) >= text_width(labels.last()) {
        widest(labels.drop_last())
    } else {
        text_width(labels.last())
    }
}

/// `n` spaces.
pub open spec fn spaces(n: nat) -> Seq<char> {
    Seq::new(n, |i: int| ' ')
}

/// How many spaces stand before a label in a column of `width` characters:
/// as many as the label has characters fewer than `width`.
pub open spec fn padding(label: Seq<char>, width: nat) -> nat {
    if label.len() < width {
        (width - label.len()) as nat
    } else {
        0
    }
}

/// A label as it stands in the grid: padded on the left, one space after.
pub open spec fn cell_text(label: Seq<char>, width: nat) -> Seq<char> {
    spaces(padding(label, width)) + label + seq![' ']
}

/// The labels of one line, one after the other.
pub open spec fn cells_text(labels: Seq<Seq<char>>, width: nat) -> Seq<char>
    decreases labels.len(),
{
    if labels.len() == 0 {
        Seq::empty()
    } else {
        cells_text(labels.drop_last(), width) + cell_text(labels.last(), width)
    }
}

/// One line of the grid: the labels of a row slice in brackets.
pub open spec fn line_text(labels: Seq<Seq<char>>, width: nat) -> Seq<char> {
    seq!['[', ' '] + cells_text(labels, width) + seq![']', '\n']
}

/// The first `n` lines of the grid whose rows are `cols` labels long.
pub open spec fn lines_text(labels: Seq<Seq<char>>, cols: int, width: nat, n: nat) -> Seq<char>
    decreases n,
{
    if n == 0 {
        Seq::empty()
    } else {
        lines_text(labels, cols, width, (n - 1) as nat) + line_text(
            chunk(labels, cols, n - 1),
            width,
        )
    }
}

/// The whole grid: a line break, then one line for each row slice, every
/// label padded to the width of the widest label of the grid.
pub open spec fn grid_text(labels: Seq<Seq<char>>, cols: int) -> Seq<char> {
    seq!['\n'] + lines_text(
        labels,
        cols,
        widest(labels),
        chunk_count(labels.len() as int, cols) as nat,
    )
}

/// `labels` holds, for each cell of `m` in buffer order, a text that the
/// cell's `Display` implementation may produce.
pub open spec fn is_labelling<D: Display>(m: MatrixView<D>, labels: Seq<String>) -> bool {
    &&& labels.len() == m.cells.len()
    &&& forall|i: int|
        0 <= i < labels.len() ==> to_string_from_display_ensures::<D>(
            &m.cells[i],
            #[trigger] labels[i],
        )
}

/// The widest label is as wide as some label and no narrower than any.
pub proof fn lemma_widest_is_maximum(labels: Seq<Seq<char>>)
    ensures
        forall|i: int| 0 <= i < labels.len() ==> text_width(#[trigger] labels[i]) <= widest(labels),
        labels.len() > 0 ==> exists|i: int|
            0 <= i < labels.len() && text_width(#[trigger] labels[i]) == widest(labels),
    decreases labels.len(),
{
    if labels.len() > 0 {
        let front = labels.drop_last();
        lemma_widest_is_maximum(front);
        assert forall|i: int| 0 <= i < labels.len() implies text_width(#[trigger] labels[i])
            <= widest(labels) by {
            if i < front.len() {
                assert(labels[i] == front[i]);
            }
        }
        if widest(front) >= text_width(labels.last()) && front.len() > 0 {
            let i = choose|i: int|
                0 <= i < front.len() && text_width(#[trigger] front[i]) == widest(front);
            assert(labels[i] == front[i]);
        } else {
            assert(text_width(labels[labels.len() - 1]) == widest(labels));
        }
    }
}

/// Lays labels out as a grid whose rows are `cols` labels long.
///
/// The labels are taken `cols` at a time, first to last; the last line is
/// shorter when their number is no multiple of `cols`.
pub fn render_grid(labels: &Vec<String>, cols: usize) -> (text: String)
    requires
        cols > 0,
    ensures
        text@ == grid_text(label_views(labels@), cols as int),
{
    let ghost all = label_views(labels@);
    let len: usize = labels.len();
    let mut width: usize = 0;
    let mut i: usize = 0;
    while i < len
        invariant
            len == labels@.len(),
            all == label_views(labels@),
            i <= len,
            width == widest(all.take(i as int)),
        decreases len - i,
    {
        let w: usize = labels[i].as_str().as_bytes().len();
        proof {
            assert(all.take(i + 1).drop_last() == all.take(i as int));
            assert(all.take(i + 1).last() == labels@[i as int]@);
        }
        if w > width {
            width = w;
        }
        i += 1;
    }
    proof {
        assert(all.take(len as int) == all);
        reveal_strlit("\n");
        reveal_strlit("[ ");
        reveal_strlit("]\n");
        reveal_strlit(" ");
        lemma_chunk_exists(len as int, cols as int, 0);
    }
    let mut text = String::from_str("\n");
    assert(text@ == seq!['\n']);
    let mut start: usize = 0;
    let ghost mut line: nat = 0;
    while start < len
        invariant
            cols > 0,
            len == labels@.len(),
            all == label_views(labels@),
            all.len() == len,
            "[ "@ == seq!['[', ' '],
            "]\n"@ == seq![']', '\n'],
            " "@ == seq![' '],
            line <= chunk_count(len as int, cols as int),
            line < chunk_count(len as int, cols as int) ==> start == chunk_start(
                cols as int,
                line as int,
            ),
            line == chunk_count(len as int, cols as int) ==> start == len,
            text@ == seq!['\n'] + lines_text(all, cols as int, width as nat, line),
        decreases len - start,
    {
        proof {
            lemma_chunk_bounds(len as int, cols as int, line as int);
            assert((line + 1) * cols == line * cols + cols) by (nonlinear_arith);
        }
        let end: usize = if len - start >= cols {
            start + cols
        } else {
            len
        };
        assert(end == chunk_end(len as int, cols as int, line as int));
        let ghost before = text@;
        text.append("[ ");
        let mut c: usize = start;
        while c < end
            invariant
                len == labels@.len(),
                all == label_views(labels@),
                all.len() == len,
                " "@ == seq![' '],
                start <= c <= end <= len,
                text@ == before + seq!['[', ' '] + cells_text(
                    all.subrange(start as int, c as int),
                    width as nat,
                ),
            decreases end - c,
        {
            let label: &str = labels[c].as_str();
            let used: usize = label.unicode_len();
            let pad: usize = if used < width {
                width - used
            } else {
                0
            };
            let ghost line_before = text@;
            let mut k: usize = 0;
            while k < pad
                invariant
                    " "@ == seq![' '],
                    k <= pad,
                    text@ == line_before + spaces(k as nat),
                decreases pad - k,
            {
                text.append(" ");
                k += 1;
                assert(spaces(k as nat) =~= spaces((k - 1) as nat) + seq![' ']);
                assert(text@ =~= line_before + spaces(k as nat));
            }
            text.append(label);
            text.append(" ");
            proof {
                let done = all.subrange(start as int, c as int);
                let next = all.subrange(start as int, c + 1);
                assert(next.drop_last() == done);
                assert(next.last() == label@);
                assert(pad == padding(label@, width as nat));
                assert(text@ =~= line_before + cell_text(label@, width as nat));
                assert(text@ =~= before + seq!['[', ' '] + cells_text(next, width as nat));
            }
            c += 1;
        }
        text.append("]\n");
        proof {
            assert(all.subrange(start as int, end as int) == chunk(
                all,
                cols as int,
                line as int,
            ));
            let shown = chunk(all, cols as int, line as int);
            assert(text@ =~= before + line_text(shown, width as nat));
            assert(text@ =~= seq!['\n'] + lines_text(all, cols as int, width as nat, line + 1));
            line = line + 1;
        }
        start = end;
    }
    proof {
        lemma_chunk_exists(len as int, cols as int, line as int);
    }
    text
}

impl<D> Matrix<D> where D: Display + Default {
    /// The text of every cell, in buffer order.
    fn labels(&self) -> (labels: Vec<String>)
        ensures
            is_labelling(self@, labels@),
    {
        let n: usize = self.matrix.len();
        let mut labels: Vec<String> = Vec::with_capacity(n);
        let mut i: usize = 0;
        while i < n
            invariant
                n == self@.cells.len(),
                i <= n,
                labels@.len() == i,
                forall|k: int|
                    0 <= k < i ==> to_string_from_display_ensures::<D>(
                        &self@.cells[k],
                        #[trigger] labels@[k],
                    ),
            decreases n - i,
        {
            labels.push(self.matrix[i].to_string());
            i += 1;
        }
        labels
    }

    /// Renders the matrix as a grid: a line break, then each row slice on a
    /// line of its own, every cell shown by its `Display` text and padded
    /// on the left to the width of the widest text of the matrix.
    pub fn render(&self) -> (text: String)
        requires
            self@.cols > 0,
        ensures
            exists|labels: Seq<String>|
                is_labelling(self@, labels) && text@ == #[trigger] grid_text(
                    label_views(labels),
                    self@.cols as int,
                ),
    {
        let labels = self.labels();
        let text = render_grid(&labels, self.cols);
        assert(is_labelling(self@, labels@) && text@ == grid_text(
            label_views(labels@),
            self@.cols as int,
        ));
        text
    }
}

} // verus!
