//! Source text split into lines, and the correspondence between a
//! (row, column) cursor over the lines and an offset into the whole text.
use vstd::prelude::*;
use vstd::seq_lib::lemma_flatten_concat;

verus! {

/// The lines as character sequences.
pub open spec fn line_seqs(lines: Seq<Vec<char>>) -> Seq<Seq<char>> {
    lines.map_values(|l: Vec<char>| l@)
}

/// The text that the lines make up.
pub open spec fn text_of(ls: Seq<Seq<char>>) -> Seq<char> {
    ls.flatten()
}

/// The offset into the text of the cell at `row` and `col`.
pub open spec fn offset_of(ls: Seq<Seq<char>>, row: int, col: int) -> int {
    ls.take(row).flatten().len() + col
}

/// There is at least one line, and only the last may be empty.
pub open spec fn lines_wf(ls: Seq<Seq<char>>) -> bool {
    &&& ls.len() >= 1
    &&& forall|i: int| 0 <= i < ls.len() - 1 ==> (#[trigger] ls[i]).len() > 0
}

/// Lines as `split_lines` makes them: every line but the last ends in a
/// newline, and no other character of any line is one.
pub open spec fn split_at_newlines(ls: Seq<Seq<char>>) -> bool {
    &&& lines_wf(ls)
    &&& forall|i: int| 0 <= i < ls.len() - 1 ==> (#[trigger] ls[i]).last() == '\n'
    &&& forall|i: int, j: int|
        0 <= i < ls.len() && 0 <= j < ls[i].len() && (#[trigger] ls[i][j]) == '\n' ==> i < ls.len()
            - 1 && j == ls[i].len() - 1
}

/// A cursor position: on a character, or the single place past the end of
/// the text.
pub open spec fn pos_valid(ls: Seq<Seq<char>>, row: int, col: int) -> bool {
    ||| (0 <= row < ls.len() && 0 <= col < ls[row].len())
    ||| (col == 0 && row == ls.len() && ls.last().len() > 0)
    ||| (col == 0 && row == ls.len() - 1 && ls.last().len() == 0)
}

proof fn lemma_flatten_split(ls: Seq<Seq<char>>, row: int)
    requires
        0 <= row < ls.len(),
    ensures
        ls.flatten() == ls.take(row).flatten() + ls[row] + ls.skip(row + 1).flatten(),
        ls.take(row + 1).flatten() == ls.take(row).flatten() + ls[row],
{
    assert(ls =~= ls.take(row) + ls.skip(row));
    lemma_flatten_concat(ls.take(row), ls.skip(row));
    assert(ls.skip(row).drop_first() =~= ls.skip(row + 1));
    assert(ls.skip(row).first() == ls[row]);
    assert(ls.take(row + 1) =~= ls.take(row).push(ls[row]));
    ls.take(row).lemma_flatten_push(ls[row]);
    assert(ls.take(row).flatten() + ls[row] + ls.skip(row + 1).flatten() =~= ls.take(row).flatten()
        + (ls[row] + ls.skip(row + 1).flatten()));
}

/// The cell at `row` and `col` holds the character at its offset.
pub proof fn lemma_offset_char(ls: Seq<Seq<char>>, row: int, col: int)
    requires
        0 <= row < ls.len(),
        0 <= col < ls[row].len(),
    ensures
        0 <= offset_of(ls, row, col) < text_of(ls).len(),
        text_of(ls)[offset_of(ls, row, col)] == ls[row][col],
{
    lemma_flatten_split(ls, row);
}

/// The first cell of a line follows the last cell of the line before.
pub proof fn lemma_offset_next_row(ls: Seq<Seq<char>>, row: int)
    requires
        0 <= row < ls.len(),
    ensures
        offset_of(ls, row + 1, 0) == offset_of(ls, row, ls[row].len() as int),
{
    lemma_flatten_split(ls, row);
}

/// A valid position lies within the text or just past it; it is on a
/// character exactly when its offset is below the length of the text.
pub proof fn lemma_pos_offset(ls: Seq<Seq<char>>, row: int, col: int)
    requires
        lines_wf(ls),
        pos_valid(ls, row, col),
    ensures
        0 <= offset_of(ls, row, col) <= text_of(ls).len(),
        (offset_of(ls, row, col) < text_of(ls).len()) == (row < ls.len() && col < ls[row].len()),
{
    if row < ls.len() && col < ls[row].len() {
        lemma_offset_char(ls, row, col);
    } else if row == ls.len() {
        assert(ls.take(row) =~= ls);
    } else {
        lemma_flatten_split(ls, row);
        assert(ls.skip(row + 1) =~= Seq::<Seq<char>>::empty());
        assert(ls.skip(row + 1).flatten() =~= Seq::<char>::empty());
    }
}

/// Splits `src` into lines, each holding its trailing newline; the last line
/// holds what follows the last newline, and may be empty.
pub fn split_lines(src: &str) -> (r: Vec<Vec<char>>)
    ensures
        split_at_newlines(line_seqs(r@)),
        text_of(line_seqs(r@)) == src@,
{
    let mut lines: Vec<Vec<char>> = Vec::new();
    let mut line: Vec<char> = Vec::new();
    for ch in it: src.chars()
        invariant
            it.seq() == src@,
            text_of(line_seqs(lines@)) + line@ == src@.take(it.index()),
            forall|i: int|
                0 <= i < lines@.len() ==> (#[trigger] lines@[i])@.len() > 0 && lines@[i]@.last()
                    == '\n',
            forall|i: int, j: int|
                0 <= i < lines@.len() && 0 <= j < lines@[i]@.len() && (#[trigger] lines@[i]@[j])
                    == '\n' ==> j == lines@[i]@.len() - 1,
            forall|j: int| 0 <= j < line@.len() ==> (#[trigger] line@[j]) != '\n',
    {
        let ghost before = line_seqs(lines@);
        let ghost old_line = line@;
        assert(src@.take(it.index() + 1) =~= src@.take(it.index()).push(ch));
        line.push(ch);
        assert(text_of(before) + line@ =~= (text_of(before) + old_line).push(ch));
        if ch == '\n' {
            let ghost full = line@;
            lines.push(line);
            line = Vec::new();
            proof {
                assert(line_seqs(lines@) =~= before.push(full));
                before.lemma_flatten_push(full);
                assert(text_of(line_seqs(lines@)) + line@ =~= src@.take(it.index() + 1));
            }
        }
    }
    let ghost before = line_seqs(lines@);
    let ghost last = line@;
    lines.push(line);
    proof {
        assert(line_seqs(lines@) =~= before.push(last));
        before.lemma_flatten_push(last);
        assert(src@.take(src@.len() as int) =~= src@);
        let ls = line_seqs(lines@);
        assert forall|i: int, j: int|
            0 <= i < ls.len() && 0 <= j < ls[i].len() && (#[trigger] ls[i][j]) == '\n' implies i
            < ls.len() - 1 && j == ls[i].len() - 1 by {
            assert(ls[i] == lines@[i]@);
        }
        assert forall|i: int| 0 <= i < ls.len() - 1 implies (#[trigger] ls[i]).len() > 0 by {
            assert(ls[i] == lines@[i]@);
        }
        assert forall|i: int| 0 <= i < ls.len() - 1 implies (#[trigger] ls[i]).last() == '\n' by {
            assert(ls[i] == lines@[i]@);
        }
    }
    lines
}

} // verus!
