//! The text of a dataset: one line for each field, the name first, then
//! the amounts, separated by commas. The amounts stay text here; their
//! value is the caller's to read.

use vstd::prelude::*;

verus! {

/// The byte that ends a line.
pub const NEWLINE: u8 = 10;

/// The byte that may stand before the newline of a line ending.
pub const CARRIAGE_RETURN: u8 = 13;

/// The byte that separates the cells of a line.
pub const COMMA: u8 = 44;

/// One line of a dataset: the name of the field and the text of each of
/// its amounts.
pub struct Record {
    pub name: Vec<u8>,
    pub values: Vec<Vec<u8>>,
}

/// What a record says.
pub struct RecordText {
    pub name: Seq<u8>,
    pub values: Seq<Seq<u8>>,
}

/// The texts that the vectors hold.
pub open spec fn texts(cells: Seq<Vec<u8>>) -> Seq<Seq<u8>> {
    Seq::new(cells.len(), |i: int| cells[i]@)
}

impl View for Record {
    type V = RecordText;

    open spec fn view(&self) -> RecordText {
        RecordText { name: self.name@, values: texts(self.values@) }
    }
}

/// `text` cut at every `sep`: the pieces between the separators, one
/// more than there are separators, some of them empty.
pub open spec fn pieces(text: Seq<u8>, sep: u8) -> Seq<Seq<u8>>
    decreases text.len(),
{
    if text.len() == 0 {
        seq![Seq::empty()]
    } else {
        let before = pieces(text.drop_last(), sep);
        if text.last() == sep {
            before.push(Seq::empty())
        } else {
            before.update(before.len() - 1, before.last().push(text.last()))
        }
    }
}

/// A line without the carriage return of its line ending.
pub open spec fn trimmed(line: Seq<u8>) -> Seq<u8> {
    if line.len() > 0 && line.last() == CARRIAGE_RETURN {
        line.drop_last()
    } else {
        line
    }
}

/// The lines of `text`. A line ends at a newline, or at a carriage
/// return and a newline; what follows the last newline is a line where
/// it is not empty.
pub open spec fn lines(text: Seq<u8>) -> Seq<Seq<u8>> {
    let raw = pieces(text, NEWLINE);
    let ended = Seq::new((raw.len() - 1) as nat, |i: int| trimmed(raw[i]));
    if raw.last().len() == 0 {
        ended
    } else {
        ended.push(raw.last())
    }
}

/// The record of a line: its first cell is the name, the others are the
/// amounts.
pub open spec fn record_of(line: Seq<u8>) -> RecordText {
    let cells = pieces(line, COMMA);
    RecordText { name: cells[0], values: cells.skip(1) }
}

/// The records of a dataset, line by line.
pub open spec fn records(text: Seq<u8>) -> Seq<RecordText> {
    Seq::new(lines(text).len(), |i: int| record_of(lines(text)[i]))
}

/// Cutting a text gives at least one piece.
pub proof fn lemma_pieces_len(text: Seq<u8>, sep: u8)
    ensures
        pieces(text, sep).len() >= 1,
    decreases text.len(),
{
    if text.len() > 0 {
        lemma_pieces_len(text.drop_last(), sep);
    }
}

/// Cuts `text` at every `sep`.
pub fn split(text: &[u8], sep: u8) -> (out: Vec<Vec<u8>>)
    ensures
        texts(out@) == pieces(text@, sep),
{
    let mut out: Vec<Vec<u8>> = Vec::new();
    let mut current: Vec<u8> = Vec::new();
    let mut i: usize = 0;
    assert(texts(out@).push(current@) =~= pieces(text@.take(0), sep));
    while i < text.len()
        invariant
            i <= text@.len(),
            texts(out@).push(current@) == pieces(text@.take(i as int), sep),
        decreases text@.len() - i,
    {
        let byte = text[i];
        let ghost before = pieces(text@.take(i as int), sep);
        proof {
            assert(text@.take(i + 1).drop_last() =~= text@.take(i as int));
            assert(text@.take(i + 1).last() == byte);
            assert(before.last() == current@);
            assert(before.len() == out@.len() + 1);
        }
        if byte == sep {
            out.push(current);
            current = Vec::new();
            assert(texts(out@).push(current@) =~= before.push(Seq::empty()));
        } else {
            current.push(byte);
            assert(texts(out@).push(current@) =~= before.update(
                before.len() - 1,
                before.last().push(byte),
            ));
        }
        i += 1;
    }
    assert(text@.take(text@.len() as int) =~= text@);
    let ghost done = texts(out@).push(current@);
    out.push(current);
    assert(texts(out@) =~= done);
    out
}

/// Reads the records of a dataset: cuts the text into lines and each
/// line into its name and the texts of its amounts.
pub fn split_records(content: &[u8]) -> (out: Vec<Record>)
    ensures
        out@.len() == records(content@).len(),
        forall|i: int| 0 <= i < out@.len() ==> (#[trigger] out@[i])@ == records(content@)[i],
{
    let raw = split(content, NEWLINE);
    let ghost raw_texts = texts(raw@);
    let count = raw.len();
    let mut out: Vec<Record> = Vec::new();
    proof {
        lemma_pieces_len(content@, NEWLINE);
    }
    let mut i: usize = 0;
    for line in it: raw
        invariant
            i == it.index(),
            count == it.seq().len(),
            count >= 1,
            texts(it.seq()) == pieces(content@, NEWLINE),
            i <= count,
            i < count ==> out@.len() == i,
            i == count ==> out@.len() == lines(content@).len(),
            forall|j: int|
                0 <= j < out@.len() ==> (#[trigger] out@[j])@ == records(content@)[j],
    {
        let mut line = line;
        let ghost whole = line@;
        assert(whole == pieces(content@, NEWLINE)[i as int]) by {
            assert(texts(it.seq())[i as int] == it.seq()[i as int]@);
        }
        let is_last = i + 1 == count;
        i += 1;
        if is_last {
            assert(line@ == pieces(content@, NEWLINE).last());
        } else {
            let len = line.len();
            if len > 0 && line[len - 1] == CARRIAGE_RETURN {
                line.pop();
            }
            assert(line@ =~= trimmed(whole));
        }
        if !is_last || line.len() > 0 {
            let ghost text = line@;
            assert(text == lines(content@)[i - 1]);
            let mut cells = split(line.as_slice(), COMMA);
            proof {
                lemma_pieces_len(text, COMMA);
            }
            let ghost all = texts(cells@);
            let name = cells.remove(0);
            assert(texts(cells@) =~= all.skip(1));
            let record = Record { name, values: cells };
            assert(record@ == record_of(text));
            out.push(record);
        }
    }
    out
}

} // verus!
