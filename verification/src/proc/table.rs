//! The text form of a task table: one task per line, four numbers each.

use crate::proc::task::{DescriptorModel, TaskChar};
use vstd::prelude::*;

verus! {

/// The byte that ends a line.
pub open spec fn is_newline(byte: u8) -> bool {
    byte == 10
}

/// Whether a byte separates fields: a space, a tab, a carriage return, a
/// vertical tab or a form feed.
pub open spec fn is_blank(byte: u8) -> bool {
    byte == 32 || byte == 9 || byte == 11 || byte == 12 || byte == 13
}

/// Whether a byte is a decimal digit.
pub open spec fn is_digit(byte: u8) -> bool {
    48 <= byte <= 57
}

/// The number of bytes before the first line end, or the whole length
/// where there is none.
pub open spec fn line_len(text: Seq<u8>) -> nat
    decreases text.len(),
{
    if text.len() == 0 || is_newline(text[0]) {
        0
    } else {
        1 + line_len(text.drop_first())
    }
}

/// The fields of a line: its maximal runs of bytes that are not blank, in
/// order. `current` is the run that is being read when `rest` begins.
pub open spec fn fields_from(rest: Seq<u8>, current: Seq<u8>) -> Seq<Seq<u8>>
    decreases rest.len(),
{
    let closed = if current.len() > 0 {
        seq![current]
    } else {
        Seq::empty()
    };
    if rest.len() == 0 {
        closed
    } else if is_blank(rest[0]) {
        closed + fields_from(rest.drop_first(), Seq::empty())
    } else {
        fields_from(rest.drop_first(), current.push(rest[0]))
    }
}

/// The fields of a line.
pub open spec fn fields(line: Seq<u8>) -> Seq<Seq<u8>> {
    fields_from(line, Seq::empty())
}

/// The number that a run of digits writes in decimal.
pub open spec fn digits_value(digits: Seq<u8>) -> nat
    decreases digits.len(),
{
    if digits.len() == 0 {
        0
    } else {
        digits_value(digits.drop_last()) * 10 + (digits.last() - 48) as nat
    }
}

/// A field without the plus sign that may stand in front of it.
pub open spec fn unsigned_part(field: Seq<u8>) -> Seq<u8> {
    if field.len() > 0 && field[0] == 43 {
        field.drop_first()
    } else {
        field
    }
}

/// Whether every byte is a decimal digit.
pub open spec fn all_digits(bytes: Seq<u8>) -> bool {
    forall|i: int| 0 <= i < bytes.len() ==> is_digit(#[trigger] bytes[i])
}

/// The number that a field writes: one or more decimal digits, with an
/// optional plus sign in front. Anything else writes no number.
pub open spec fn number(field: Seq<u8>) -> Option<nat> {
    let digits = unsigned_part(field);
    if digits.len() > 0 && all_digits(digits) {
        Some(digits_value(digits))
    } else {
        None
    }
}

/// Why a table could not be read.
#[derive(Clone, Copy, Debug, PartialEq, Eq, Structural)]
pub enum TableError {
    /// One of the first four fields of this line (counted from one) writes
    /// no number, or one too large for its place.
    BadNumber { line: usize },
    /// This line (counted from one) describes a task, but its number is
    /// too large to be a task identifier.
    TooManyLines { line: usize },
}

/// What a line says.
pub enum Row {
    /// The line has fewer than four fields and describes no task.
    Blank,
    /// The line describes one task, with these values.
    Task(DescriptorModel),
    /// The line has four fields but is wrong in this way.
    Wrong(TableError),
}

/// What the line with number `line_no` says. The first four fields are
/// the total CPU demand, the CPU burst length, the IO burst length and the
/// weight; further fields are ignored. The task's identifier is the
/// number of its line.
pub open spec fn row(line: Seq<u8>, line_no: nat) -> Row {
    let found = fields(line);
    if found.len() < 4 {
        Row::Blank
    } else {
        match (number(found[0]), number(found[1]), number(found[2]), number(found[3])) {
            (Some(demand), Some(cpu_burst), Some(io_burst), Some(weight)) => {
                if demand > usize::MAX || cpu_burst > usize::MAX || io_burst > u64::MAX || weight
                    > u32::MAX {
                    Row::Wrong(TableError::BadNumber { line: line_no as usize })
                } else if line_no > u16::MAX {
                    Row::Wrong(TableError::TooManyLines { line: line_no as usize })
                } else {
                    Row::Task(DescriptorModel { id: line_no, demand, cpu_burst, io_burst, weight })
                }
            },
            _ => Row::Wrong(TableError::BadNumber { line: line_no as usize }),
        }
    }
}

/// `found` in front of what the rest of the table says; the first error
/// stands for the whole.
pub open spec fn after(
    found: Seq<DescriptorModel>,
    rest: Result<Seq<DescriptorModel>, TableError>,
) -> Result<Seq<DescriptorModel>, TableError> {
    match rest {
        Ok(more) => Ok(found + more),
        Err(error) => Err(error),
    }
}

/// What a table says whose first line has number `line_no`: the tasks of
/// its lines in order, or the error of the first line that is wrong.
pub open spec fn table_from(text: Seq<u8>, line_no: nat) -> Result<Seq<DescriptorModel>, TableError>
    decreases text.len(),
{
    let n = line_len(text);
    let here = row(text.take(n as int), line_no);
    let found = match here {
        Row::Task(task) => seq![task],
        _ => Seq::empty(),
    };
    match here {
        Row::Wrong(error) => Err(error),
        _ => if n >= text.len() {
            Ok(found)
        } else {
            after(found, table_from(text.skip(n as int + 1), line_no + 1))
        },
    }
}

/// What a table says: the tasks that its lines describe, in order, each
/// with the number of its line as identifier.
pub open spec fn table(text: Seq<u8>) -> Result<Seq<DescriptorModel>, TableError> {
    table_from(text, 1)
}

/// A number as a 64-bit value, where it is one and fits.
pub open spec fn fitting(written: Option<nat>) -> Option<u64> {
    match written {
        Some(value) => if value <= u64::MAX {
            Some(value as u64)
        } else {
            None
        },
        None => None,
    }
}

/// A run of digits writes at least what any shorter run of its leading
/// digits writes.
pub proof fn lemma_digits_value_grows(digits: Seq<u8>, shorter: int)
    requires
        0 <= shorter <= digits.len(),
        all_digits(digits),
    ensures
        digits_value(digits.take(shorter)) <= digits_value(digits),
    decreases digits.len() - shorter,
{
    if shorter == digits.len() {
        assert(digits.take(shorter) =~= digits);
    } else {
        lemma_digits_value_grows(digits, shorter + 1);
        assert(digits.take(shorter + 1).drop_last() =~= digits.take(shorter));
    }
}

/// Reads the number that the bytes from `from` up to `to` write, where
/// they write one that fits in 64 bits.
fn read_number(text: &[u8], from: usize, to: usize) -> (value: Option<u64>)
    requires
        from <= to <= text@.len(),
    ensures
        value == fitting(number(text@.subrange(from as int, to as int))),
{
    let ghost field = text@.subrange(from as int, to as int);
    let mut i = from;
    if i < to && text[i] == 43 {
        i += 1;
    }
    let start = i;
    let ghost digits = text@.subrange(start as int, to as int);
    assert(digits =~= unsigned_part(field));
    if i == to {
        return None;
    }
    let mut acc: u64 = 0;
    while i < to
        invariant
            start <= i <= to <= text@.len(),
            from <= start,
            field == text@.subrange(from as int, to as int),
            digits == text@.subrange(start as int, to as int),
            digits.len() > 0,
            digits == unsigned_part(field),
            forall|k: int| 0 <= k < i - start ==> is_digit(#[trigger] digits[k]),
            acc == digits_value(digits.take(i - start)),
        decreases to - i,
    {
        let byte = text[i];
        if byte < 48 || byte > 57 {
            assert(!is_digit(digits[i - start]));
            return None;
        }
        let digit = (byte - 48) as u64;
        proof {
            assert(digits.take(i - start + 1).drop_last() =~= digits.take(i - start));
            assert(digits.take(i - start + 1).last() == byte);
        }
        if acc > (u64::MAX - digit) / 10 {
            proof {
                if number(field) is Some {
                    lemma_digits_value_grows(digits, i - start + 1);
                }
            }
            return None;
        }
        acc = acc * 10 + digit;
        i += 1;
    }
    assert(digits.take(i - start) =~= digits);
    Some(acc)
}

/// Finds the first fields of the line that runs from `from` up to `to`,
/// four of them at most, each as the positions where it begins and ends.
fn split_fields(text: &[u8], from: usize, to: usize) -> (found: Vec<(usize, usize)>)
    requires
        from <= to <= text@.len(),
    ensures
        found@.len() <= 4,
        found@.len() < 4 ==> found@.len() == fields(text@.subrange(from as int, to as int)).len(),
        found@.len() == 4 ==> fields(text@.subrange(from as int, to as int)).len() >= 4,
        forall|k: int|
            0 <= k < found@.len() ==> from <= (#[trigger] found@[k]).0 <= found@[k].1 <= to
                && text@.subrange(found@[k].0 as int, found@[k].1 as int) == fields(
                text@.subrange(from as int, to as int),
            )[k],
{
    let ghost line = text@.subrange(from as int, to as int);
    let ghost mut done: Seq<Seq<u8>> = Seq::empty();
    let mut found: Vec<(usize, usize)> = Vec::new();
    let mut begin = from;
    let mut i = from;
    proof {
        assert(line.skip(0) =~= line);
        assert(line.subrange(0, 0) =~= Seq::<u8>::empty());
        assert(done + fields_from(line, Seq::empty()) =~= fields(line));
    }
    while i < to && found.len() < 4
        invariant
            from <= begin <= i <= to <= text@.len(),
            line == text@.subrange(from as int, to as int),
            found@.len() <= 4,
            done.len() == found@.len(),
            fields(line) == done + fields_from(
                line.skip(i - from),
                line.subrange(begin - from, i - from),
            ),
            forall|k: int|
                0 <= k < found@.len() ==> {
                    &&& from <= (#[trigger] found@[k]).0 <= found@[k].1 <= to
                    &&& text@.subrange(found@[k].0 as int, found@[k].1 as int) == done[k]
                },
        decreases to - i,
    {
        let ghost rest = line.skip(i - from);
        let ghost current = line.subrange(begin - from, i - from);
        assert(rest.drop_first() =~= line.skip(i - from + 1));
        assert(rest[0] == text@[i as int]);
        let byte = text[i];
        if byte == 32 || byte == 9 || byte == 11 || byte == 12 || byte == 13 {
            if begin < i {
                found.push((begin, i));
                proof {
                    assert(text@.subrange(begin as int, i as int) =~= current);
                    assert((done + seq![current]) + fields_from(rest.drop_first(), Seq::empty())
                        =~= done + (seq![current] + fields_from(rest.drop_first(), Seq::empty())));
                    done = done.push(current);
                    assert(done =~= done.drop_last() + seq![current]);
                }
            } else {
                assert(current =~= Seq::<u8>::empty());
                assert(done + (Seq::<Seq<u8>>::empty() + fields_from(
                    rest.drop_first(),
                    Seq::empty(),
                )) =~= done + fields_from(rest.drop_first(), Seq::empty()));
            }
            begin = i + 1;
            assert(line.subrange(begin - from, i + 1 - from) =~= Seq::<u8>::empty());
        } else {
            assert(line.subrange(begin - from, i + 1 - from) =~= current.push(rest[0]));
        }
        i += 1;
    }
    if found.len() < 4 && begin < i {
        let ghost current = line.subrange(begin - from, i - from);
        assert(line.skip(i - from) =~= Seq::<u8>::empty());
        found.push((begin, i));
        proof {
            assert(text@.subrange(begin as int, i as int) =~= current);
            done = done.push(current);
        }
    } else if found.len() < 4 {
        assert(line.skip(i - from) =~= Seq::<u8>::empty());
        assert(line.subrange(begin - from, i - from) =~= Seq::<u8>::empty());
    }
    found
}

/// The models of a run of descriptors, in order.
pub open spec fn descriptor_models(found: Seq<TaskChar>) -> Seq<DescriptorModel> {
    found.map_values(|descriptor: TaskChar| descriptor@)
}

/// What the result of a reading says, in models.
pub open spec fn said(parsed: Result<Vec<TaskChar>, TableError>) -> Result<
    Seq<DescriptorModel>,
    TableError,
> {
    match parsed {
        Ok(found) => Ok(descriptor_models(found@)),
        Err(error) => Err(error),
    }
}

/// A line is as long as the run of bytes before the first line end.
pub proof fn lemma_line_len(text: Seq<u8>, n: int)
    requires
        0 <= n <= text.len(),
        forall|k: int| 0 <= k < n ==> !is_newline(#[trigger] text[k]),
        n == text.len() || is_newline(text[n]),
    ensures
        line_len(text) == n,
    decreases n,
{
    if n > 0 {
        let rest = text.drop_first();
        assert forall|k: int| 0 <= k < n - 1 implies !is_newline(#[trigger] rest[k]) by {
            assert(rest[k] == text[k + 1]);
        }
        lemma_line_len(rest, n - 1);
    }
}

/// Reads a task table. Lines end with a line feed. A line with fewer than
/// four fields describes no task; otherwise its first four fields give
/// the total CPU demand, the CPU burst length, the IO burst length and
/// the weight of a task whose identifier is the number of the line,
/// counted from one. The first line that is wrong ends the reading.
pub fn parse_table(text: &[u8]) -> (parsed: Result<Vec<TaskChar>, TableError>)
    ensures
        table(text@) == said(parsed),
{
    let mut found: Vec<TaskChar> = Vec::new();
    let mut pos: usize = 0;
    let mut line_no: usize = 1;
    proof {
        assert(text@.skip(0) =~= text@);
        assert(descriptor_models(found@) =~= Seq::<DescriptorModel>::empty());
        match table_from(text@, 1) {
            Ok(more) => {
                assert(Seq::<DescriptorModel>::empty() + more =~= more);
            },
            Err(_) => {},
        }
        if text@.len() == 0 {
            assert(text@.take(0) =~= Seq::<u8>::empty());
        }
    }
    while pos < text.len()
        invariant
            pos <= text@.len(),
            1 <= line_no <= pos + 1,
            table(text@) == after(
                descriptor_models(found@),
                if pos < text@.len() {
                    table_from(text@.skip(pos as int), line_no as nat)
                } else {
                    Ok(Seq::empty())
                },
            ),
        decreases text@.len() - pos,
    {
        let mut eol = pos;
        while eol < text.len() && text[eol] != 10
            invariant
                pos <= eol <= text@.len(),
                forall|k: int| pos <= k < eol ==> !is_newline(#[trigger] text@[k]),
            decreases text@.len() - eol,
        {
            eol += 1;
        }
        let ghost tail = text@.skip(pos as int);
        let ghost line = text@.subrange(pos as int, eol as int);
        let ghost before = descriptor_models(found@);
        proof {
            lemma_line_len(tail, eol - pos);
            assert(tail.take(eol - pos) =~= line);
            if eol < text@.len() {
                assert(tail.skip(eol - pos + 1) =~= text@.skip(eol + 1));
                if eol + 1 == text@.len() {
                    let last = text@.skip(eol + 1);
                    assert(last.take(0) =~= Seq::<u8>::empty());
                    assert(table_from(last, (line_no + 1) as nat) == Ok::<
                        Seq<DescriptorModel>,
                        TableError,
                    >(Seq::empty()));
                }
            }
        }
        let parts = split_fields(text, pos, eol);
        if parts.len() == 4 {
            let demand = read_number(text, parts[0].0, parts[0].1);
            let cpu_burst = read_number(text, parts[1].0, parts[1].1);
            let io_burst = read_number(text, parts[2].0, parts[2].1);
            let weight = read_number(text, parts[3].0, parts[3].1);
            match (demand, cpu_burst, io_burst, weight) {
                (Some(demand), Some(cpu_burst), Some(io_burst), Some(weight)) => {
                    if demand > usize::MAX as u64 || cpu_burst > usize::MAX as u64 || weight
                        > u32::MAX as u64 {
                        return Err(TableError::BadNumber { line: line_no });
                    }
                    if line_no > u16::MAX as usize {
                        return Err(TableError::TooManyLines { line: line_no });
                    }
                    found.push(
                        TaskChar::new(
                            line_no as u16,
                            demand as usize,
                            cpu_burst as usize,
                            io_burst,
                            weight as u32,
                        ),
                    );
                    proof {
                        let here = row(line, line_no as nat);
                        assert(here is Task);
                        assert(descriptor_models(found@) =~= before + seq![here->Task_0]);
                    }
                },
                _ => {
                    return Err(TableError::BadNumber { line: line_no });
                },
            }
        }
        proof {
            let here = row(line, line_no as nat);
            let said = match here {
                Row::Task(task) => seq![task],
                _ => Seq::empty(),
            };
            assert(descriptor_models(found@) =~= before + said);
            if eol < text@.len() {
                match table_from(text@.skip(eol + 1), (line_no + 1) as nat) {
                    Ok(more) => {
                        assert(before + (said + more) =~= (before + said) + more);
                    },
                    Err(_) => {},
                }
            } else {
                assert(before + said =~= (before + said) + Seq::<DescriptorModel>::empty());
            }
        }
        if eol < text.len() {
            pos = eol + 1;
            if pos < text.len() {
                line_no += 1;
            }
        } else {
            pos = eol;
        }
    }
    proof {
        assert(descriptor_models(found@) + Seq::<DescriptorModel>::empty() =~= descriptor_models(
            found@,
        ));
    }
    Ok(found)
}

} // verus!
