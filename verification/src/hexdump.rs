//! Hex dumps of messages.

use crate::text::{
    decimal, decimal_text, hex_char, hex_digit, hex_text, hexadecimal, law_hex_digits, pad_zeros,
    repeated, zero_padded,
};
use vstd::prelude::*;
use vstd::string::StringExecFns;

verus! {

/// How many bytes a line shows.
pub const BYTES_PER_LINE: usize = 16;

/// Two hexadecimal digits and a blank for each byte.
pub open spec fn hex_cells(chunk: Seq<u8>) -> Seq<char>
    decreases chunk.len(),
{
    if chunk.len() == 0 {
        Seq::empty()
    } else {
        let b = chunk.last() as nat;
        hex_cells(chunk.drop_last()) + seq![hex_digit(b / 16), hex_digit(b % 16), ' ']
    }
}

/// The hexadecimal column of a line, filled up with blanks.
pub open spec fn hex_column(chunk: Seq<u8>) -> Seq<char> {
    hex_cells(chunk) + repeated(' ', (3 * (BYTES_PER_LINE - chunk.len())) as nat)
}

/// The character that a byte stands for, or a dot where none can be seen.
pub open spec fn shown_char(b: u8) -> char {
    if 0x21 <= b <= 0x7e {
        b as char
    } else {
        '.'
    }
}

/// The text column of a line.
pub open spec fn text_column(chunk: Seq<u8>) -> Seq<char> {
    Seq::new(chunk.len(), |i: int| shown_char(chunk[i]))
}

/// The line of the bytes from `offset` on.
pub open spec fn dump_line(offset: nat, chunk: Seq<u8>) -> Seq<char> {
    zero_padded(hexadecimal(offset), 4) + ": "@ + hex_column(chunk) + " |"@ + text_column(chunk)
        + "|\n"@
}

/// The bytes of the line from `offset` on.
pub open spec fn line_bytes(bytes: Seq<u8>, offset: int) -> Seq<u8> {
    if offset + BYTES_PER_LINE <= bytes.len() {
        bytes.subrange(offset, offset + BYTES_PER_LINE)
    } else {
        bytes.subrange(offset, bytes.len() as int)
    }
}

/// The first `count` lines.
pub open spec fn dump_lines(bytes: Seq<u8>, count: nat) -> Seq<char>
    decreases count,
{
    if count == 0 {
        Seq::empty()
    } else {
        let offset = (count - 1) * BYTES_PER_LINE;
        dump_lines(bytes, (count - 1) as nat) + dump_line(
            offset as nat,
            line_bytes(bytes, offset),
        )
    }
}

/// How many lines some bytes take.
pub open spec fn line_count(len: nat) -> nat {
    (len + 15) / 16
}

/// The whole dump.
pub open spec fn dump(label: Seq<char>, bytes: Seq<u8>) -> Seq<char> {
    label + ":\n"@ + "Length: "@ + decimal(bytes.len()) + " bytes\n"@ + "Hex dump:\n"@ + dump_lines(
        bytes,
        line_count(bytes.len()),
    ) + "\n"@
}

/// Appends the line of the bytes from `from` up to but not including `to`.
fn push_line(out: &mut String, bytes: &[u8], from: usize, to: usize)
    requires
        from <= to <= bytes@.len(),
        to - from <= BYTES_PER_LINE,
    ensures
        final(out)@ == old(out)@ + dump_line(
            from as nat,
            bytes@.subrange(from as int, to as int),
        ),
{
    let ghost chunk = bytes@.subrange(from as int, to as int);
    let mut hex = String::new();
    let mut text = String::new();
    let mut i: usize = from;
    while i < to
        invariant
            from <= i <= to <= bytes@.len(),
            chunk == bytes@.subrange(from as int, to as int),
            hex@ == hex_cells(chunk.take(i - from)),
            text@ == text_column(chunk.take(i - from)),
        decreases to - i,
    {
        let b: u8 = bytes[i];
        let ghost done = chunk.take(i - from);
        let ghost next = chunk.take(i + 1 - from);
        proof {
            assert(next.drop_last() =~= done);
            assert(next.last() == b);
        }
        hex.push(hex_char(b / 16));
        hex.push(hex_char(b % 16));
        hex.push(' ');
        assert(hex@ =~= hex_cells(next));
        text.push(
            if 0x21 <= b && b <= 0x7e {
                b as char
            } else {
                '.'
            },
        );
        assert(text@ =~= text_column(next));
        i += 1;
    }
    assert(chunk.take(to - from) =~= chunk);
    let ghost cells = hex@;
    let mut missing: usize = BYTES_PER_LINE - (to - from);
    while missing > 0
        invariant
            missing <= BYTES_PER_LINE - chunk.len(),
            chunk.len() == to - from,
            to - from <= BYTES_PER_LINE,
            hex@ == cells + repeated(' ', (3 * (BYTES_PER_LINE - chunk.len() - missing)) as nat),
        decreases missing,
    {
        hex.push(' ');
        hex.push(' ');
        hex.push(' ');
        missing -= 1;
        assert(hex@ =~= cells + repeated(
            ' ',
            (3 * (BYTES_PER_LINE - chunk.len() - missing)) as nat,
        ));
    }
    out.append(pad_zeros(hex_text(from).as_str(), 4).as_str());
    out.append(": ");
    out.append(hex.as_str());
    out.append(" |");
    out.append(text.as_str());
    out.append("|\n");
    assert(out@ =~= old(out)@ + dump_line(from as nat, chunk));
}

/// What is printed of some bytes for debugging: the label, how many there are, and
/// every byte in hexadecimal and, where it can be seen, as a character.
pub fn debug_hex_print(label: &str, bytes: &[u8]) -> (out: String)
    ensures
        out@ == dump(label@, bytes@),
{
    let mut out = String::new();
    out.append(label);
    out.append(":\n");
    out.append("Length: ");
    out.append(decimal_text(bytes.len() as u128).as_str());
    out.append(" bytes\n");
    out.append("Hex dump:\n");
    let ghost head = out@;
    assert(head =~= label@ + ":\n"@ + "Length: "@ + decimal(bytes@.len()) + " bytes\n"@
        + "Hex dump:\n"@);
    let mut from: usize = 0;
    let ghost mut count: nat = 0;
    assert(out@ =~= head + dump_lines(bytes@, 0));
    while from < bytes.len()
        invariant
            from <= bytes@.len(),
            from < bytes@.len() ==> from == count * BYTES_PER_LINE,
            from == bytes@.len() ==> count == line_count(bytes@.len()),
            out@ == head + dump_lines(bytes@, count),
        decreases bytes@.len() - from,
    {
        let to: usize = if bytes.len() - from < BYTES_PER_LINE {
            bytes.len()
        } else {
            from + BYTES_PER_LINE
        };
        push_line(&mut out, bytes, from, to);
        proof {
            count = count + 1;
            assert(line_bytes(bytes@, from as int) == bytes@.subrange(from as int, to as int));
            assert(out@ =~= head + dump_lines(bytes@, count));
        }
        from = to;
    }
    out.append("\n");
    assert(out@ =~= dump(label@, bytes@));
    out
}

/// Every line shows its bytes in a column of the same width.
pub proof fn law_hex_column_width(chunk: Seq<u8>)
    requires
        chunk.len() <= BYTES_PER_LINE,
    ensures
        hex_column(chunk).len() == 48,
        text_column(chunk).len() == chunk.len(),
{
    lemma_hex_cells_len(chunk);
}

proof fn lemma_hex_cells_len(chunk: Seq<u8>)
    ensures
        hex_cells(chunk).len() == 3 * chunk.len(),
    decreases chunk.len(),
{
    if chunk.len() > 0 {
        lemma_hex_cells_len(chunk.drop_last());
    }
}

/// The hexadecimal column tells the bytes: no two lines of different bytes show
/// the same one.
pub proof fn law_hex_column_tells_bytes(a: Seq<u8>, b: Seq<u8>)
    requires
        a.len() <= BYTES_PER_LINE,
        b.len() <= BYTES_PER_LINE,
        hex_column(a) == hex_column(b),
    ensures
        a == b,
{
    lemma_hex_cells_len(a);
    lemma_hex_cells_len(b);
    if a.len() < b.len() {
        lemma_hex_cell(b, a.len() as int);
        assert(hex_column(a)[3 * a.len() as int] == ' ');
    }
    if b.len() < a.len() {
        lemma_hex_cell(a, b.len() as int);
        assert(hex_column(b)[3 * b.len() as int] == ' ');
    }
    assert(hex_column(a).take(hex_cells(a).len() as int) =~= hex_cells(a));
    assert(hex_column(b).take(hex_cells(b).len() as int) =~= hex_cells(b));
    lemma_hex_cells_tell_bytes(a, b);
}

/// Where the cell of a byte begins there is no blank.
proof fn lemma_hex_cell(chunk: Seq<u8>, i: int)
    requires
        0 <= i < chunk.len(),
    ensures
        3 * i < hex_cells(chunk).len(),
        hex_cells(chunk)[3 * i] != ' ',
    decreases chunk.len(),
{
    lemma_hex_cells_len(chunk);
    lemma_hex_cells_len(chunk.drop_last());
    if i < chunk.len() - 1 {
        lemma_hex_cell(chunk.drop_last(), i);
    } else {
        assert(hex_cells(chunk)[3 * i] == hex_digit(chunk.last() as nat / 16));
    }
}

proof fn lemma_hex_cells_tell_bytes(a: Seq<u8>, b: Seq<u8>)
    requires
        a.len() == b.len(),
        hex_cells(a) == hex_cells(b),
    ensures
        a == b,
    decreases a.len(),
{
    if a.len() > 0 {
        let a1 = a.drop_last();
        let b1 = b.drop_last();
        let x = a.last() as nat;
        let y = b.last() as nat;
        lemma_hex_cells_len(a1);
        lemma_hex_cells_len(b1);
        let n = hex_cells(a1).len() as int;
        assert(hex_cells(a)[n] == hex_digit(x / 16));
        assert(hex_cells(b)[n] == hex_digit(y / 16));
        assert(hex_cells(a)[n + 1] == hex_digit(x % 16));
        assert(hex_cells(b)[n + 1] == hex_digit(y % 16));
        assert(hex_cells(a).take(n) =~= hex_cells(a1));
        assert(hex_cells(b).take(n) =~= hex_cells(b1));
        lemma_hex_cells_tell_bytes(a1, b1);
        assert(a =~= a1.push(a.last()));
        assert(b =~= b1.push(b.last()));
    } else {
        assert(a =~= b);
    }
}

/// Every byte is shown in its place: two hexadecimal digits that stand for it and a blank,
/// and the character that it is, or a dot where it is no visible one.
pub proof fn law_every_byte_is_shown(chunk: Seq<u8>, i: int)
    requires
        0 <= i < chunk.len() <= 16,
    ensures
        hex_column(chunk).len() == 48,
        hex_column(chunk)[3 * i] == "0123456789ABCDEF"@[chunk[i] as int / 16],
        hex_column(chunk)[3 * i + 1] == "0123456789ABCDEF"@[chunk[i] as int % 16],
        hex_column(chunk)[3 * i + 2] == ' ',
        text_column(chunk).len() == chunk.len(),
        33 <= chunk[i] <= 126 ==> text_column(chunk)[i] == chunk[i] as char,
        !(33 <= chunk[i] <= 126) ==> text_column(chunk)[i] == '.',
        forall|k: int| 3 * chunk.len() <= k < 48 ==> #[trigger] hex_column(chunk)[k] == ' ',
{
    law_hex_column_width(chunk);
    lemma_hex_cells_len(chunk);
    lemma_cell(chunk, i);
    law_hex_digits(chunk[i] as nat / 16);
    law_hex_digits(chunk[i] as nat % 16);
}

proof fn lemma_cell(chunk: Seq<u8>, i: int)
    requires
        0 <= i < chunk.len(),
    ensures
        3 * i + 2 < hex_cells(chunk).len(),
        hex_cells(chunk)[3 * i] == hex_digit(chunk[i] as nat / 16),
        hex_cells(chunk)[3 * i + 1] == hex_digit(chunk[i] as nat % 16),
        hex_cells(chunk)[3 * i + 2] == ' ',
    decreases chunk.len(),
{
    lemma_hex_cells_len(chunk);
    lemma_hex_cells_len(chunk.drop_last());
    if i < chunk.len() - 1 {
        lemma_cell(chunk.drop_last(), i);
    }
}

/// The lines take the bytes sixteen by sixteen and leave none out: there are as many lines
/// as that takes, and the byte at `k` is on line `k / 16`, at place `k % 16`.
pub proof fn law_lines_cover_the_bytes(bytes: Seq<u8>, k: int)
    requires
        0 <= k < bytes.len(),
    ensures
        k / 16 < line_count(bytes.len()),
        16 * (line_count(bytes.len()) - 1) < bytes.len() <= 16 * line_count(bytes.len()),
        k % 16 < line_bytes(bytes, 16 * (k / 16)).len() <= 16,
        line_bytes(bytes, 16 * (k / 16))[k % 16] == bytes[k],
        line_bytes(bytes, 16 * (k / 16)).len() == 16 || 16 * (k / 16) + line_bytes(
            bytes,
            16 * (k / 16),
        ).len() == bytes.len(),
{
}

/// A dump begins with the label and the number of bytes, and goes on line by line: each
/// begins with the place of its first byte in hexadecimal, with at least four digits.
pub proof fn law_dump_layout(label: Seq<char>, bytes: Seq<u8>, count: nat)
    ensures
        dump(label, bytes) == label + ":\n"@ + "Length: "@ + decimal(bytes.len()) + " bytes\n"@
            + "Hex dump:\n"@ + dump_lines(bytes, line_count(bytes.len())) + "\n"@,
        dump_lines(bytes, 0).len() == 0,
        dump_lines(bytes, count + 1) == dump_lines(bytes, count) + zero_padded(
            hexadecimal(16 * count),
            4,
        ) + ": "@ + hex_column(line_bytes(bytes, 16 * count as int)) + " |"@ + text_column(
            line_bytes(bytes, 16 * count as int),
        ) + "|\n"@,
        line_count(0) == 0,
{
    let offset = 16 * count;
    let chunk = line_bytes(bytes, offset as int);
    assert((count + 1 - 1) * BYTES_PER_LINE == offset);
    assert(dump_lines(bytes, count + 1) == dump_lines(bytes, count) + dump_line(offset, chunk));
    assert(dump_lines(bytes, count + 1) =~= dump_lines(bytes, count) + zero_padded(
        hexadecimal(offset),
        4,
    ) + ": "@ + hex_column(chunk) + " |"@ + text_column(chunk) + "|\n"@);
}

} // verus!
