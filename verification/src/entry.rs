//! One record of a basic-block trace, and its form as a line of text.
//!
//! A line holds three fields divided by single spaces: the identifier and
//! the program counter in base sixteen, the hit counter in base ten. The
//! line is divided at its first two spaces; a field that is missing counts
//! as empty, and an empty field is no number.

use vstd::prelude::*;
use crate::lines::{
    after_byte, before_byte, free_of, lemma_divide_joined, split_at_byte,
};
use crate::number::{
    all_digits, decimal_text, digit_value, format_decimal, format_hex, format_padded_hex,
    hex_text, is_digit, lemma_decimal_text, lemma_hex_text, lemma_parse_decimal_text,
    lemma_parse_hex_text, padded_hex_text, parse_decimal, parse_hex, parse_usize,
};

verus! {

pub const SPACE: u8 = 32;

/// The least number of digits with which an identifier is written.
pub const ID_WIDTH: usize = 4;

/// One record of a trace: the block's identifier, the address of its entry
/// instruction and the number of times it was executed.
#[derive(Clone, Copy, Debug, PartialEq, Eq, Structural)]
pub struct BasicBlockEntry {
    pub id: usize,
    pub program_counter: usize,
    pub hit_counter: usize,
}

/// The fields of a line, in the order in which they stand and are read.
#[derive(Clone, Copy, Debug, PartialEq, Eq, Structural)]
pub enum Field {
    Identifier,
    ProgramCounter,
    HitCounter,
}

/// The first field of a line.
pub open spec fn id_field(line: Seq<u8>) -> Seq<u8> {
    before_byte(line, SPACE)
}

/// The second field of a line.
pub open spec fn pc_field(line: Seq<u8>) -> Seq<u8> {
    before_byte(after_byte(line, SPACE), SPACE)
}

/// The third field of a line: all that follows its second space.
pub open spec fn hits_field(line: Seq<u8>) -> Seq<u8> {
    after_byte(after_byte(line, SPACE), SPACE)
}

/// What a line holds: its record, or the first of its fields that is no
/// number of its base or does not fit a `usize`.
pub open spec fn parse_line(line: Seq<u8>) -> Result<BasicBlockEntry, Field> {
    let id = parse_usize(id_field(line), 16);
    let pc = parse_usize(pc_field(line), 16);
    let hits = parse_usize(hits_field(line), 10);
    if id is None {
        Err(Field::Identifier)
    } else if pc is None {
        Err(Field::ProgramCounter)
    } else if hits is None {
        Err(Field::HitCounter)
    } else {
        Ok(
            BasicBlockEntry {
                id: id.unwrap(),
                program_counter: pc.unwrap(),
                hit_counter: hits.unwrap(),
            },
        )
    }
}

/// The line of a record without its identifier: the program counter in
/// lower-case base sixteen, a space, the hit counter in base ten.
pub open spec fn stripped_text(e: BasicBlockEntry) -> Seq<u8> {
    hex_text(e.program_counter as nat) + seq![SPACE] + decimal_text(e.hit_counter as nat)
}

/// The identifier as it is written: base sixteen, at least four digits.
pub open spec fn id_text(id: nat) -> Seq<u8> {
    padded_hex_text(id, ID_WIDTH as nat)
}

/// The full line of a record: the identifier, a space, and the stripped
/// line.
pub open spec fn full_text(e: BasicBlockEntry) -> Seq<u8> {
    id_text(e.id as nat) + seq![SPACE] + stripped_text(e)
}

/// The line of a record in either form.
pub open spec fn line_text(e: BasicBlockEntry, strip: bool) -> Seq<u8> {
    if strip {
        stripped_text(e)
    } else {
        full_text(e)
    }
}

impl BasicBlockEntry {
    /// Reads one line of a trace.
    pub fn parse(line: &[u8]) -> (r: Result<BasicBlockEntry, Field>)
        ensures
            r == parse_line(line@),
    {
        let (id_part, rest) = split_at_byte(line, SPACE);
        let (pc_part, hits_part) = split_at_byte(rest, SPACE);
        let id = match parse_hex(id_part) {
            Some(v) => v,
            None => {
                return Err(Field::Identifier);
            },
        };
        let program_counter = match parse_hex(pc_part) {
            Some(v) => v,
            None => {
                return Err(Field::ProgramCounter);
            },
        };
        let hit_counter = match parse_decimal(hits_part) {
            Some(v) => v,
            None => {
                return Err(Field::HitCounter);
            },
        };
        Ok(BasicBlockEntry { id, program_counter, hit_counter })
    }

    /// Writes the record as a line, without a line ending; with `strip`
    /// the identifier is left out.
    pub fn render(&self, strip: bool) -> (out: Vec<u8>)
        ensures
            out@ == line_text(*self, strip),
    {
        let mut out: Vec<u8> = Vec::new();
        if !strip {
            let mut id = format_padded_hex(self.id, ID_WIDTH);
            out.append(&mut id);
            out.push(SPACE);
        }
        let mut pc = format_hex(self.program_counter);
        let mut hits = format_decimal(self.hit_counter);
        out.append(&mut pc);
        out.push(SPACE);
        out.append(&mut hits);
        assert(out@ =~= line_text(*self, strip));
        out
    }
}

/// The full line of a record is its identifier, a space, and its stripped
/// line: both forms hold the same program counter and hit counter, and
/// putting the identifier back before a stripped line gives the full line.
pub proof fn lemma_stripped_line_is_full_line_without_id(e: BasicBlockEntry)
    ensures
        line_text(e, false) == id_text(e.id as nat) + seq![SPACE] + line_text(e, true),
        line_text(e, true) == line_text(e, false).subrange(
            id_text(e.id as nat).len() as int + 1,
            line_text(e, false).len() as int,
        ),
{
    assert(line_text(e, true) =~= line_text(e, false).subrange(
        id_text(e.id as nat).len() as int + 1,
        line_text(e, false).len() as int,
    ));
}

/// A string of digits is free of every byte that is no digit or letter.
pub proof fn lemma_digits_free_of(s: Seq<u8>, radix: nat, b: u8)
    requires
        all_digits(s, radix),
        digit_value(b) is None,
    ensures
        free_of(s, b),
{
    assert forall|i: int| 0 <= i < s.len() implies #[trigger] s[i] != b by {
        assert(is_digit(s[i], radix));
    }
}

/// The line of a record, in either form, is made of digits, letters and
/// spaces: it is free of every other byte, and ends in a digit.
pub proof fn lemma_line_text_bytes(e: BasicBlockEntry, strip: bool, b: u8)
    requires
        digit_value(b) is None,
        b != SPACE,
    ensures
        free_of(line_text(e, strip), b),
        line_text(e, strip).len() > 0,
        line_text(e, strip).last() != b,
{
    let id = id_text(e.id as nat);
    let pc = hex_text(e.program_counter as nat);
    let hits = decimal_text(e.hit_counter as nat);
    lemma_parse_hex_text(e.id, ID_WIDTH as nat);
    lemma_hex_text(e.program_counter as nat);
    lemma_decimal_text(e.hit_counter as nat);
    lemma_digits_free_of(id, 16, b);
    lemma_digits_free_of(pc, 16, b);
    lemma_digits_free_of(hits, 10, b);
    let stripped = stripped_text(e);
    assert forall|i: int| 0 <= i < stripped.len() implies #[trigger] stripped[i] != b by {
        if i < pc.len() {
            assert(stripped[i] == pc[i]);
        } else if i > pc.len() {
            assert(stripped[i] == hits[i - pc.len() - 1]);
        }
    }
    let full = full_text(e);
    assert forall|i: int| 0 <= i < full.len() implies #[trigger] full[i] != b by {
        if i < id.len() {
            assert(full[i] == id[i]);
        } else if i > id.len() {
            assert(full[i] == stripped[i - id.len() - 1]);
        }
    }
}

/// The full line of a record reads back as that record.
pub proof fn lemma_parse_full_text(e: BasicBlockEntry)
    ensures
        parse_line(full_text(e)) == Ok::<BasicBlockEntry, Field>(e),
{
    let id = id_text(e.id as nat);
    let pc = hex_text(e.program_counter as nat);
    let hits = decimal_text(e.hit_counter as nat);
    lemma_parse_hex_text(e.id, ID_WIDTH as nat);
    lemma_parse_hex_text(e.program_counter, 0);
    lemma_hex_text(e.program_counter as nat);
    lemma_parse_decimal_text(e.hit_counter);
    lemma_digits_free_of(id, 16, SPACE);
    lemma_digits_free_of(pc, 16, SPACE);
    lemma_divide_joined(id, SPACE, stripped_text(e));
    lemma_divide_joined(pc, SPACE, hits);
}

} // verus!
