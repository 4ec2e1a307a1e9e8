use trace_unify::entry::{BasicBlockEntry, Field};
use trace_unify::reference::ReferenceSet;
use trace_unify::trace::{
    identifiers_gap_free, parse_bb_trace_file, parse_trace, render_trace, unify,
    unify_trace_text, ParseError, UnifyError,
};

fn entry(id: usize, program_counter: usize, hit_counter: usize) -> BasicBlockEntry {
    BasicBlockEntry { id, program_counter, hit_counter }
}

fn two_blocks() -> ReferenceSet {
    ReferenceSet::from_addresses(&[0x1000, 0x2000])
}

#[test]
fn scenario_full_output() {
    let text = b"0000 1000 5\n0001 3000 2\n0002 2000 7\n";
    let trace = parse_bb_trace_file(text, &two_blocks()).unwrap();
    assert_eq!(trace.entries, vec![entry(0, 0x1000, 5), entry(1, 0x2000, 7)]);
    assert_eq!(trace.dropped, 1);
    assert_eq!(render_trace(&trace.entries, false), b"0000 1000 5\n0001 2000 7\n".to_vec());
}

#[test]
fn scenario_stripped_output() {
    let text = b"0000 1000 5\n0001 3000 2\n0002 2000 7\n";
    let trace = parse_bb_trace_file(text, &two_blocks()).unwrap();
    assert_eq!(render_trace(&trace.entries, true), b"1000 5\n2000 7\n".to_vec());
}

#[test]
fn empty_text_gives_empty_trace() {
    let trace = parse_bb_trace_file(b"", &two_blocks()).unwrap();
    assert!(trace.entries.is_empty());
    assert_eq!(trace.dropped, 0);
    assert_eq!(render_trace(&trace.entries, false), Vec::<u8>::new());
    assert_eq!(render_trace(&trace.entries, true), Vec::<u8>::new());
}

#[test]
fn all_lines_filtered_gives_empty_trace() {
    let text = b"0000 3000 1\n0001 4000 2\n";
    let trace = parse_bb_trace_file(text, &two_blocks()).unwrap();
    assert!(trace.entries.is_empty());
    assert_eq!(trace.dropped, 2);
}

#[test]
fn output_length_is_number_of_member_lines() {
    let text = b"0000 1000 1\n0001 9 1\n0002 2000 1\n0003 1000 1\n0004 8 1\n";
    let trace = parse_bb_trace_file(text, &two_blocks()).unwrap();
    assert_eq!(trace.entries.len(), 3);
    assert_eq!(trace.dropped, 2);
}

#[test]
fn identifiers_are_compacted_without_gaps() {
    let text = b"0005 3000 1\n0006 1000 1\n0007 3000 1\n0008 3000 1\n0009 2000 1\n000a 1000 4\n";
    let trace = parse_bb_trace_file(text, &two_blocks()).unwrap();
    let ids: Vec<usize> = trace.entries.iter().map(|e| e.id).collect();
    assert_eq!(ids, vec![5, 6, 7]);
    assert_eq!(trace.entries[0], entry(6 - 1, 0x1000, 1));
}

#[test]
fn unifying_twice_changes_nothing() {
    let text = b"0000 1000 5\n0001 3000 2\n0002 2000 7\n0003 3000 1\n0004 1000 9\n";
    let valid = two_blocks();
    let once = parse_bb_trace_file(text, &valid).unwrap();
    let rendered = render_trace(&once.entries, false);
    let twice = parse_bb_trace_file(&rendered, &valid).unwrap();
    assert_eq!(twice.entries, once.entries);
    assert_eq!(twice.dropped, 0);
    let again = unify(&once.entries, &valid).unwrap();
    assert_eq!(again.entries, once.entries);
}

#[test]
fn nothing_filtered_keeps_every_entry() {
    let entries = vec![entry(0, 0x1000, 1), entry(1, 0x2000, 2), entry(2, 0x1000, 3)];
    let trace = unify(&entries, &two_blocks()).unwrap();
    assert_eq!(trace.entries, entries);
    assert_eq!(trace.dropped, 0);
}

#[test]
fn stripped_lines_with_identifiers_put_back_are_full_lines() {
    let entries = vec![entry(0, 0xabc, 10), entry(1, 0x2000, 0), entry(2, 0xffff_ffff, 123)];
    let full = render_trace(&entries, false);
    let stripped = render_trace(&entries, true);
    let mut rebuilt: Vec<u8> = Vec::new();
    for (i, line) in stripped.split(|b| *b == b'\n').filter(|l| !l.is_empty()).enumerate() {
        rebuilt.extend_from_slice(format!("{:04x} ", i).as_bytes());
        rebuilt.extend_from_slice(line);
        rebuilt.push(b'\n');
    }
    assert_eq!(rebuilt, full);
}

#[test]
fn bad_identifier_is_a_parse_error() {
    let text = b"0000 1000 5\nzz 1000 5\n";
    assert_eq!(
        parse_bb_trace_file(text, &two_blocks()).unwrap_err(),
        UnifyError::Parse(ParseError { line: 1, field: Field::Identifier })
    );
}

#[test]
fn bad_program_counter_is_a_parse_error() {
    let text = b"0000 10g0 5\n";
    assert_eq!(
        parse_trace(text).unwrap_err(),
        ParseError { line: 0, field: Field::ProgramCounter }
    );
}

#[test]
fn bad_hit_counter_is_a_parse_error() {
    let text = b"0000 1000 5\n0001 1000 5\n0002 1000 ff\n0003 1000 x\n";
    assert_eq!(parse_trace(text).unwrap_err(), ParseError { line: 2, field: Field::HitCounter });
}

#[test]
fn parse_error_comes_even_for_a_filtered_line() {
    let text = b"0000 3000 q\n";
    assert_eq!(
        parse_bb_trace_file(text, &two_blocks()).unwrap_err(),
        UnifyError::Parse(ParseError { line: 0, field: Field::HitCounter })
    );
}

#[test]
fn missing_fields_are_parse_errors() {
    assert_eq!(BasicBlockEntry::parse(b""), Err(Field::Identifier));
    assert_eq!(BasicBlockEntry::parse(b"12"), Err(Field::ProgramCounter));
    assert_eq!(BasicBlockEntry::parse(b"12 34"), Err(Field::HitCounter));
    assert_eq!(BasicBlockEntry::parse(b"12 34 "), Err(Field::HitCounter));
    assert_eq!(BasicBlockEntry::parse(b"12  34"), Err(Field::ProgramCounter));
}

#[test]
fn hit_counter_with_a_space_is_a_parse_error() {
    assert_eq!(BasicBlockEntry::parse(b"1 2 3 4"), Err(Field::HitCounter));
}

#[test]
fn line_fields_are_read_in_their_bases() {
    assert_eq!(BasicBlockEntry::parse(b"001f AbC 10"), Ok(entry(0x1f, 0xabc, 10)));
    assert_eq!(BasicBlockEntry::parse(b"+1 +2 +3"), Ok(entry(1, 2, 3)));
}

#[test]
fn identifier_smaller_than_dropped_count_is_an_error() {
    let text = b"0000 3000 1\n0001 3000 1\n0001 1000 1\n";
    assert_eq!(
        parse_bb_trace_file(text, &two_blocks()).unwrap_err(),
        UnifyError::IdentifierTooSmall { line: 2 }
    );
    let entries = vec![entry(0, 0x3000, 1), entry(0, 0x1000, 1)];
    assert_eq!(unify(&entries, &two_blocks()).unwrap_err(), 1);
}

#[test]
fn small_identifier_of_a_dropped_entry_is_no_error() {
    let text = b"0000 3000 1\n0000 3000 1\n0002 1000 1\n";
    let trace = parse_bb_trace_file(text, &two_blocks()).unwrap();
    assert_eq!(trace.entries, vec![entry(0, 0x1000, 1)]);
}

#[test]
fn line_endings_are_taken_off() {
    let text = b"0000 1000 5\r\n0001 2000 7";
    let entries = parse_trace(text).unwrap();
    assert_eq!(entries, vec![entry(0, 0x1000, 5), entry(1, 0x2000, 7)]);
}

#[test]
fn empty_line_is_a_parse_error() {
    let text = b"0000 1000 5\n\n0001 2000 7\n";
    assert_eq!(parse_trace(text).unwrap_err(), ParseError { line: 1, field: Field::Identifier });
}

#[test]
fn carriage_return_without_line_feed_stays_in_the_line() {
    let text = b"0000 1000 5\r";
    assert_eq!(parse_trace(text).unwrap_err(), ParseError { line: 0, field: Field::HitCounter });
}

#[test]
fn entry_renders_in_both_forms() {
    let e = entry(0x2a, 0x80001234, 17);
    assert_eq!(e.render(false), b"002a 80001234 17".to_vec());
    assert_eq!(e.render(true), b"80001234 17".to_vec());
    let wide = entry(0x12345, 0, 0);
    assert_eq!(wide.render(false), b"12345 0 0".to_vec());
}

#[test]
fn rendered_entry_parses_back() {
    let e = entry(0xbeef, 0xdead_beef, 4_000_000_000);
    assert_eq!(BasicBlockEntry::parse(&e.render(false)), Ok(e));
}

#[test]
fn output_extension_tells_the_form() {
    assert_eq!(trace_unify::output::output_extension(false), "unified");
    assert_eq!(trace_unify::output::output_extension(true), "stripped");
}

#[test]
fn text_is_unified_in_one_step() {
    let text = b"0000 1000 5\n0001 3000 2\n0002 2000 7\n";
    let full = unify_trace_text(text, &two_blocks(), false).unwrap();
    assert_eq!(full.text, b"0000 1000 5\n0001 2000 7\n".to_vec());
    assert_eq!(full.dropped, 1);
    let stripped = unify_trace_text(text, &two_blocks(), true).unwrap();
    assert_eq!(stripped.text, b"1000 5\n2000 7\n".to_vec());
    assert_eq!(stripped.dropped, 1);
}

#[test]
fn empty_text_unifies_to_empty_text() {
    let out = unify_trace_text(b"", &two_blocks(), false).unwrap();
    assert!(out.text.is_empty());
    assert_eq!(out.dropped, 0);
    let out = unify_trace_text(b"", &ReferenceSet::new(), true).unwrap();
    assert!(out.text.is_empty());
}

#[test]
fn unifying_text_fails_as_unifying_the_trace_does() {
    let text = b"0000 1000 5\n0001 1000\n";
    assert_eq!(
        unify_trace_text(text, &two_blocks(), true).unwrap_err(),
        UnifyError::Parse(ParseError { line: 1, field: Field::HitCounter })
    );
    let text = b"0000 3000 5\n0000 1000 1\n";
    assert_eq!(
        unify_trace_text(text, &two_blocks(), false).unwrap_err(),
        UnifyError::IdentifierTooSmall { line: 1 }
    );
}

#[test]
fn unified_text_unifies_to_itself() {
    let text = b"0003 1000 5\n0004 3000 2\n0005 2000 7\n0006 4000 2\n0007 2000 70\n";
    let valid = two_blocks();
    let once = unify_trace_text(text, &valid, false).unwrap();
    let twice = unify_trace_text(&once.text, &valid, false).unwrap();
    assert_eq!(twice.text, once.text);
    assert_eq!(twice.dropped, 0);
    assert_eq!(once.text, b"0003 1000 5\n0004 2000 7\n0005 2000 70\n".to_vec());
}

#[test]
fn gaps_in_identifiers_are_found() {
    assert!(identifiers_gap_free(&[]));
    assert!(identifiers_gap_free(&[entry(7, 1, 1)]));
    assert!(identifiers_gap_free(&[entry(0, 1, 1), entry(1, 2, 1), entry(2, 1, 1)]));
    assert!(identifiers_gap_free(&[entry(4, 1, 1), entry(5, 2, 1)]));
    assert!(!identifiers_gap_free(&[entry(0, 1, 1), entry(2, 2, 1)]));
    assert!(!identifiers_gap_free(&[entry(1, 1, 1), entry(0, 2, 1)]));
    assert!(!identifiers_gap_free(&[entry(1, 1, 1), entry(1, 2, 1)]));
}

#[test]
fn gap_free_source_unifies_to_gap_free_trace() {
    let source: Vec<BasicBlockEntry> =
        (0..20).map(|i| entry(i + 3, if i % 3 == 0 { 0x3000 } else { 0x1000 }, i)).collect();
    assert!(identifiers_gap_free(&source));
    let trace = unify(&source, &two_blocks()).unwrap();
    assert!(identifiers_gap_free(&trace.entries));
    assert_eq!(trace.entries.len(), 13);
    assert_eq!(trace.dropped, 7);
    assert_eq!(trace.entries[0].id, 4 - 1);
    assert_eq!(trace.entries[12].id, 3 + 12);
}

#[test]
fn gap_in_source_stays_in_unified_trace() {
    let source = vec![entry(0, 0x1000, 1), entry(5, 0x2000, 1)];
    let trace = unify(&source, &two_blocks()).unwrap();
    assert_eq!(trace.entries, source);
    assert!(!identifiers_gap_free(&trace.entries));
}
