use textstream::reader::decide_read_line;
use textstream::reader::decide_read_to_end;
use textstream::reader::StepDecision;
use textstream::Codec;
use textstream::Error;
use textstream::IoFailure;
use textstream::SliceSource;
use textstream::TextReader;
use textstream::TrapPolicy;

#[test]
fn read_to_end_shortstring() {
    let sjis_aiueo = [0x82, 0xa0, 0x82, 0xa2, 0x82, 0xa4, 0x82, 0xa6, 0x82, 0xa8];
    let codec = Codec::for_label("sjis").unwrap();
    let mut reader = TextReader::new(
        SliceSource::new(sjis_aiueo.to_vec()),
        &codec,
        TrapPolicy::Strict,
    );
    let mut s = String::new();
    assert!(reader.read_to_end(&mut s).is_ok());
    assert_eq!(s.as_str(), "あいうえお");
}

#[test]
fn read_to_end_longstring() {
    let sjis_aiueo = [0x82, 0xa0, 0x82, 0xa2, 0x82, 0xa4, 0x82, 0xa6, 0x82, 0xa8];
    let mut v = vec![0x41u8];
    let mut s_answer = "A".to_string();
    for _ in 0..300 {
        v.extend_from_slice(&sjis_aiueo);
        s_answer += "あいうえお";
    }
    let codec = Codec::for_label("sjis").unwrap();
    let mut reader = TextReader::new(SliceSource::new(v), &codec, TrapPolicy::Strict);
    let mut s = String::new();
    assert!(reader.read_to_end(&mut s).is_ok());
    assert_eq!(s.len(), s_answer.len());
    assert_eq!(s, s_answer);
}

#[test]
fn read_line_shortstring() {
    let sjis_aiueo = [0x82, 0xa0, 0x82, 0xa2, 0x82, 0xa4, 0x82, 0xa6, 0x82, 0xa8];
    let mut v = vec![];
    v.extend_from_slice(&sjis_aiueo);
    v.push(10);
    v.extend_from_slice(&sjis_aiueo);
    v.push(10);
    v.extend_from_slice(&sjis_aiueo);
    let codec = Codec::for_label("sjis").unwrap();
    let mut reader = TextReader::new(SliceSource::new(v), &codec, TrapPolicy::Strict);
    let mut s = String::new();
    assert!(match reader.read_line(&mut s) {
        Ok(16usize) => true,
        _ => false,
    });
    assert_eq!(s, "あいうえお\n");
    assert!(match reader.read_line(&mut s) {
        Ok(16usize) => true,
        _ => false,
    });
    assert_eq!(s, "あいうえお\nあいうえお\n");
    s.clear();
    assert!(match reader.read_line(&mut s) {
        Ok(15usize) => true,
        _ => false,
    });
    assert_eq!(s, "あいうえお");
}

#[test]
fn read_line_then_read_to_end_shortstring() {
    let sjis_aiueo = [0x82, 0xa0, 0x82, 0xa2, 0x82, 0xa4, 0x82, 0xa6, 0x82, 0xa8];
    let mut v = vec![];
    v.extend_from_slice(&sjis_aiueo);
    v.push(10);
    v.extend_from_slice("abcd".as_bytes());
    v.extend_from_slice(&sjis_aiueo);
    let codec = Codec::for_label("sjis").unwrap();
    let mut reader = TextReader::new(SliceSource::new(v), &codec, TrapPolicy::Strict);
    let mut s = String::new();
    assert!(reader.read_line(&mut s).is_ok());
    s.clear();
    assert!(reader.read_to_end(&mut s).is_ok());
    assert_eq!(s, "abcdあいうえお");
}

#[test]
fn lines_test() {
    let sjis_aiueo = [0x82, 0xa0, 0x82, 0xa2, 0x82, 0xa4, 0x82, 0xa6, 0x82, 0xa8];
    let mut v = vec![];
    v.extend_from_slice(&sjis_aiueo);
    v.push(10);
    v.extend_from_slice(&sjis_aiueo);
    v.push(10);
    v.extend_from_slice(&sjis_aiueo);
    let codec = Codec::for_label("sjis").unwrap();
    let reader = TextReader::new(SliceSource::new(v), &codec, TrapPolicy::Strict);
    let mut lines = reader.lines();
    let mut res: Vec<Result<String, Error>> = Vec::new();
    loop {
        match lines.next() {
            Some(item) => res.push(item),
            None => break,
        }
    }
    assert_eq!(res.len(), 3);
    assert!(res[0].is_ok());
    assert!(res[1].is_ok());
    assert!(res[2].is_ok());
    assert_eq!(res.pop().unwrap().unwrap(), "あいうえお"); // res[2]
    assert_eq!(res.pop().unwrap().unwrap(), "あいうえお"); // res[1]
    assert_eq!(res.pop().unwrap().unwrap(), "あいうえお"); // res[0]
}

#[test]
fn read_to_end_reports_output_bytes() {
    // 10 input bytes decode to 5 characters of 3 output bytes each
    let sjis_aiueo = [0x82, 0xa0, 0x82, 0xa2, 0x82, 0xa4, 0x82, 0xa6, 0x82, 0xa8];
    let codec = Codec::for_label("sjis").unwrap();
    let mut reader = TextReader::new(
        SliceSource::new(sjis_aiueo.to_vec()),
        &codec,
        TrapPolicy::Strict,
    );
    let mut s = String::new();
    assert_eq!(reader.read_to_end(&mut s).unwrap(), 15);
    assert_eq!(s, "あいうえお");
}

#[test]
fn chunk_boundary_invariance() {
    // the same bytes delivered a couple at a time and in one piece decode
    // alike, even though characters straddle read boundaries; each read must
    // still let the decoder make progress, since a step that produces no
    // text in an incomplete state means truncation to the reader
    let sjis_aiueo = [0x82, 0xa0, 0x82, 0xa2, 0x82, 0xa4, 0x82, 0xa6, 0x82, 0xa8];
    let mut v = vec![];
    for _ in 0..5 {
        v.extend_from_slice(&sjis_aiueo);
        v.push(10);
    }
    let codec = Codec::for_label("sjis").unwrap();

    let mut whole = String::new();
    let mut reader = TextReader::new(SliceSource::new(v.clone()), &codec, TrapPolicy::Strict);
    assert!(reader.read_to_end(&mut whole).is_ok());

    let mut two = String::new();
    let mut reader = TextReader::new(
        SliceSource::with_max_read(v.clone(), 2),
        &codec,
        TrapPolicy::Strict,
    );
    assert!(reader.read_to_end(&mut two).is_ok());
    assert_eq!(whole, two);

    let mut three = String::new();
    let mut reader = TextReader::new(
        SliceSource::with_max_read(v, 3),
        &codec,
        TrapPolicy::Strict,
    );
    assert!(reader.read_to_end(&mut three).is_ok());
    assert_eq!(whole, three);

    // single-character text delivered one byte at a time
    let mut whole = String::new();
    let mut reader = TextReader::new(
        SliceSource::new(b"one byte at a time".to_vec()),
        &codec,
        TrapPolicy::Strict,
    );
    assert!(reader.read_to_end(&mut whole).is_ok());
    let mut one = String::new();
    let mut reader = TextReader::new(
        SliceSource::with_max_read(b"one byte at a time".to_vec(), 1),
        &codec,
        TrapPolicy::Strict,
    );
    assert!(reader.read_to_end(&mut one).is_ok());
    assert_eq!(whole, one);
}

#[test]
fn one_byte_reads_inside_a_character_mean_truncation() {
    // a read so short that a whole step passes without new text leaves the
    // reader unable to tell a slow source from a truncated one: the
    // whole-buffer read reports the incomplete sequence
    let sjis_aiueo = [0x82, 0xa0, 0x82, 0xa2];
    let codec = Codec::for_label("sjis").unwrap();
    let mut reader = TextReader::new(
        SliceSource::with_max_read(sjis_aiueo.to_vec(), 1),
        &codec,
        TrapPolicy::Strict,
    );
    let mut s = String::new();
    assert!(matches!(reader.read_to_end(&mut s), Err(Error::CodecError(_))));
}

#[test]
fn truncated_input_fails_read_to_end() {
    // the source ends in the middle of a two-byte character
    let v = vec![0x82, 0xa0, 0x82];
    let codec = Codec::for_label("sjis").unwrap();
    let mut reader = TextReader::new(SliceSource::new(v), &codec, TrapPolicy::Strict);
    let mut s = String::new();
    match reader.read_to_end(&mut s) {
        Err(Error::CodecError(msg)) => assert_eq!(msg, "incomplete sequence"),
        other => panic!("expected a codec failure, got {:?}", other),
    }
}

#[test]
fn truncated_input_best_effort_read_line() {
    // the same truncated input read by lines: all fully decodable leading
    // text comes back as a success
    let v = vec![0x82, 0xa0, 0x82];
    let codec = Codec::for_label("sjis").unwrap();
    let mut reader = TextReader::new(SliceSource::new(v), &codec, TrapPolicy::Strict);
    let mut s = String::new();
    assert!(reader.read_line(&mut s).is_ok());
    assert_eq!(s, "あ");
}

#[test]
fn strict_trap_propagates_invalid_sequence() {
    // 0xff cannot begin a character in this encoding; a declining policy
    // turns it into a codec failure while the text already decoded stays
    let v = vec![0x82, 0xa0, 0xff, 0xff];
    let codec = Codec::for_label("sjis").unwrap();
    let mut reader = TextReader::new(SliceSource::new(v.clone()), &codec, TrapPolicy::Strict);
    let mut s = String::new();
    assert!(matches!(reader.read_to_end(&mut s), Err(Error::CodecError(_))));
    assert_eq!(s, "あ");

    let mut reader = TextReader::new(SliceSource::new(v), &codec, TrapPolicy::Strict);
    let mut s = String::new();
    assert!(matches!(reader.read_line(&mut s), Err(Error::CodecError(_))));
    assert_eq!(s, "あ");

    // the invalid bytes stay buffered: a later call fails again instead of
    // silently skipping them
    assert!(matches!(reader.read_line(&mut s), Err(Error::CodecError(_))));
    assert_eq!(s, "あ");
}

#[test]
fn replace_trap_substitutes_replacement_character() {
    let v = vec![0x82, 0xa0, 0xff, 0x82, 0xa2];
    let codec = Codec::for_label("sjis").unwrap();
    let mut reader = TextReader::new(SliceSource::new(v), &codec, TrapPolicy::Replace);
    let mut s = String::new();
    assert!(reader.read_to_end(&mut s).is_ok());
    assert_eq!(s, "あ\u{fffd}い");
}

#[test]
fn ignore_trap_drops_invalid_sequence() {
    let v = vec![0x82, 0xa0, 0xff, 0x82, 0xa2];
    let codec = Codec::for_label("sjis").unwrap();
    let mut reader = TextReader::new(SliceSource::new(v), &codec, TrapPolicy::Ignore);
    let mut s = String::new();
    assert!(reader.read_to_end(&mut s).is_ok());
    assert_eq!(s, "あい");
}

#[test]
fn empty_input() {
    let codec = Codec::for_label("utf-8").unwrap();
    let mut reader = TextReader::new(SliceSource::new(vec![]), &codec, TrapPolicy::Strict);
    let mut s = String::new();
    assert_eq!(reader.read_to_end(&mut s).unwrap(), 0);
    assert_eq!(s, "");

    let mut reader = TextReader::new(SliceSource::new(vec![]), &codec, TrapPolicy::Strict);
    assert_eq!(reader.read_line(&mut s).unwrap(), 0);
    assert_eq!(s, "");
}

#[test]
fn read_line_after_end_returns_zero() {
    let v = b"one\ntwo".to_vec();
    let codec = Codec::for_label("utf-8").unwrap();
    let mut reader = TextReader::new(SliceSource::new(v), &codec, TrapPolicy::Strict);
    let mut s = String::new();
    assert_eq!(reader.read_line(&mut s).unwrap(), 4);
    assert_eq!(s, "one\n");
    s.clear();
    assert_eq!(reader.read_line(&mut s).unwrap(), 3);
    assert_eq!(s, "two");
    s.clear();
    assert_eq!(reader.read_line(&mut s).unwrap(), 0);
    assert_eq!(s, "");
    assert_eq!(reader.read_line(&mut s).unwrap(), 0);
}

#[test]
fn read_line_longer_than_one_chunk() {
    // a single line well past the internal chunk size spans several decode
    // steps before its terminator arrives
    let mut v = vec![b'a'; 3000];
    v.push(b'\n');
    v.push(b'b');
    let codec = Codec::for_label("utf-8").unwrap();
    let mut reader = TextReader::new(SliceSource::new(v), &codec, TrapPolicy::Strict);
    let mut s = String::new();
    assert_eq!(reader.read_line(&mut s).unwrap(), 3001);
    assert_eq!(s.len(), 3001);
    assert!(s.ends_with('\n'));
    s.clear();
    assert_eq!(reader.read_line(&mut s).unwrap(), 1);
    assert_eq!(s, "b");
}

#[test]
fn step_outcome_decisions() {
    assert!(matches!(decide_read_to_end(Ok(true), true), StepDecision::Finish));
    assert!(matches!(
        decide_read_to_end(Ok(false), true),
        StepDecision::Truncation
    ));
    assert!(matches!(
        decide_read_to_end(Ok(false), false),
        StepDecision::Continue
    ));
    assert!(matches!(
        decide_read_to_end(Err(Error::IOError(IoFailure::Interrupted)), false),
        StepDecision::Retry
    ));
    assert!(matches!(
        decide_read_to_end(Err(Error::IOError(IoFailure::UnexpectedEof)), false),
        StepDecision::Propagate(Error::IOError(IoFailure::UnexpectedEof))
    ));

    assert!(matches!(
        decide_read_line(Err(Error::IOError(IoFailure::UnexpectedEof)), false),
        StepDecision::Finish
    ));
    assert!(matches!(
        decide_read_line(Err(Error::IOError(IoFailure::Interrupted)), false),
        StepDecision::Retry
    ));
    assert!(matches!(
        decide_read_line(Err(Error::CodecError("bad".to_string())), false),
        StepDecision::Propagate(Error::CodecError(_))
    ));
    assert!(matches!(decide_read_line(Ok(true), true), StepDecision::Finish));
    assert!(matches!(
        decide_read_line(Ok(false), false),
        StepDecision::Continue
    ));

    assert!(Error::IOError(IoFailure::Interrupted).is_interrupted());
    assert!(!Error::CodecError("bad".to_string()).is_interrupted());
    assert!(!Error::IOError(IoFailure::UnexpectedEof).is_interrupted());
}

#[test]
fn accessors_round_trip() {
    let v = b"abc".to_vec();
    let codec = Codec::for_label("utf-8").unwrap();
    let mut reader = TextReader::new(SliceSource::new(v), &codec, TrapPolicy::Strict);
    let _ = reader.get_source();
    let _ = reader.get_source_mut();
    let _ = reader.get_decoder();
    let _ = reader.get_decoder_mut();
    let mut s = String::new();
    assert!(reader.read_to_end(&mut s).is_ok());
    assert_eq!(s, "abc");
    let _source = reader.into_source();

    let v = b"xyz".to_vec();
    let reader = TextReader::new(SliceSource::new(v), &codec, TrapPolicy::Strict);
    let _decoder = reader.into_decoder();
}
