use mrakdown_engine::engine::MrakdownEngine;
use mrakdown_engine::error_handler::ErrorHandlerImpl;
use mrakdown_engine::mapper::Mapper;
use mrakdown_engine::parser::ParserError;
use mrakdown_engine::parser::ParserImpl;
use mrakdown_engine::parser::State;
use mrakdown_engine::schema::HtmlSchema;
use mrakdown_engine::writer::WriterImpl;

fn convert(input: &[u8]) -> Result<Vec<u8>, ParserError> {
    let mut parser = ParserImpl::new();
    let mut mapper = Mapper::new(HtmlSchema::new(), WriterImpl::new());
    match parser.parse_and_write(input, &mut mapper) {
        Ok(()) => Ok(mapper.into_writer().into_inner()),
        Err(e) => Err(e),
    }
}

fn convert_ok(input: &[u8]) -> String {
    String::from_utf8(convert(input).unwrap()).unwrap()
}

#[test]
fn empty_input_gives_flushed_empty_sink() {
    let mut parser = ParserImpl::new();
    let mut mapper = Mapper::new(HtmlSchema::new(), WriterImpl::new());
    parser.parse_and_write(&[], &mut mapper).unwrap();
    let writer = mapper.into_writer();
    assert!(writer.is_flushed());
    assert_eq!(writer.output().len(), 0);
}

#[test]
fn header_then_paragraph_end_to_end() {
    assert_eq!(convert_ok(b"# Hi\nbye"), "<h1>Hi</h1><br><p>bye</p>");
}

#[test]
fn header_level_three_line() {
    assert_eq!(convert_ok(b"### Title\n"), "<h3>Title</h3><br>");
}

#[test]
fn seven_hashes_are_literal_text() {
    assert_eq!(convert_ok(b"####### x"), "<p>####### x</p>");
}

#[test]
fn hash_without_space_is_text() {
    assert_eq!(convert_ok(b"#abc"), "<p>#abc</p>");
}

#[test]
fn all_header_levels() {
    assert_eq!(
        convert_ok(b"# a\n## b\n### c\n#### d\n##### e\n###### f\n"),
        "<h1>a</h1><br><h2>b</h2><br><h3>c</h3><br><h4>d</h4><br><h5>e</h5><br><h6>f</h6><br>"
    );
}

#[test]
fn marker_inside_header_line_is_literal() {
    assert_eq!(convert_ok(b"# A ## B\n"), "<h1>A ## B</h1><br>");
}

#[test]
fn marker_inside_paragraph_is_literal() {
    assert_eq!(convert_ok(b"x ## y\n"), "<p>x ## y</p>");
}

#[test]
fn bare_cr_ends_a_paragraph() {
    assert_eq!(convert_ok(b"A\rB"), "<p>A</p><p>B</p>");
}

#[test]
fn crlf_ends_a_paragraph_once() {
    assert_eq!(convert_ok(b"A\r\nB"), "<p>A</p><p>B</p>");
}

#[test]
fn blank_lines_become_breaks() {
    assert_eq!(convert_ok(b"\n\n"), "<br><br>");
}

#[test]
fn multibyte_content_passes_through() {
    let s = "中 ¢ 😊".as_bytes();
    assert_eq!(convert_ok(s), "<p>中 ¢ 😊</p>");
}

#[test]
fn header_cut_off_by_stream_end() {
    // The run of `#` is cut short by the end of the input: the header is
    // emitted at the counted level and the cached run then flushes as text.
    assert_eq!(convert_ok(b"##"), "<h2>##");
}

#[test]
fn malformed_leading_byte_is_a_syntax_error() {
    match convert(&[0x80u8]) {
        Err(ParserError::SyntaxError(se)) => {
            assert_eq!(se.msg, "malformed leading byte");
            assert_eq!(se.line_num, 0);
            assert_eq!(se.column_num, 0);
        }
        other => panic!("expected a syntax error, got {:?}", other),
    }
}

#[test]
fn truncated_unit_is_a_syntax_error() {
    match convert(&[0xE4u8, 0xB8u8]) {
        Err(ParserError::SyntaxError(se)) => {
            assert_eq!(se.msg, "input ends inside a code unit");
        }
        other => panic!("expected a syntax error, got {:?}", other),
    }
}

#[test]
fn parser_is_idempotent_at_eof() {
    let mut parser = ParserImpl::new();
    let mut mapper = Mapper::new(HtmlSchema::new(), WriterImpl::new());
    parser.parse_and_write(b"# Hi\n", &mut mapper).unwrap();
    parser.parse_and_write(b"more", &mut mapper).unwrap();
    assert_eq!(mapper.into_writer().into_inner(), b"<h1>Hi</h1><br>".to_vec());
}

#[test]
fn state_predicates() {
    assert!(State::HeaderMark(2).is_mark_state());
    assert!(!State::LineStart.is_mark_state());
    assert!(!State::EOF.is_mark_state());
    assert!(State::EOF.is_eof());
    assert!(!State::Paragraph.is_eof());
}

#[test]
fn engine_reports_error_to_handler() {
    let mut engine = MrakdownEngine::new();
    let mut parser = ParserImpl::new();
    let mut mapper = Mapper::new(HtmlSchema::new(), WriterImpl::new());
    let mut handler = ErrorHandlerImpl::new();
    engine.start(&mut parser, &[0xFFu8], &mut mapper, &mut handler);
    match handler.take_error() {
        Some(ParserError::SyntaxError(_)) => {}
        other => panic!("expected a recorded syntax error, got {:?}", other),
    }
    assert!(handler.take_error().is_none());
}

#[test]
fn engine_runs_clean_input() {
    let mut engine = MrakdownEngine::new();
    let mut parser = ParserImpl::new();
    let mut mapper = Mapper::new(HtmlSchema::new(), WriterImpl::new());
    let mut handler = ErrorHandlerImpl::new();
    engine.start(&mut parser, b"## ok\n", &mut mapper, &mut handler);
    assert!(handler.take_error().is_none());
    let writer = mapper.into_writer();
    assert!(writer.is_flushed());
    assert_eq!(writer.output(), &b"<h2>ok</h2><br>".to_vec());
}

fn convert_streamed(input: &[u8], chunk: usize) -> Result<Vec<u8>, ParserError> {
    let mut parser = ParserImpl::new();
    let mut mapper = Mapper::new(HtmlSchema::new(), WriterImpl::new());
    let mut i = 0;
    while i < input.len() {
        let end = (i + chunk).min(input.len());
        parser.push_fill(&input[i..end], &mut mapper)?;
        i = end;
    }
    parser.finish(&mut mapper)?;
    Ok(mapper.into_writer().into_inner())
}

#[test]
fn streamed_runs_match_whole_runs() {
    let input = "# Hi 中\r\n####### x\nbye ## 😊".as_bytes();
    let whole = convert(input).unwrap();
    for chunk in 1..=input.len() {
        let streamed = convert_streamed(input, chunk).unwrap();
        assert_eq!(whole, streamed, "fill size {}", chunk);
    }
}

#[test]
fn push_fill_reports_malformed_bytes() {
    let mut parser = ParserImpl::new();
    let mut mapper = Mapper::new(HtmlSchema::new(), WriterImpl::new());
    parser.push_fill(b"ok", &mut mapper).unwrap();
    match parser.push_fill(&[0xFFu8], &mut mapper) {
        Err(ParserError::SyntaxError(se)) => assert_eq!(se.msg, "malformed leading byte"),
        other => panic!("expected a syntax error, got {:?}", other),
    }
}

#[test]
fn finish_reports_truncated_unit() {
    let mut parser = ParserImpl::new();
    let mut mapper = Mapper::new(HtmlSchema::new(), WriterImpl::new());
    parser.push_fill(&[0xE4u8, 0xB8u8], &mut mapper).unwrap();
    match parser.finish(&mut mapper) {
        Err(ParserError::SyntaxError(se)) => {
            assert_eq!(se.msg, "input ends inside a code unit");
        }
        other => panic!("expected a syntax error, got {:?}", other),
    }
}

#[test]
fn parser_is_terminal_after_an_error() {
    let mut parser = ParserImpl::new();
    let mut mapper = Mapper::new(HtmlSchema::new(), WriterImpl::new());
    assert!(parser.parse_and_write(&[0x80u8], &mut mapper).is_err());
    // The parser is at EOF from then on: further runs do nothing.
    parser.parse_and_write(b"# ignored\n", &mut mapper).unwrap();
    let written = mapper.into_writer().into_inner();
    assert_eq!(written, Vec::<u8>::new());
}
