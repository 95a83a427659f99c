use mrakdown_engine::tokenizer::NextToken;
use mrakdown_engine::tokenizer::Token;
use mrakdown_engine::tokenizer::Tokenizer;
use mrakdown_engine::u8unit::U8Unit;

fn drain(tk: &mut Tokenizer, at_end: bool, out: &mut Vec<Token>) {
    loop {
        match tk.next(at_end) {
            NextToken::Tok(t) => out.push(t),
            NextToken::NeedInput => return,
            NextToken::End => return,
            NextToken::Bad(e) => panic!("unexpected fault: {:?}", e),
        }
    }
}

fn tokens_of_fills(fills: &[&[u8]]) -> Vec<Token> {
    let mut tk = Tokenizer::new();
    let mut out = Vec::new();
    for f in fills {
        tk.push_fill(f);
        drain(&mut tk, false, &mut out);
    }
    drain(&mut tk, true, &mut out);
    out
}

fn text_byte(t: &Token, b: u8) -> bool {
    matches!(t, Token::Text(U8Unit::OneByte(x)) if *x == b)
}

#[test]
fn crlf_is_one_token() {
    let toks = tokens_of_fills(&[b"Hello\r\nWorld"]);
    assert_eq!(toks.len(), 11);
    for (i, b) in b"Hello".iter().enumerate() {
        assert!(text_byte(&toks[i], *b));
    }
    assert!(matches!(toks[5], Token::CRLF));
    for (i, b) in b"World".iter().enumerate() {
        assert!(text_byte(&toks[6 + i], *b));
    }
}

#[test]
fn crlf_survives_a_fill_boundary() {
    // The `\r` arrives at the end of one fill and the `\n` at the start of
    // the next: still one CRLF token, never CR then LF.
    let toks = tokens_of_fills(&[b"A\r", b"\nB"]);
    assert_eq!(toks.len(), 3);
    assert!(text_byte(&toks[0], b'A'));
    assert!(matches!(toks[1], Token::CRLF));
    assert!(text_byte(&toks[2], b'B'));
    for w in toks.windows(2) {
        assert!(!(matches!(w[0], Token::CR) && matches!(w[1], Token::LF)));
    }
}

#[test]
fn cr_alone_at_stream_end() {
    let toks = tokens_of_fills(&[b"A\r"]);
    assert_eq!(toks.len(), 2);
    assert!(matches!(toks[1], Token::CR));
}

#[test]
fn header_marker_consumes_its_space() {
    let toks = tokens_of_fills(&[b"### T"]);
    assert_eq!(toks.len(), 2);
    assert!(matches!(toks[0], Token::Header(3)));
    assert!(text_byte(&toks[1], b'T'));
}

#[test]
fn seven_hashes_flush_as_a_chunk() {
    let toks = tokens_of_fills(&[b"####### x"]);
    assert_eq!(toks.len(), 3);
    match &toks[0] {
        Token::TextChunk(units) => {
            assert_eq!(units.len(), 7);
            for u in units {
                assert_eq!(*u, U8Unit::OneByte(b'#'));
            }
        }
        other => panic!("expected a chunk, got {:?}", other),
    }
    assert!(text_byte(&toks[1], b' '));
    assert!(text_byte(&toks[2], b'x'));
}

#[test]
fn hash_without_space_flushes_as_chunk_then_text() {
    let toks = tokens_of_fills(&[b"#abc"]);
    assert_eq!(toks.len(), 4);
    match &toks[0] {
        Token::TextChunk(units) => {
            assert_eq!(units.len(), 1);
            assert_eq!(units[0], U8Unit::OneByte(b'#'));
        }
        other => panic!("expected a chunk, got {:?}", other),
    }
    assert!(text_byte(&toks[1], b'a'));
    assert!(text_byte(&toks[2], b'b'));
    assert!(text_byte(&toks[3], b'c'));
}

#[test]
fn hash_run_split_across_fills_still_a_header() {
    let toks = tokens_of_fills(&[b"##", b"# T"]);
    assert_eq!(toks.len(), 2);
    assert!(matches!(toks[0], Token::Header(3)));
    assert!(text_byte(&toks[1], b'T'));
}

#[test]
fn header_run_cut_off_by_stream_end() {
    let toks = tokens_of_fills(&[b"##"]);
    assert_eq!(toks.len(), 2);
    assert!(matches!(toks[0], Token::Header(2)));
    match &toks[1] {
        Token::TextChunk(units) => assert_eq!(units.len(), 2),
        other => panic!("expected the cached run, got {:?}", other),
    }
}

#[test]
fn multibyte_units_become_text_tokens() {
    let toks = tokens_of_fills(&["中😊".as_bytes()]);
    assert_eq!(toks.len(), 2);
    assert!(matches!(toks[0], Token::Text(U8Unit::ThreeByte(_, _, _))));
    assert!(matches!(toks[1], Token::Text(U8Unit::FourByte(_, _, _, _))));
}
