use mrakdown_engine::mapper::Mapper;
use mrakdown_engine::schema::HtmlSchema;
use mrakdown_engine::schema::Schema;
use mrakdown_engine::u8unit::U8Unit;
use mrakdown_engine::writer::Writer;
use mrakdown_engine::writer::WriterImpl;

fn fresh_mapper() -> Mapper<HtmlSchema, WriterImpl> {
    Mapper::new(HtmlSchema::new(), WriterImpl::new())
}

fn sink_string(m: Mapper<HtmlSchema, WriterImpl>) -> String {
    String::from_utf8(m.into_writer().into_inner()).unwrap()
}

#[test]
fn html_schema_tags() {
    assert_eq!(HtmlSchema::h1_start(), "<h1>");
    assert_eq!(HtmlSchema::h1_end(), "</h1>");
    assert_eq!(HtmlSchema::h2_start(), "<h2>");
    assert_eq!(HtmlSchema::h2_end(), "</h2>");
    assert_eq!(HtmlSchema::h3_start(), "<h3>");
    assert_eq!(HtmlSchema::h3_end(), "</h3>");
    assert_eq!(HtmlSchema::h4_start(), "<h4>");
    assert_eq!(HtmlSchema::h4_end(), "</h4>");
    assert_eq!(HtmlSchema::h5_start(), "<h5>");
    assert_eq!(HtmlSchema::h5_end(), "</h5>");
    assert_eq!(HtmlSchema::h6_start(), "<h6>");
    assert_eq!(HtmlSchema::h6_end(), "</h6>");
}

#[test]
fn mapper_writes_header_tags_for_each_level() {
    let mut m = fresh_mapper();
    for level in 1..=6u8 {
        m.write_html_header_start(level);
        m.write_html_header_end(level);
    }
    assert_eq!(
        sink_string(m),
        "<h1></h1><h2></h2><h3></h3><h4></h4><h5></h5><h6></h6>"
    );
}

#[test]
fn mapper_ignores_levels_outside_range() {
    let mut m = fresh_mapper();
    m.write_html_header_start(0);
    m.write_html_header_start(7);
    m.write_html_header_end(0);
    m.write_html_header_end(255);
    assert_eq!(sink_string(m), "");
}

#[test]
fn mapper_fake_header_reproduces_the_marker() {
    let mut m = fresh_mapper();
    m.write_html_fake_header(3);
    assert_eq!(sink_string(m), "### ");
}

#[test]
fn mapper_structural_writes() {
    let mut m = fresh_mapper();
    m.write_html_paragraph_start();
    m.write_html_content(b"hi");
    m.write_html_paragraph_end();
    m.write_html_new_line();
    assert_eq!(sink_string(m), "<p>hi</p><br>");
}

#[test]
fn mapper_chunk_writes_units_in_order() {
    let mut m = fresh_mapper();
    let units = vec![
        U8Unit::OneByte(b'a'),
        U8Unit::TwoByte(0xC2, 0xA2),
        U8Unit::OneByte(b'b'),
    ];
    m.write_html_chunk(&units);
    assert_eq!(sink_string(m), "a¢b");
}

#[test]
fn writer_collects_and_flushes() {
    let mut w = WriterImpl::new();
    assert!(!w.is_flushed());
    assert_eq!(w.write(b"abc"), 3);
    assert!(!w.is_flushed());
    w.flush();
    assert!(w.is_flushed());
    assert_eq!(w.output(), &b"abc".to_vec());
    assert_eq!(w.into_inner(), b"abc".to_vec());
}
