use rag_llm::error::EngineError;
use rag_llm::file_parser::FileParser;

#[test]
fn test_parse_text() {
    let content = b"Hello, world!";
    let result = FileParser::parse_text(content).unwrap();
    assert_eq!(result, "Hello, world!");
}

#[test]
fn test_get_extension() {
    assert_eq!(FileParser::get_extension("test.txt"), "txt");
    assert_eq!(FileParser::get_extension("document.pdf"), "pdf");
    assert_eq!(FileParser::get_extension("file.DOCX"), "docx");
}

#[test]
fn test_detect_type() {
    assert_eq!(FileParser::detect_type(b"%PDF-1.4"), "pdf");
    assert_eq!(FileParser::detect_type(b"PK\x03\x04"), "docx");
    assert_eq!(FileParser::detect_type(b"<html>"), "html");
    assert_eq!(FileParser::detect_type(b"Plain text"), "txt");
}

#[test]
fn detect_type_doctype_and_short_input() {
    assert_eq!(FileParser::detect_type(b"<!DOCTYPE html>"), "html");
    assert_eq!(FileParser::detect_type(b"%PD"), "txt");
    assert_eq!(FileParser::detect_type(b""), "txt");
    assert_eq!(FileParser::detect_type(b"P"), "txt");
}

#[test]
fn extension_edge_cases() {
    assert_eq!(FileParser::extension_of("archive.tar.GZ"), "GZ");
    assert_eq!(FileParser::get_extension("archive.tar.GZ"), "gz");
    assert_eq!(FileParser::get_extension("README"), "readme");
    assert_eq!(FileParser::get_extension("trailing."), "");
    assert_eq!(FileParser::get_extension(""), "");
    assert_eq!(FileParser::get_extension("Ünïcode.ÄB"), "äb");
}

#[test]
fn parse_text_rejects_invalid_utf8() {
    assert_eq!(FileParser::parse_text(&[0xff, 0xfe]), Err(EngineError::InvalidUtf8));
    assert_eq!(FileParser::parse_text(&[]).unwrap(), "");
    assert_eq!(FileParser::parse_text("héllo".as_bytes()).unwrap(), "héllo");
}

#[test]
fn parse_html_stops_at_first_script() {
    let html = b"<p>Hi</p><script>alert(1)</script>tail";
    assert_eq!(FileParser::parse_html(html).unwrap(), "<p>Hi</p>");
    assert_eq!(FileParser::parse_html(b"plain").unwrap(), "plain");
    assert_eq!(FileParser::parse_html(b"<script>x").unwrap(), "");
    assert_eq!(FileParser::parse_html(b"a<\0scriptb").unwrap(), "a");
}

#[test]
fn parse_html_masks_closing_tags_before_the_cut() {
    assert_eq!(FileParser::parse_html(b"a</script>b").unwrap(), "a</\0script>b");
    assert_eq!(
        FileParser::parse_html(b"x</script></script><script>y").unwrap(),
        "x</\0script></\0script>"
    );
    assert_eq!(FileParser::parse_html(&[0xc3]), Err(EngineError::InvalidUtf8));
}

#[test]
fn parse_dispatches_on_extension() {
    assert_eq!(FileParser::parse("notes.TXT", b"hello").unwrap(), "hello");
    assert_eq!(FileParser::parse("readme.md", b"# t").unwrap(), "# t");
    assert_eq!(FileParser::parse("page.htm", b"a<script>b").unwrap(), "a");
    assert_eq!(FileParser::parse("page.html", &[0xff]), Err(EngineError::InvalidUtf8));
    assert_eq!(FileParser::parse("doc.pdf", b"%PDF"), Err(EngineError::ParserUnavailable));
    assert_eq!(FileParser::parse("doc.docx", b"PK"), Err(EngineError::ParserUnavailable));
    assert_eq!(FileParser::parse("image.png", b""), Err(EngineError::UnsupportedFileType));
}

#[test]
fn parse_by_extension_takes_the_extension_as_given() {
    assert_eq!(FileParser::parse_by_extension(&"md".to_string(), b"x").unwrap(), "x");
    assert_eq!(
        FileParser::parse_by_extension(&"TXT".to_string(), b"x"),
        Err(EngineError::UnsupportedFileType)
    );
    assert_eq!(FileParser::parse_by_extension(&"html".to_string(), b"a<script>").unwrap(), "a");
    assert_eq!(
        FileParser::parse_by_extension(&"docx".to_string(), b""),
        Err(EngineError::ParserUnavailable)
    );
}
