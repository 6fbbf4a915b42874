use typstpp::chunk::{Chunk, OptionMap};
use typstpp::haskell::HsOptions;
use typstpp::parse::{parse_document, DocumentParser, ParseError};
use typstpp::render::{render_chunk, render_chunks, RenderError};
use typstpp::chunk::{GraphicsChunk, GraphicsType, Output, OutputType};

#[test]
fn verbatim_round_trip() {
    let input = "hello\nworld\nno fences here\n";
    let chunks = parse_document(input).unwrap();
    assert_eq!(chunks.len(), 3);
    assert!(matches!(chunks[0], Chunk::Verbatim(_)));
    let out = render_chunks(&chunks).unwrap();
    assert_eq!(out, input);
}

#[test]
fn round_trip_without_trailing_newline() {
    let input = "line one\nline two";
    let chunks = parse_document(input).unwrap();
    let out = render_chunks(&chunks).unwrap();
    assert_eq!(out, input);
}

#[test]
fn option_parsing() {
    // `#|echo: false` followed by code yields the mapping {"echo":"false"}
    let input = "```py\n#|echo: false\nprint(1)\n```\n";
    let chunks = parse_document(input).unwrap();
    assert_eq!(chunks.len(), 1);
    match &chunks[0] {
        Chunk::Code(c) => {
            assert_eq!(c.lang, "py");
            assert_eq!(c.options.get(&"echo".to_string()), Some(&"false".to_string()));
            assert_eq!(c.options.get(&"eval".to_string()), None);
            assert_eq!(c.code, "print(1)\n");
            // a missing key falls back to the backend's declared default
            let o = HsOptions::from_map(&c.options);
            assert!(!o.echo);
            assert!(o.eval);
        }
        other => panic!("expected a code chunk, got {:?}", other),
    }
}

#[test]
fn options_stop_at_first_code_line() {
    let input = "```r\n#|a: 1\nx <- 2\n#|b: 2\n```\n";
    let chunks = parse_document(input).unwrap();
    match &chunks[0] {
        Chunk::Code(c) => {
            assert_eq!(c.options.get(&"a".to_string()), Some(&"1".to_string()));
            assert_eq!(c.options.get(&"b".to_string()), None);
            assert_eq!(c.code, "x <- 2\n#|b: 2\n");
        }
        other => panic!("expected a code chunk, got {:?}", other),
    }
}

#[test]
fn unterminated_fence_is_an_error() {
    assert_eq!(
        parse_document("```py\ncode\n"),
        Err(ParseError::UnexpectedEof)
    );
}

#[test]
fn one_verbatim_chunk_per_line() {
    let chunks = parse_document("a\nb\n").unwrap();
    assert_eq!(
        chunks,
        vec![
            Chunk::Verbatim("a\n".to_string()),
            Chunk::Verbatim("b\n".to_string())
        ]
    );
}

#[test]
fn read_chunk_streams() {
    let mut p = DocumentParser::new("x\n```q\nbody\n```\ny\n");
    assert_eq!(p.read_chunk().unwrap(), Some(Chunk::Verbatim("x\n".to_string())));
    match p.read_chunk().unwrap() {
        Some(Chunk::Code(c)) => {
            assert_eq!(c.lang, "q");
            assert_eq!(c.code, "body\n");
        }
        other => panic!("expected a code chunk, got {:?}", other),
    }
    assert_eq!(p.read_chunk().unwrap(), Some(Chunk::Verbatim("y\n".to_string())));
    assert_eq!(p.read_chunk().unwrap(), None);
}

#[test]
fn option_line_without_colon_gets_empty_value() {
    let input = "```py\n#|flag\n```\n";
    let chunks = parse_document(input).unwrap();
    match &chunks[0] {
        Chunk::Code(c) => {
            assert_eq!(c.options.get(&"flag".to_string()), Some(&"".to_string()));
        }
        other => panic!("expected a code chunk, got {:?}", other),
    }
}

#[test]
fn render_code_chunk() {
    let input = "```rust\nlet x = 1;\n```\n";
    let chunks = parse_document(input).unwrap();
    let out = render_chunks(&chunks).unwrap();
    assert_eq!(out, "#src[\n```rust\nlet x = 1;\n```\n]\n");
}

#[test]
fn render_error_and_output_chunks() {
    let e = Chunk::Error("boom".to_string());
    assert_eq!(render_chunk(&e).unwrap(), "#emoji.crossmark boom\n");
    let o = Chunk::Output(Output {
        data: "result".to_string(),
        ty: OutputType::Output,
    });
    assert_eq!(render_chunk(&o).unwrap(), "```\nresult\n```\n");
}

#[test]
fn render_graphics_as_byte_list() {
    let g = Chunk::Graphics(GraphicsChunk {
        data: vec![1, 22, 255, 0],
        ty: GraphicsType::Png,
    });
    assert_eq!(
        render_chunk(&g).unwrap(),
        "#image.decode(bytes((1,22,255,0)))\n"
    );
}

#[test]
fn message_chunk_has_no_rendering() {
    let m = Chunk::Message("note".to_string());
    assert_eq!(render_chunk(&m), Err(RenderError::UnrenderedChunk));
}

#[test]
fn option_map_replaces_on_insert() {
    let m = OptionMap::new();
    let m = m.insert("k".to_string(), "1".to_string());
    let m = m.insert("k".to_string(), "2".to_string());
    let m = m.insert("other".to_string(), "x".to_string());
    assert_eq!(m.get(&"k".to_string()), Some(&"2".to_string()));
    assert_eq!(m.get(&"other".to_string()), Some(&"x".to_string()));
    assert_eq!(m.get(&"missing".to_string()), None);
}
