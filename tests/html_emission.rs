use s3wf2::document::{Block, BlockNode, Document, Element, ElementNode, LineType};
use s3wf2::emitter::{Emit, ExtractIndices};
use s3wf2::html::{HtmlEmitter, HtmlEmitterError};
use s3wf2::parser::Parser;

#[test]
fn it_escapes_reserved_characters() {
    let parser = Parser::new();
    let emitter = HtmlEmitter::new(4);

    let document = parser.parse("<>&\"").unwrap();
    let html = emitter.emit(&document).unwrap();

    assert!(html.find("&lt;&gt;&amp;&quot;").is_some());
}

#[test]
fn escaped_paragraph_has_no_raw_reserved_characters() {
    let document = Parser::new().parse("<>&\"").unwrap();
    let html = HtmlEmitter::new(4).emit(&document).unwrap();
    assert_eq!(html, "<style>\n</style>\n<p>\n&lt;&gt;&amp;&quot;\n</p>\n");
}

#[test]
fn speech_line_shows_name_first() {
    let document = Parser::new()
        .parse(":character female ann Ann\n@ann Hi there")
        .unwrap();
    let html = HtmlEmitter::new(4).emit(&document).unwrap();
    assert!(html.contains("<span class=\"line female-1\">AnnHi there</span>"));

    let document = Parser::new()
        .parse(":character female ann Ann\n:linename hidden\n@ann Hi there")
        .unwrap();
    let html = HtmlEmitter::new(4).emit(&document).unwrap();
    assert!(html.contains("<span class=\"line female-1\">Hi there</span>"));
}

#[test]
fn custom_character_class_and_style() {
    let document = Parser::new()
        .parse(":character ff0000 rose Rose\n:character f00 rose2 Rose2\n@rose a [@rose2 b]")
        .unwrap();
    let html = HtmlEmitter::new(4).emit(&document).unwrap();
    assert_eq!(
        html,
        "<style>\n.custom-ff0000 { color: #ff0000; }\n.custom-f00 { color: #f00; }\n</style>\n\
         <p>\n\n<span class=\"line custom-ff0000\">Rosea <span class=\"inline line custom-f00\">b</span></span>\n\n</p>\n"
    );
}

#[test]
fn palette_wraps_around() {
    let document = Parser::new()
        .parse(":character male a A\n:character male b B\n:character male c C\n:linename hidden\n@c x")
        .unwrap();
    let html = HtmlEmitter::new(2).emit(&document).unwrap();
    assert!(html.contains("<span class=\"line male-1\">x</span>"));
}

#[test]
fn blocks_and_elements_render() {
    let source = "/sec Intro\n[i a][ul b][st c][dt d][m e][br]\n/list [item one]stray[item two]\n/hori\n/quote q\n[ruby 漢字{かんじ}] [link{u?a=1&b=2}go]";
    let document = Parser::new().parse(source).unwrap();
    let html = HtmlEmitter::new(4).emit(&document).unwrap();
    assert_eq!(
        html,
        "<style>\n</style>\n\
         <h2 id=\"section-0\">Intro</h2>\n\
         <p>\n<i>a</i><span class=\"underline\">b</span><del>c</del><span class=\"dots\">d</span><code>e</code><br>\n\n</p>\n\
         <ul>\n<li>one</li>\n<li>two</li>\n\n</ul>\n\
         <hr>\n\
         <blockquote>\nq\n</blockquote>\n\
         <p>\n<ruby>漢字<rp>(</rp><rt>かんじ</rt><rp>)</rp></ruby> <a href=\"u?a=1&amp;b=2\">go</a>\n</p>\n"
    );
}

#[test]
fn render_errors() {
    let mut document = Document::new();
    document.blocks.push(BlockNode {
        kind: Block::Paragraph,
        children: vec![ElementNode::Surrounded {
            kind: Element::Line("ghost".to_string(), LineType::Inline),
            parameters: vec![],
            children: vec![ElementNode::Text("boo".to_string())],
        }],
    });
    assert_eq!(
        HtmlEmitter::new(4).emit(&document),
        Err(HtmlEmitterError::UndefinedCharacter("ghost".to_string()))
    );
    let document = Parser::new().parse("[link text]").unwrap();
    assert_eq!(
        HtmlEmitter::new(4).emit(&document),
        Err(HtmlEmitterError::InvalidParameter("Link URL needed".to_string()))
    );
    let document = Parser::new().parse("[link{[b x]}text]").unwrap();
    assert!(matches!(
        HtmlEmitter::new(4).emit(&document),
        Err(HtmlEmitterError::InvalidParameter(_))
    ));
}

#[test]
fn anchors_list_headings() {
    let document = Parser::new().parse("/sec A\npara\n\n/subsec B").unwrap();
    let emitter = HtmlEmitter::new(4);
    let mut anchors = emitter.indices(&document);
    let first = anchors.next().unwrap();
    assert_eq!(first.id, "section-0");
    assert_eq!(first.title, "");
    assert_eq!(anchors.next().unwrap().id, "section-2");
    assert!(anchors.next().is_none());
    assert_eq!(emitter.indices(&document).next().unwrap().id, "section-0");
}

#[test]
fn emitter_traits_delegate() {
    let document = Parser::new().parse("/subsec X").unwrap();
    let mut emitter = HtmlEmitter::new(4);
    assert_eq!(
        Emit::emit(&mut emitter, &document),
        Ok("<style>\n</style>\n<h3 id=\"section-0\">X</h3>\n".to_string())
    );
    let mut anchors = ExtractIndices::indices(&emitter, &document);
    assert_eq!(anchors.next().unwrap().id, "section-0");
    assert!(anchors.next().is_none());
}

#[test]
fn ampersands_only_begin_entities() {
    let document = Parser::new().parse("a&b \"&amp;\" <x>").unwrap();
    let html = HtmlEmitter::new(4).emit(&document).unwrap();
    assert!(html.contains("a&amp;b &quot;&amp;amp;&quot; &lt;x&gt;"));
}
