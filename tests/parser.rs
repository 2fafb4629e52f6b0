use s3wf2::document::{Block, BlockNode, Document, Element, ElementNode, LineType};
use s3wf2::error::{ErrorKind, SemanticErrorKind};
use s3wf2::parser::{Parser, ParserState, Trimmer, Trimming, AutoNewline};

#[test]
fn trimmer_works() {
    assert_eq!(Trimmer::never("  ABC  "), "  ABC  ");
    assert_eq!(Trimmer::ascii_only(" 　ABC  "), "　ABC");
    assert_eq!(Trimmer::unicode(" 　ABC  "), "ABC");
}

#[test]
fn parser_parses_character_command() {
    let parser = Parser::new();
    let mut document = Document::new();
    let mut state = ParserState::new();

    assert!(parser
        .parse_command(&mut state, &mut document, "character", Some("female natsuki 夏稀"))
        .is_ok());
    assert!(parser
        .parse_command(&mut state, &mut document, "character", Some("female natsuki"))
        .is_err());
    assert!(parser
        .parse_command(&mut state, &mut document, "character", Some("female"))
        .is_err());
    assert!(parser
        .parse_command(&mut state, &mut document, "character", None)
        .is_err());
}

#[test]
fn parser_parses_trim_command() {
    let parser = Parser::new();
    let mut document = Document::new();
    let mut state = ParserState::new();

    assert!(parser
        .parse_command(&mut state, &mut document, "trim", Some("never"))
        .is_ok());
    assert!(parser
        .parse_command(&mut state, &mut document, "trim", Some("ascii"))
        .is_ok());
    assert!(parser
        .parse_command(&mut state, &mut document, "trim", Some("unicode"))
        .is_ok());
    assert!(parser
        .parse_command(&mut state, &mut document, "trim", None)
        .is_err());
}

#[test]
fn parser_parses_autobr_command() {
    let parser = Parser::new();
    let mut document = Document::new();
    let mut state = ParserState::new();

    assert!(parser
        .parse_command(&mut state, &mut document, "autobr", Some("never"))
        .is_ok());
    assert!(parser
        .parse_command(&mut state, &mut document, "autobr", Some("always"))
        .is_ok());
    assert!(parser
        .parse_command(&mut state, &mut document, "autobr", None)
        .is_err());
}

#[test]
fn parser_parses_block_element() {
    let parser = Parser::new();
    let mut document = Document::new();
    let current_block = BlockNode::new(Block::Paragraph);

    let (current_block, error) =
        parser.parse_block(&mut document, current_block, "sec", Some("Section"));
    assert!(error.is_none());
    assert_eq!(document.blocks.last().map(|b| b.kind), Some(Block::Section));

    let (current_block, error) =
        parser.parse_block(&mut document, current_block, "subsec", Some("Subsection"));
    assert!(error.is_none());
    assert_eq!(
        document.blocks.last().map(|b| b.kind),
        Some(Block::Subsection)
    );

    let (_, error) = parser.parse_block(&mut document, current_block, "notfound", None);
    assert!(error.is_some());
}

#[test]
fn parser_parses_inline_element() {
    let parser = Parser::new();
    let mut current_block = BlockNode::new(Block::Paragraph);

    assert!(parser.parse_normal(&mut current_block.children, "").is_ok());
    assert!(current_block.children.is_empty());

    assert!(parser
        .parse_normal(&mut current_block.children, "test")
        .is_ok());
    assert_eq!(
        current_block.children.last(),
        Some(&ElementNode::Text("test".to_string()))
    );
    assert!(parser
        .parse_normal(&mut current_block.children, "[b hello]")
        .is_ok());
    assert_eq!(
        current_block.children.last(),
        Some(&ElementNode::Surrounded {
            kind: Element::Bold,
            parameters: vec![],
            children: vec![ElementNode::Text("hello".to_string())]
        }),
    );
}

#[test]
fn bold_tag_makes_one_paragraph() {
    let document = Parser::new().parse("[b hello]").unwrap();
    assert_eq!(document.blocks.len(), 1);
    assert_eq!(
        document.blocks[0],
        BlockNode {
            kind: Block::Paragraph,
            children: vec![ElementNode::Surrounded {
                kind: Element::Bold,
                parameters: vec![],
                children: vec![ElementNode::Text("hello".to_string())],
            }],
        }
    );
}

#[test]
fn speech_line_references_character() {
    let document = Parser::new()
        .parse(":character female ann Ann\n@ann Hi there")
        .unwrap();
    assert_eq!(document.blocks.len(), 1);
    assert_eq!(
        document.blocks[0].children,
        vec![ElementNode::Surrounded {
            kind: Element::Line("ann".to_string(), LineType::NameShownBlock),
            parameters: vec![],
            children: vec![ElementNode::Text("Hi there".to_string())],
        }]
    );
    let hidden = Parser::new()
        .parse(":character female ann Ann\n:linename hidden\n@ann Hi there")
        .unwrap();
    assert!(matches!(
        &hidden.blocks[0].children[0],
        ElementNode::Surrounded { kind: Element::Line(_, LineType::NameHiddenBlock), .. }
    ));
}

#[test]
fn unterminated_tag_is_one_error() {
    let errors = Parser::new().parse("[b hello").unwrap_err();
    assert_eq!(errors.len(), 1);
    assert_eq!(errors[0].line(), 1);
    assert_eq!(errors[0].reason(), &ErrorKind::TooManyTagOpening);

    let errors = Parser::new().parse("hello]").unwrap_err();
    assert_eq!(errors.len(), 1);
    assert_eq!(errors[0].line(), 1);
    assert_eq!(errors[0].reason(), &ErrorKind::TooManyTagClosing);
}

#[test]
fn errors_are_collected_from_every_line() {
    let errors = Parser::new()
        .parse("fine\n@unknown text\nalso fine\nhello]")
        .unwrap_err();
    assert_eq!(errors.len(), 2);
    assert_eq!(errors[0].line(), 2);
    assert_eq!(
        errors[0].reason(),
        &ErrorKind::Semantic(SemanticErrorKind::UndefinedCharacter("unknown".to_string()))
    );
    assert_eq!(errors[1].line(), 4);
    assert_eq!(errors[1].reason(), &ErrorKind::TooManyTagClosing);
}

#[test]
fn undefined_character_alone() {
    let errors = Parser::new().parse("@unknown text").unwrap_err();
    assert_eq!(errors.len(), 1);
    assert_eq!(errors[0].line(), 1);
    assert_eq!(
        errors[0].reason(),
        &ErrorKind::Semantic(SemanticErrorKind::UndefinedCharacter("unknown".to_string()))
    );
}

#[test]
fn custom_color_characters() {
    let document = Parser::new()
        .parse(":character ff0000 rose Rose\n:character f00 rose2 Rose2\n:character #0f0 leaf Leaf")
        .unwrap();
    assert_eq!(document.characters.len(), 3);
    assert_eq!(
        document.characters.get("rose2"),
        Some(&s3wf2::document::CharacterType::Custom("f00".to_string(), "Rose2".to_string()))
    );
    let errors = Parser::new().parse(":character ff00 bad Bad").unwrap_err();
    assert_eq!(
        errors[0].reason(),
        &ErrorKind::Semantic(SemanticErrorKind::UndefinedCharacter(
            "bad (invalid colorcode ff00)".to_string()
        ))
    );
}

#[test]
fn quote_group_collects_lines() {
    let document = Parser::new()
        .parse("/quote >>>\nline one\nline two\n/quote <<<\nafter")
        .unwrap();
    assert_eq!(document.blocks.len(), 2);
    assert_eq!(document.blocks[0].kind, Block::Quotation);
    assert_eq!(
        document.blocks[0].children,
        vec![
            ElementNode::Text("line one".to_string()),
            ElementNode::Text("line two".to_string())
        ]
    );
    assert_eq!(document.blocks[1].kind, Block::Paragraph);

    let errors = Parser::new().parse("/quote >>>\nx\n/sec <<<").unwrap_err();
    assert_eq!(errors.len(), 1);
    assert_eq!(errors[0].line(), 3);
    assert_eq!(errors[0].reason(), &ErrorKind::InvalidBlockPair);
}

#[test]
fn blank_lines_separate_paragraphs() {
    let document = Parser::new().parse("one\n\n\ntwo\r\nthree\n").unwrap();
    assert_eq!(document.blocks.len(), 2);
    assert_eq!(
        document.blocks[1].children,
        vec![
            ElementNode::Text("two".to_string()),
            ElementNode::Text("three".to_string())
        ]
    );
    assert!(Parser::new().parse("").unwrap().blocks.is_empty());
}

#[test]
fn single_line_blocks() {
    let document = Parser::new().parse("text\n/hori\n/sec Title").unwrap();
    let kinds: Vec<Block> = document.blocks.iter().map(|b| b.kind).collect();
    assert_eq!(kinds, vec![Block::Paragraph, Block::Horizontal, Block::Section]);
    assert!(document.blocks[1].children.is_empty());
}

#[test]
fn auto_newline_appends_break() {
    let document = Parser::new().parse(":autobr always\na\nb").unwrap();
    assert_eq!(
        document.blocks[0].children,
        vec![
            ElementNode::Text("a".to_string()),
            ElementNode::new_surrounded(Element::Newline),
            ElementNode::Text("b".to_string()),
            ElementNode::new_surrounded(Element::Newline),
        ]
    );
}

#[test]
fn parameters_attach_to_their_tag() {
    let mut nodes = vec![];
    Parser::new()
        .parse_normal(&mut nodes, "[link{http://a.b/c}site] [@kb x]")
        .unwrap();
    assert_eq!(
        nodes,
        vec![
            ElementNode::Surrounded {
                kind: Element::Link,
                parameters: vec![ElementNode::Surrounded {
                    kind: Element::Parameter,
                    parameters: vec![],
                    children: vec![ElementNode::Text("http://a.b/c".to_string())],
                }],
                children: vec![ElementNode::Text("site".to_string())],
            },
            ElementNode::Text(" ".to_string()),
            ElementNode::Surrounded {
                kind: Element::Line("kb".to_string(), LineType::Inline),
                parameters: vec![],
                children: vec![ElementNode::Text("x".to_string())],
            },
        ]
    );
}

#[test]
fn structural_errors_of_inline_tags() {
    let parser = Parser::new();
    let mut nodes = vec![];
    assert_eq!(parser.parse_normal(&mut nodes, "[b {x]]"), Err(ErrorKind::InvalidParenPair));
    assert_eq!(parser.parse_normal(&mut nodes, "[b x}"), Err(ErrorKind::InvalidParenPair));
    assert_eq!(parser.parse_normal(&mut nodes, "{x}"), Err(ErrorKind::InvalidParenPair));
    assert_eq!(parser.parse_normal(&mut nodes, "}"), Err(ErrorKind::TooManyTagClosing));
    assert_eq!(
        parser.parse_normal(&mut nodes, "[nope x]"),
        Err(ErrorKind::UnknownElement("nope".to_string()))
    );
    assert!(nodes.is_empty());
    assert!(parser.parse_normal(&mut nodes, "[b [i x] y] [ z").is_ok());
    assert_eq!(nodes.len(), 2);
}

#[test]
fn command_errors() {
    let parser = Parser::new();
    let mut document = Document::new();
    let mut state = ParserState::new();
    assert_eq!(
        parser.parse_command(&mut state, &mut document, "character", Some("male a")),
        Err(ErrorKind::NotEnoughParameters { given: 2, needed: 3 })
    );
    assert_eq!(
        parser.parse_command(&mut state, &mut document, "trim", None),
        Err(ErrorKind::NotEnoughParameters { given: 0, needed: 1 })
    );
    assert_eq!(
        parser.parse_command(&mut state, &mut document, "nothing", Some("x")),
        Err(ErrorKind::UnknownCommand("nothing".to_string()))
    );
    assert_eq!(
        parser.parse_command(&mut state, &mut document, "trim", Some("sometimes")),
        Err(ErrorKind::Semantic(SemanticErrorKind::InvalidParameter(
            "Invalid trimming type: sometimes".to_string()
        )))
    );
    assert_eq!(
        parser.parse_command(&mut state, &mut document, "character", Some("male a-b A")),
        Err(ErrorKind::Semantic(SemanticErrorKind::UndefinedCharacter(
            "a-b (invalid ID)".to_string()
        )))
    );
    assert!(parser.parse_command(&mut state, &mut document, "character", Some("mob a A")).is_ok());
    assert_eq!(
        parser.parse_command(&mut state, &mut document, "character", Some("male a A")),
        Err(ErrorKind::Semantic(SemanticErrorKind::DuplicateCharacter("a".to_string())))
    );
    assert!(parser.parse_command(&mut state, &mut document, "trim", Some("ascii")).is_ok());
    assert_eq!(state.trimming, Trimming::AsciiOnly);
    assert!(parser.parse_command(&mut state, &mut document, "autobr", Some("always")).is_ok());
    assert_eq!(state.auto_newline, AutoNewline::Always);
    assert!(parser.parse_command(&mut state, &mut document, "linename", Some("hidden")).is_ok());
    assert_eq!(state.block_line_type, LineType::NameHiddenBlock);
}

#[test]
fn unknown_block_kind() {
    let errors = Parser::new().parse("/box >>>").unwrap_err();
    assert_eq!(errors[0].reason(), &ErrorKind::UnknownElement("box".to_string()));
}

#[test]
fn trim_policy_applies_to_following_lines() {
    let document = Parser::new()
        .parse("x\n:trim ascii\n\u{3000}b \n:trim never\n  a  ")
        .unwrap();
    assert_eq!(
        document.blocks[0].children,
        vec![
            ElementNode::Text("x".to_string()),
            ElementNode::Text("\u{3000}b".to_string()),
            ElementNode::Text("  a  ".to_string())
        ]
    );
}

#[test]
fn inline_references_must_name_characters() {
    let errors = Parser::new().parse("ok\n[b [@ghost boo]]\n/sec [@ghost x]").unwrap_err();
    assert_eq!(errors.len(), 2);
    assert_eq!(errors[0].line(), 2);
    assert_eq!(
        errors[0].reason(),
        &ErrorKind::Semantic(SemanticErrorKind::UndefinedCharacter("ghost".to_string()))
    );
    assert_eq!(errors[1].line(), 3);
    let errors = Parser::new()
        .parse(":character male kb K\n@kb hi [@amy there]")
        .unwrap_err();
    assert_eq!(
        errors[0].reason(),
        &ErrorKind::Semantic(SemanticErrorKind::UndefinedCharacter("amy".to_string()))
    );
    let document = Parser::new()
        .parse(":character male kb K\n:character female amy A\n@kb hi [@amy there]")
        .unwrap();
    assert_eq!(document.blocks.len(), 1);
}

#[test]
fn well_paired_line_keeps_every_opener() {
    let mut nodes = vec![];
    Parser::new().parse_normal(&mut nodes, "a [b [i x]{y}] z").unwrap();
    assert_eq!(
        nodes,
        vec![
            ElementNode::Text("a ".to_string()),
            ElementNode::Surrounded {
                kind: Element::Bold,
                parameters: vec![ElementNode::Surrounded {
                    kind: Element::Parameter,
                    parameters: vec![],
                    children: vec![ElementNode::Text("y".to_string())],
                }],
                children: vec![ElementNode::Surrounded {
                    kind: Element::Italic,
                    parameters: vec![],
                    children: vec![ElementNode::Text("x".to_string())],
                }],
            },
            ElementNode::Text(" z".to_string()),
        ]
    );
}

#[test]
fn errors_come_in_line_order() {
    let errors = Parser::new().parse("]\n]\nok\n:x\n").unwrap_err();
    let lines: Vec<usize> = errors.iter().map(|e| e.line()).collect();
    assert_eq!(lines, vec![1, 2, 4]);
}
